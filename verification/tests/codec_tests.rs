use spriter::codec::{decode, encode, DecodeError, FieldName};
use spriter::input_string::InputString;
use spriter::sprite_format::Sprite;

fn sample_sprite() -> Sprite {
    let mut sp = Sprite::new();
    sp.width.set_value(1);
    sp.height.set_value(1);
    sp.add_frame();
    sp.replace_current_frame(&vec!["A".to_string()]);
    sp
}

#[test]
fn encode_produces_exact_document() {
    let sp = sample_sprite();
    let doc = encode(&sp);
    assert_eq!(
        doc,
        "{\"frame_count\":1,\"width\":1,\"height\":1,\"sprite\":\"[[[65]]]\"}"
    );
}

#[test]
fn encode_empty_store() {
    let sp = Sprite::new();
    let doc = encode(&sp);
    assert_eq!(doc, "{\"frame_count\":0,\"width\":0,\"height\":0,\"sprite\":\"[]\"}");
}

#[test]
fn decode_of_encode_round_trips() {
    let mut sp = Sprite::new();
    sp.width.set_value(3);
    sp.height.set_value(2);
    sp.add_frame();
    sp.replace_current_frame(&vec!["AB!".to_string(), " ~z".to_string()]);
    sp.add_frame();
    sp.replace_current_frame(&vec!["..".to_string()]);
    let doc = encode(&sp);
    let back = decode(&doc).unwrap();
    assert_eq!(back.width.value(), 3);
    assert_eq!(back.height.value(), 2);
    assert_eq!(back.get_frame_count(), 2);
    assert_eq!(back.ind, Some(0));
    let rows = back.current_frame_rows();
    assert_eq!(rows, vec!["AB!".to_string(), " ~z".to_string()]);
}

#[test]
fn decode_resets_index_to_first_frame() {
    let mut sp = Sprite::new();
    sp.add_frame();
    sp.add_frame();
    sp.add_frame();
    assert_eq!(sp.ind, Some(2));
    let back = decode(&encode(&sp)).unwrap();
    assert_eq!(back.get_frame_count(), 3);
    assert_eq!(back.ind, Some(0));
}

#[test]
fn decode_accepts_blanks_and_field_order() {
    let doc = " { \"width\" : 4 ,\n\t\"height\": 1, \"sprite\" : \"[ [ [65 , 66] ] ]\",\r\n\"frame_count\": 1 } ";
    let sp = decode(doc).unwrap();
    assert_eq!(sp.width.value(), 4);
    assert_eq!(sp.height.value(), 1);
    assert_eq!(sp.get_frame_count(), 1);
    assert_eq!(sp.current_frame_rows(), vec!["AB".to_string()]);
}

#[test]
fn decode_ignores_unknown_fields() {
    let doc = "{\"frame_count\":0,\"name\":\"x\",\"width\":2,\"height\":2,\"extra\":7,\"sprite\":\"[]\"}";
    let sp = decode(doc).unwrap();
    assert_eq!(sp.width.value(), 2);
    assert_eq!(sp.get_frame_count(), 0);
    assert_eq!(sp.ind, None);
}

#[test]
fn decode_missing_height() {
    let doc = "{\"frame_count\":1,\"width\":2,\"sprite\":\"[]\"}";
    assert_eq!(decode(doc).err(), Some(DecodeError::MissingField(FieldName::Height)));
}

#[test]
fn decode_missing_width() {
    let doc = "{\"frame_count\":1,\"height\":2,\"sprite\":\"[]\"}";
    assert_eq!(decode(doc).err(), Some(DecodeError::MissingField(FieldName::Width)));
}

#[test]
fn decode_missing_frame_count() {
    let doc = "{\"width\":2,\"height\":2,\"sprite\":\"[]\"}";
    assert_eq!(decode(doc).err(), Some(DecodeError::MissingField(FieldName::FrameCount)));
}

#[test]
fn decode_missing_sprite() {
    let doc = "{\"frame_count\":1,\"width\":2,\"height\":2}";
    assert_eq!(decode(doc).err(), Some(DecodeError::MissingField(FieldName::SpriteData)));
}

#[test]
fn decode_missing_height_reported_first() {
    assert_eq!(decode("{}").err(), Some(DecodeError::MissingField(FieldName::Height)));
}

#[test]
fn decode_malformed_documents() {
    assert_eq!(decode("").err(), Some(DecodeError::DocumentSyntax));
    assert_eq!(decode("not a document").err(), Some(DecodeError::DocumentSyntax));
    assert_eq!(decode("{\"width\":2").err(), Some(DecodeError::DocumentSyntax));
    assert_eq!(decode("{\"width\":2,}").err(), Some(DecodeError::DocumentSyntax));
    assert_eq!(decode("{\"width\":-2}").err(), Some(DecodeError::DocumentSyntax));
    assert_eq!(decode("{\"width\":2} trailing").err(), Some(DecodeError::DocumentSyntax));
}

#[test]
fn decode_bad_sprite_data() {
    let head = "{\"frame_count\":1,\"width\":2,\"height\":2,\"sprite\":";
    assert_eq!(
        decode(&format!("{}\"[[\"{}", head, "}")).err(),
        Some(DecodeError::SpriteSyntax)
    );
    assert_eq!(
        decode(&format!("{}\"[[[256]]]\"{}", head, "}")).err(),
        Some(DecodeError::SpriteSyntax)
    );
    assert_eq!(
        decode(&format!("{}\"[[[1,]]]\"{}", head, "}")).err(),
        Some(DecodeError::SpriteSyntax)
    );
    assert_eq!(
        decode(&format!("{}\"\"{}", head, "}")).err(),
        Some(DecodeError::SpriteSyntax)
    );
    // a number where the sprite string should be reads as an empty string
    assert_eq!(
        decode(&format!("{}3{}", head, "}")).err(),
        Some(DecodeError::SpriteSyntax)
    );
}

#[test]
fn decode_cell_codes_are_coerced() {
    let doc = "{\"frame_count\":1,\"width\":2,\"height\":1,\"sprite\":\"[[[65,200]]]\"}";
    let sp = decode(doc).unwrap();
    assert_eq!(sp.current_frame_rows(), vec!["A ".to_string()]);
}

#[test]
fn decode_oversized_dimension_becomes_zero() {
    let doc = "{\"frame_count\":0,\"width\":70000,\"height\":2,\"sprite\":\"[]\"}";
    let sp = decode(doc).unwrap();
    assert_eq!(sp.width.value(), 0);
    assert_eq!(sp.height.value(), 2);
}

#[test]
fn decode_wrong_typed_dimension_becomes_zero() {
    let doc = "{\"frame_count\":0,\"width\":\"abc\",\"height\":2,\"sprite\":\"[]\"}";
    let sp = decode(doc).unwrap();
    assert_eq!(sp.width.value(), 0);
}

#[test]
fn decode_duplicate_field_last_wins() {
    let doc = "{\"frame_count\":0,\"width\":1,\"width\":9,\"height\":2,\"sprite\":\"[]\"}";
    let sp = decode(doc).unwrap();
    assert_eq!(sp.width.value(), 9);
}

#[test]
fn decoded_dimension_text_is_canonical() {
    let doc = "{\"frame_count\":0,\"width\":12,\"height\":7,\"sprite\":\"[]\"}";
    let sp = decode(doc).unwrap();
    assert_eq!(sp.width.as_str(), "12");
    assert_eq!(sp.height.as_str(), "7");
}

#[test]
fn input_string_chunks_by_width() {
    let mut b = InputString::new(2, 3);
    b.insert_text("ABCDE", 0);
    let rows = b.format_string();
    assert_eq!(rows, vec!["AB".to_string(), "CD".to_string(), "E".to_string()]);
}

#[test]
fn input_string_chunks_exact_multiple() {
    let mut b = InputString::new(3, 1);
    b.insert_text("XYZuvw", 0);
    assert_eq!(b.format_string(), vec!["XYZ".to_string(), "uvw".to_string()]);
}

#[test]
fn input_string_empty_has_no_chunks() {
    let b = InputString::new(4, 2);
    assert_eq!(b.format_string(), Vec::<String>::new());
}

#[test]
fn input_string_delete_rechunks() {
    let mut b = InputString::new(2, 2);
    b.insert_text("ABCD", 0);
    b.delete_char_range(1..3);
    assert_eq!(b.as_str(), "AD");
    assert_eq!(b.format_string(), vec!["AD".to_string()]);
}

#[test]
fn round_trip_preserves_jagged_frames() {
    let mut sp = Sprite::new();
    sp.width.set_value(3);
    sp.height.set_value(2);
    sp.add_frame();
    sp.add_frame();
    sp.replace_current_frame(&vec!["A".to_string(), "BCD".to_string()]);
    let back = decode(&encode(&sp)).unwrap();
    assert_eq!(back.get_frame_count(), 2);
    assert_eq!(back.ind, Some(0));
    // the first frame was never written: it reloads as blank rows
    assert_eq!(back.current_frame_rows(), vec![String::new(), String::new()]);
    let mut back = back;
    assert_eq!(back.move_ind(1), Ok(()));
    assert_eq!(back.current_frame_rows(), vec!["A".to_string(), "BCD".to_string()]);
}
