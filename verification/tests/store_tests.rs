use spriter::sprite_format::{Cell, IndexMoveError, IntInput, MultilineString, Sprite};

#[test]
fn cell_keeps_representable_chars() {
    assert_eq!(Cell::from_char('A').code(), 65);
    assert_eq!(Cell::from_char(' ').code(), 32);
    assert_eq!(Cell::from_char('~').code(), 126);
    assert_eq!(Cell::from_char('\u{7f}').code(), 127);
}

#[test]
fn cell_coerces_unrepresentable_chars_to_space() {
    assert_eq!(Cell::from_char('\u{80}').code(), 32);
    assert_eq!(Cell::from_char('é').code(), 32);
    assert_eq!(Cell::from_char('€').code(), 32);
    assert_eq!(Cell::from_char('\u{10FFFF}').code(), 32);
}

#[test]
fn cell_coerces_unrepresentable_codes_to_space() {
    assert_eq!(Cell::from_code(65).code(), 65);
    assert_eq!(Cell::from_code(127).code(), 127);
    assert_eq!(Cell::from_code(128).code(), 32);
    assert_eq!(Cell::from_code(255).code(), 32);
}

#[test]
fn add_frame_counts_and_index() {
    let mut sp = Sprite::new();
    assert_eq!(sp.get_frame_count(), 0);
    assert_eq!(sp.ind, None);
    for n in 0..5u16 {
        sp.add_frame();
        assert_eq!(sp.get_frame_count(), (n + 1) as usize);
        assert_eq!(sp.ind, Some(n));
    }
}

#[test]
fn move_ind_in_bounds_succeeds() {
    let mut sp = Sprite::new();
    sp.add_frame();
    sp.add_frame();
    sp.add_frame();
    assert_eq!(sp.ind, Some(2));
    assert_eq!(sp.move_ind(0), Ok(()));
    assert_eq!(sp.ind, Some(0));
    assert_eq!(sp.move_ind(2), Ok(()));
    assert_eq!(sp.ind, Some(2));
}

#[test]
fn move_ind_out_of_bounds_fails_and_keeps_index() {
    let mut sp = Sprite::new();
    sp.add_frame();
    sp.add_frame();
    sp.add_frame();
    assert_eq!(sp.move_ind(1), Ok(()));
    assert_eq!(sp.move_ind(5), Err(IndexMoveError::IndexOutOfBounds(5)));
    assert_eq!(sp.ind, Some(1));
    assert_eq!(sp.move_ind(3), Err(IndexMoveError::IndexOutOfBounds(3)));
    assert_eq!(sp.ind, Some(1));
    assert_eq!(sp.move_ind(2), Ok(()));
    assert_eq!(sp.ind, Some(2));
}

#[test]
fn move_ind_on_empty_store_fails() {
    let mut sp = Sprite::new();
    assert_eq!(sp.move_ind(0), Err(IndexMoveError::IndexOutOfBounds(0)));
    assert_eq!(sp.ind, None);
}

#[test]
fn replace_current_frame_writes_rows() {
    let mut sp = Sprite::new();
    sp.width.set_value(2);
    sp.height.set_value(2);
    sp.add_frame();
    let rows = vec!["AB".to_string(), "CD".to_string()];
    sp.replace_current_frame(&rows);
    let back = sp.current_frame_rows();
    assert_eq!(back, rows);
}

#[test]
fn replace_current_frame_coerces_unrepresentable() {
    let mut sp = Sprite::new();
    sp.height.set_value(1);
    sp.add_frame();
    sp.replace_current_frame(&vec!["Aé".to_string()]);
    assert_eq!(sp.current_frame_rows(), vec!["A ".to_string()]);
}

#[test]
fn replace_current_frame_without_frames_is_noop() {
    let mut sp = Sprite::new();
    sp.replace_current_frame(&vec!["AB".to_string()]);
    assert_eq!(sp.get_frame_count(), 0);
    assert_eq!(sp.ind, None);
}

#[test]
fn current_frame_rows_of_empty_frame_is_blank() {
    let mut sp = Sprite::new();
    sp.height.set_value(3);
    sp.add_frame();
    let rows = sp.current_frame_rows();
    assert_eq!(rows, vec![String::new(), String::new(), String::new()]);
}

#[test]
fn int_input_starts_at_zero() {
    let f = IntInput::new();
    assert_eq!(f.value(), 0);
    assert_eq!(f.as_str(), "");
}

#[test]
fn int_input_insert_filters_digits() {
    let mut f = IntInput::new();
    let n = f.insert_text("a1b2c3", 0);
    assert_eq!(n, 3);
    assert_eq!(f.as_str(), "123");
    assert_eq!(f.value(), 123);
}

#[test]
fn int_input_insert_at_offset() {
    let mut f = IntInput::new();
    f.insert_text("19", 0);
    f.insert_text("0", 1);
    assert_eq!(f.as_str(), "109");
    assert_eq!(f.value(), 109);
}

#[test]
fn int_input_overflow_clamps_to_zero() {
    let mut f = IntInput::new();
    f.insert_text("70000", 0);
    assert_eq!(f.as_str(), "70000");
    assert_eq!(f.value(), 0);
}

#[test]
fn int_input_leading_zeros_parse() {
    let mut f = IntInput::new();
    f.insert_text("007", 0);
    assert_eq!(f.value(), 7);
}

#[test]
fn int_input_delete_reparses() {
    let mut f = IntInput::new();
    f.insert_text("1234", 0);
    f.delete_char_range(1..3);
    assert_eq!(f.as_str(), "14");
    assert_eq!(f.value(), 14);
}

#[test]
fn int_input_delete_out_of_bounds_clamps() {
    let mut f = IntInput::new();
    f.insert_text("56", 0);
    f.delete_char_range(1..10);
    assert_eq!(f.as_str(), "5");
    assert_eq!(f.value(), 5);
    f.delete_char_range(4..9);
    assert_eq!(f.as_str(), "5");
}

#[test]
fn int_input_insert_then_delete_restores() {
    let mut f = IntInput::new();
    f.insert_text("42", 0);
    let inserted = f.insert_text("x9y8", 1);
    assert_eq!(inserted, 2);
    assert_eq!(f.as_str(), "4982");
    f.delete_char_range(1..3);
    assert_eq!(f.as_str(), "42");
    assert_eq!(f.value(), 42);
}

#[test]
fn int_input_set_value_formats() {
    let mut f = IntInput::new();
    f.set_value(540);
    assert_eq!(f.as_str(), "540");
    assert_eq!(f.value(), 540);
    f.set_value(0);
    assert_eq!(f.as_str(), "0");
}

#[test]
fn multiline_inserts_verbatim() {
    let mut m = MultilineString::new();
    let n = m.insert_text("héllo", 0);
    assert_eq!(n, 5);
    assert_eq!(m.as_str(), "héllo");
    m.insert_text("!!", 99);
    assert_eq!(m.as_str(), "héllo!!");
}

#[test]
fn multiline_deletes_char_range() {
    let mut m = MultilineString::new();
    m.insert_text("abcdef", 0);
    m.delete_char_range(2..4);
    assert_eq!(m.as_str(), "abef");
    m.delete_char_range(3..100);
    assert_eq!(m.as_str(), "abe");
}

#[test]
fn add_frame_increments_index_from_wherever_it_is() {
    let mut sp = Sprite::new();
    sp.add_frame();
    sp.add_frame();
    sp.add_frame();
    assert_eq!(sp.move_ind(0), Ok(()));
    sp.add_frame();
    assert_eq!(sp.get_frame_count(), 4);
    assert_eq!(sp.ind, Some(1));
}
