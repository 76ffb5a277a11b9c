//! The sprite serialization codec.
//!
//! A sprite is persisted as one textual document: a brace-delimited field
//! object holding exactly four required fields — `frame_count`, `width`
//! and `height` as unsigned decimal integers, and `sprite` as a quoted
//! string that itself holds every frame as nested bracketed, comma-joined
//! sequences of cell codes (frame, then row, then cell).
//!
//! The format is specified here precisely, printer and parser alike, as
//! spec functions; the executable encoder and decoder are verified against
//! them, and the round-trip law is proved from the specs. The parser
//! tolerates blanks between tokens, fields in any order, and unknown
//! fields (whose values must still be unsigned integers or plain strings);
//! escape sequences are not part of the format, and numbers are unsigned.

use vstd::prelude::*;
use crate::numerals::{dec_repr, digit_char_val, digit_val, digits_val, is_dec_digit, is_digit_char};
use crate::sprite_format::{
    coerce_code, frames_representable, Cell, IntInput, NumFieldView, Sprite, SpriteFrames,
    StoreView,
};
use crate::text::str_to_chars;

verus! {

// ---------------------------------------------------------------------------
// The printed form.
// ---------------------------------------------------------------------------

/// Key of the frame-count field.
pub open spec fn key_frame_count() -> Seq<char> {
    seq!['f', 'r', 'a', 'm', 'e', '_', 'c', 'o', 'u', 'n', 't']
}

/// Key of the width field.
pub open spec fn key_width() -> Seq<char> {
    seq!['w', 'i', 'd', 't', 'h']
}

/// Key of the height field.
pub open spec fn key_height() -> Seq<char> {
    seq!['h', 'e', 'i', 'g', 'h', 't']
}

/// Key of the sprite-data field.
pub open spec fn key_sprite() -> Seq<char> {
    seq!['s', 'p', 'r', 'i', 't', 'e']
}

/// The parts joined with a comma between consecutive parts.
pub open spec fn join_comma(parts: Seq<Seq<char>>) -> Seq<char>
    decreases parts.len(),
{
    if parts.len() == 0 {
        Seq::empty()
    } else if parts.len() == 1 {
        parts[0]
    } else {
        parts[0] + seq![','] + join_comma(parts.skip(1))
    }
}

/// Decimal renderings of a row's cell codes.
pub open spec fn dec_parts(r: Seq<u8>) -> Seq<Seq<char>> {
    r.map_values(|b: u8| dec_repr(b as nat))
}

/// Printed form of one row: its cell codes in decimal, comma-joined in
/// brackets.
pub open spec fn row_text(r: Seq<u8>) -> Seq<char> {
    seq!['['] + join_comma(dec_parts(r)) + seq![']']
}

/// Printed forms of a frame's rows.
pub open spec fn row_parts(f: Seq<Seq<u8>>) -> Seq<Seq<char>> {
    f.map_values(|r: Seq<u8>| row_text(r))
}

/// Printed form of one frame: its rows, comma-joined in brackets.
pub open spec fn frame_text(f: Seq<Seq<u8>>) -> Seq<char> {
    seq!['['] + join_comma(row_parts(f)) + seq![']']
}

/// Printed forms of all frames.
pub open spec fn frame_parts(fs: Seq<Seq<Seq<u8>>>) -> Seq<Seq<char>> {
    fs.map_values(|f: Seq<Seq<u8>>| frame_text(f))
}

/// Printed form of all frames: comma-joined in brackets.
pub open spec fn frames_text(fs: Seq<Seq<Seq<u8>>>) -> Seq<char> {
    seq!['['] + join_comma(frame_parts(fs)) + seq![']']
}

/// Printed form of one numeric member: the quoted key, a colon, and the
/// decimal value.
pub open spec fn member_num_text(key: Seq<char>, n: nat) -> Seq<char> {
    seq!['"'] + key + seq!['"', ':'] + dec_repr(n)
}

/// Printed form of one string member: the quoted key, a colon, and the
/// quoted content.
pub open spec fn member_txt_text(key: Seq<char>, content: Seq<char>) -> Seq<char> {
    seq!['"'] + key + seq!['"', ':', '"'] + content + seq!['"']
}

/// The canonical printed document for a store: the four fields in a fixed
/// order, without blanks.
pub open spec fn spec_encode(v: StoreView) -> Seq<char> {
    seq!['{'] + member_num_text(key_frame_count(), v.frames.len() as nat) + seq![',']
        + member_num_text(key_width(), v.width.value as nat) + seq![','] + member_num_text(
        key_height(),
        v.height.value as nat,
    ) + seq![','] + member_txt_text(key_sprite(), frames_text(v.frames)) + seq!['}']
}

// ---------------------------------------------------------------------------
// The parsed form.
// ---------------------------------------------------------------------------

/// Blank characters tolerated between tokens.
pub open spec fn is_ws(c: char) -> bool {
    c == ' ' || c == '\n' || c == '\t' || c == '\r'
}

/// First position at or after `i` holding no blank.
pub open spec fn skip_ws(s: Seq<char>, i: int) -> int
    decreases s.len() - i,
{
    if i < s.len() && is_ws(s[i]) {
        skip_ws(s, i + 1)
    } else {
        i
    }
}

/// Value and end position of the digit run starting at `i`, folded onto
/// `acc`.
pub open spec fn parse_digits(s: Seq<char>, i: int, acc: int) -> (int, int)
    decreases s.len() - i,
{
    if 0 <= i < s.len() && is_dec_digit(s[i]) {
        parse_digits(s, i + 1, acc * 10 + digit_val(s[i]))
    } else {
        (acc, i)
    }
}

/// Content and end position of the quoted string whose opening quote was
/// already consumed, accumulated onto `acc`; fails on a backslash or a
/// missing closing quote.
pub open spec fn scan_string(s: Seq<char>, i: int, acc: Seq<char>) -> Option<(Seq<char>, int)>
    decreases s.len() - i,
{
    if !(0 <= i < s.len()) {
        None
    } else if s[i] == '"' {
        Some((acc, i + 1))
    } else if s[i] == '\\' {
        None
    } else {
        scan_string(s, i + 1, acc.push(s[i]))
    }
}

/// A quoted string starting exactly at `i`.
pub open spec fn parse_string(s: Seq<char>, i: int) -> Option<(Seq<char>, int)> {
    if 0 <= i < s.len() && s[i] == '"' {
        scan_string(s, i + 1, Seq::empty())
    } else {
        None
    }
}

/// Cell codes of one row, parsed from after the opening bracket.
pub open spec fn parse_row_items(s: Seq<char>, i: int, acc: Seq<u8>, first: bool) -> Option<
    (Seq<u8>, int),
>
    decreases s.len() - i,
{
    let j = skip_ws(s, i);
    if j < s.len() && s[j] == ']' && first {
        Some((acc, j + 1))
    } else if j < s.len() && is_dec_digit(s[j]) {
        let vj = parse_digits(s, j, 0);
        if vj.0 <= 255 {
            let j3 = skip_ws(s, vj.1);
            if j3 < s.len() && s[j3] == ']' {
                Some((acc.push(vj.0 as u8), j3 + 1))
            } else if j3 < s.len() && s[j3] == ',' && i < j3 + 1 {
                parse_row_items(s, j3 + 1, acc.push(vj.0 as u8), false)
            } else {
                None
            }
        } else {
            None
        }
    } else {
        None
    }
}

/// One bracketed row starting exactly at `i`.
pub open spec fn parse_row(s: Seq<char>, i: int) -> Option<(Seq<u8>, int)> {
    if 0 <= i < s.len() && s[i] == '[' {
        parse_row_items(s, i + 1, Seq::empty(), true)
    } else {
        None
    }
}

/// Rows of one frame, parsed from after the opening bracket.
pub open spec fn parse_frame_items(s: Seq<char>, i: int, acc: Seq<Seq<u8>>, first: bool) -> Option<
    (Seq<Seq<u8>>, int),
>
    decreases s.len() - i,
{
    let j = skip_ws(s, i);
    if j < s.len() && s[j] == ']' && first {
        Some((acc, j + 1))
    } else {
        match parse_row(s, j) {
            None => None,
            Some((r, j2)) => {
                let j3 = skip_ws(s, j2);
                if j3 < s.len() && s[j3] == ']' {
                    Some((acc.push(r), j3 + 1))
                } else if j3 < s.len() && s[j3] == ',' && i < j3 + 1 {
                    parse_frame_items(s, j3 + 1, acc.push(r), false)
                } else {
                    None
                }
            },
        }
    }
}

/// One bracketed frame starting exactly at `i`.
pub open spec fn parse_frame(s: Seq<char>, i: int) -> Option<(Seq<Seq<u8>>, int)> {
    if 0 <= i < s.len() && s[i] == '[' {
        parse_frame_items(s, i + 1, Seq::empty(), true)
    } else {
        None
    }
}

/// The frames of the sprite field, parsed from after the opening bracket.
pub open spec fn parse_frames_items(
    s: Seq<char>,
    i: int,
    acc: Seq<Seq<Seq<u8>>>,
    first: bool,
) -> Option<(Seq<Seq<Seq<u8>>>, int)>
    decreases s.len() - i,
{
    let j = skip_ws(s, i);
    if j < s.len() && s[j] == ']' && first {
        Some((acc, j + 1))
    } else {
        match parse_frame(s, j) {
            None => None,
            Some((f, j2)) => {
                let j3 = skip_ws(s, j2);
                if j3 < s.len() && s[j3] == ']' {
                    Some((acc.push(f), j3 + 1))
                } else if j3 < s.len() && s[j3] == ',' && i < j3 + 1 {
                    parse_frames_items(s, j3 + 1, acc.push(f), false)
                } else {
                    None
                }
            },
        }
    }
}

/// The whole sprite field: one bracketed sequence of frames and nothing
/// else but trailing blanks.
pub open spec fn spec_parse_sprite(t: Seq<char>) -> Option<Seq<Seq<Seq<u8>>>> {
    let j = skip_ws(t, 0);
    if j < t.len() && t[j] == '[' {
        match parse_frames_items(t, j + 1, Seq::empty(), true) {
            None => None,
            Some((fs, j2)) => {
                if skip_ws(t, j2) == t.len() {
                    Some(fs)
                } else {
                    None
                }
            },
        }
    } else {
        None
    }
}

/// A field value: an unsigned integer or a plain string.
pub ghost enum FieldVal {
    Num(int),
    Txt(Seq<char>),
}

/// What the document's members have provided so far, by field.
pub ghost struct DocFields {
    pub frame_count: Option<int>,
    pub width: Option<int>,
    pub height: Option<int>,
    pub sprite: Option<Seq<char>>,
}

/// No field seen yet.
pub open spec fn empty_doc_fields() -> DocFields {
    DocFields { frame_count: None, width: None, height: None, sprite: None }
}

/// A numeric field read from a value: a string where a number was expected
/// counts as zero.
pub open spec fn field_num(v: FieldVal) -> int {
    match v {
        FieldVal::Num(n) => n,
        FieldVal::Txt(_) => 0,
    }
}

/// A string field read from a value: a number where a string was expected
/// counts as the empty string.
pub open spec fn field_txt(v: FieldVal) -> Seq<char> {
    match v {
        FieldVal::Num(_) => Seq::empty(),
        FieldVal::Txt(t) => t,
    }
}

/// Record one member: a known key overwrites its field, an unknown key is
/// ignored.
pub open spec fn set_field(f: DocFields, key: Seq<char>, v: FieldVal) -> DocFields {
    if key == key_frame_count() {
        DocFields { frame_count: Some(field_num(v)), ..f }
    } else if key == key_width() {
        DocFields { width: Some(field_num(v)), ..f }
    } else if key == key_height() {
        DocFields { height: Some(field_num(v)), ..f }
    } else if key == key_sprite() {
        DocFields { sprite: Some(field_txt(v)), ..f }
    } else {
        f
    }
}

/// One `"key": value` member starting exactly at the key's quote.
pub open spec fn parse_member(s: Seq<char>, i: int, f: DocFields) -> Option<(DocFields, int)> {
    match parse_string(s, i) {
        None => None,
        Some((key, j)) => {
            let j2 = skip_ws(s, j);
            if j2 < s.len() && s[j2] == ':' {
                let j3 = skip_ws(s, j2 + 1);
                if j3 < s.len() && is_dec_digit(s[j3]) {
                    let vj = parse_digits(s, j3, 0);
                    Some((set_field(f, key, FieldVal::Num(vj.0)), vj.1))
                } else if j3 < s.len() && s[j3] == '"' {
                    match parse_string(s, j3) {
                        None => None,
                        Some((t, j4)) => Some((set_field(f, key, FieldVal::Txt(t)), j4)),
                    }
                } else {
                    None
                }
            } else {
                None
            }
        },
    }
}

/// The members of the document object, parsed from after the opening
/// brace.
pub open spec fn parse_members(s: Seq<char>, i: int, f: DocFields, first: bool) -> Option<
    (DocFields, int),
>
    decreases s.len() - i,
{
    let j = skip_ws(s, i);
    if j < s.len() && s[j] == '}' && first {
        Some((f, j + 1))
    } else {
        match parse_member(s, j, f) {
            None => None,
            Some((f2, j2)) => {
                let j3 = skip_ws(s, j2);
                if j3 < s.len() && s[j3] == '}' {
                    Some((f2, j3 + 1))
                } else if j3 < s.len() && s[j3] == ',' && i < j3 + 1 {
                    parse_members(s, j3 + 1, f2, false)
                } else {
                    None
                }
            },
        }
    }
}

/// The whole document: one brace-delimited field object and nothing else
/// but trailing blanks.
pub open spec fn spec_parse_doc(s: Seq<char>) -> Option<DocFields> {
    let j = skip_ws(s, 0);
    if j < s.len() && s[j] == '{' {
        match parse_members(s, j + 1, empty_doc_fields(), true) {
            None => None,
            Some((f, j2)) => {
                if skip_ws(s, j2) == s.len() {
                    Some(f)
                } else {
                    None
                }
            },
        }
    } else {
        None
    }
}

// ---------------------------------------------------------------------------
// Decoding a store from a document.
// ---------------------------------------------------------------------------

/// A field required by the document format.
#[derive(Debug, PartialEq, Eq, Clone, Copy, Structural)]
pub enum FieldName {
    FrameCount,
    Width,
    Height,
    SpriteData,
}

/// Why a document failed to decode.
#[derive(Debug, PartialEq, Eq, Clone, Copy, Structural)]
pub enum DecodeError {
    /// The document is not a well-formed field object.
    DocumentSyntax,
    /// A required field is absent.
    MissingField(FieldName),
    /// The sprite field does not hold well-formed nested code sequences,
    /// or holds more frames than an index can address.
    SpriteSyntax,
}

/// A nonnegative integer squeezed into a dimension: values beyond
/// `u16::MAX` count as zero.
pub open spec fn coerce_dim(v: int) -> u16 {
    if 0 <= v <= 0xFFFF {
        v as u16
    } else {
        0
    }
}

/// Raw parsed frames with every cell code coerced into the representable
/// range.
pub open spec fn coerce_frames(fs: Seq<Seq<Seq<u8>>>) -> Seq<Seq<Seq<u8>>> {
    fs.map_values(
        |f: Seq<Seq<u8>>| f.map_values(|r: Seq<u8>| r.map_values(|b: u8| coerce_code(b))),
    )
}

/// The store a document decodes to, or the error saying why it does not:
/// a syntax error for a malformed document, a named missing-field error
/// (checked in a fixed order) for an absent field, and a sprite-data error
/// for an unusable sprite field. On success the dimensions are the decoded
/// values (with canonical text), every cell is coerced, and the current
/// index is reset to the first frame.
pub open spec fn spec_decode(s: Seq<char>) -> Result<StoreView, DecodeError> {
    match spec_parse_doc(s) {
        None => Err(DecodeError::DocumentSyntax),
        Some(f) => {
            if f.height is None {
                Err(DecodeError::MissingField(FieldName::Height))
            } else if f.width is None {
                Err(DecodeError::MissingField(FieldName::Width))
            } else if f.frame_count is None {
                Err(DecodeError::MissingField(FieldName::FrameCount))
            } else if f.sprite is None {
                Err(DecodeError::MissingField(FieldName::SpriteData))
            } else {
                match spec_parse_sprite(f.sprite.unwrap()) {
                    None => Err(DecodeError::SpriteSyntax),
                    Some(raw) => {
                        if raw.len() > 0xFFFF {
                            Err(DecodeError::SpriteSyntax)
                        } else {
                            let frames = coerce_frames(raw);
                            Ok(
                                StoreView {
                                    width: NumFieldView {
                                        value: coerce_dim(f.width.unwrap()),
                                        text: dec_repr(coerce_dim(f.width.unwrap()) as nat),
                                    },
                                    height: NumFieldView {
                                        value: coerce_dim(f.height.unwrap()),
                                        text: dec_repr(coerce_dim(f.height.unwrap()) as nat),
                                    },
                                    frames,
                                    ind: if frames.len() > 0 {
                                        Some(0u16)
                                    } else {
                                        None
                                    },
                                },
                            )
                        }
                    },
                }
            }
        },
    }
}

// ---------------------------------------------------------------------------
// Position facts about the spec parsers.
// ---------------------------------------------------------------------------

/// Skipping blanks never moves backwards nor past the end.
pub proof fn lemma_skip_ws_pos(s: Seq<char>, i: int)
    requires
        0 <= i <= s.len(),
    ensures
        i <= skip_ws(s, i) <= s.len(),
    decreases s.len() - i,
{
    if i < s.len() && is_ws(s[i]) {
        lemma_skip_ws_pos(s, i + 1);
    }
}

/// A digit run never moves backwards nor past the end.
pub proof fn lemma_parse_digits_pos(s: Seq<char>, i: int, acc: int)
    requires
        0 <= i <= s.len(),
    ensures
        i <= parse_digits(s, i, acc).1 <= s.len(),
    decreases s.len() - i,
{
    if i < s.len() && is_dec_digit(s[i]) {
        lemma_parse_digits_pos(s, i + 1, acc * 10 + digit_val(s[i]));
    }
}

/// A string scan always ends after at least the closing quote, within the
/// input.
pub proof fn lemma_scan_string_pos(s: Seq<char>, i: int, acc: Seq<char>)
    requires
        0 <= i <= s.len(),
        scan_string(s, i, acc) is Some,
    ensures
        i < scan_string(s, i, acc).unwrap().1 <= s.len(),
    decreases s.len() - i,
{
    if s[i] == '"' {
    } else if s[i] == '\\' {
    } else {
        lemma_scan_string_pos(s, i + 1, acc.push(s[i]));
    }
}

/// A member consumes at least its key and colon.
pub proof fn lemma_parse_member_pos(s: Seq<char>, i: int, f: DocFields)
    requires
        0 <= i <= s.len(),
        parse_member(s, i, f) is Some,
    ensures
        i < parse_member(s, i, f).unwrap().1 <= s.len(),
{
    let (key, j) = parse_string(s, i).unwrap();
    lemma_scan_string_pos(s, i + 1, Seq::empty());
    let j2 = skip_ws(s, j);
    lemma_skip_ws_pos(s, j);
    let j3 = skip_ws(s, j2 + 1);
    lemma_skip_ws_pos(s, j2 + 1);
    if j3 < s.len() && is_dec_digit(s[j3]) {
        lemma_parse_digits_pos(s, j3, 0);
    } else {
        lemma_scan_string_pos(s, j3 + 1, Seq::empty());
    }
}

// ---------------------------------------------------------------------------
// The executable parser.
// ---------------------------------------------------------------------------

/// Rows of raw codes, as nested sequences.
pub open spec fn rows_of(v: Vec<Vec<u8>>) -> Seq<Seq<u8>> {
    v@.map_values(|r: Vec<u8>| r@)
}

/// Frames of raw codes, as nested sequences.
pub open spec fn frames_of(v: Vec<Vec<Vec<u8>>>) -> Seq<Seq<Seq<u8>>> {
    v@.map_values(|f: Vec<Vec<u8>>| rows_of(f))
}

/// Whether one character is a blank.
fn is_ws_char(c: char) -> (r: bool)
    ensures
        r == is_ws(c),
{
    c == ' ' || c == '\n' || c == '\t' || c == '\r'
}

/// First position at or after `i` holding no blank.
fn skip_ws_exec(s: &Vec<char>, i: usize) -> (j: usize)
    requires
        i <= s@.len(),
    ensures
        j as int == skip_ws(s@, i as int),
        i <= j <= s@.len(),
{
    let mut j = i;
    while j < s.len() && is_ws_char(s[j])
        invariant
            i <= j <= s@.len(),
            skip_ws(s@, i as int) == skip_ws(s@, j as int),
        decreases s@.len() - j,
    {
        j += 1;
    }
    j
}

/// The digit run starting at `i`: its end position, and its value
/// saturated at 0x10000 once it can no longer fit a dimension.
fn parse_uint_exec(s: &Vec<char>, i: usize) -> (r: (u32, usize))
    requires
        i <= s@.len(),
    ensures
        r.1 as int == parse_digits(s@, i as int, 0).1,
        i <= r.1 <= s@.len(),
        parse_digits(s@, i as int, 0).0 >= 0,
        parse_digits(s@, i as int, 0).0 <= 0xFFFF ==> r.0 == parse_digits(s@, i as int, 0).0,
        parse_digits(s@, i as int, 0).0 > 0xFFFF ==> r.0 == 0x10000,
        r.0 <= 0x10000,
{
    let mut j = i;
    let mut acc: u32 = 0;
    let ghost mut gacc: int = 0;
    while j < s.len() && is_digit_char(s[j])
        invariant
            i <= j <= s@.len(),
            0 <= gacc,
            gacc <= 0xFFFF ==> acc == gacc,
            gacc > 0xFFFF ==> acc == 0x10000,
            acc <= 0x10000,
            parse_digits(s@, i as int, 0) == parse_digits(s@, j as int, gacc),
        decreases s@.len() - j,
    {
        let d = digit_char_val(s[j]);
        proof {
            assert(parse_digits(s@, j as int, gacc) == parse_digits(
                s@,
                j as int + 1,
                gacc * 10 + digit_val(s@[j as int]),
            ));
        }
        let t = acc * 10 + d as u32;
        proof {
            gacc = gacc * 10 + digit_val(s@[j as int]);
        }
        if t > 0xFFFF {
            acc = 0x10000;
        } else {
            acc = t;
        }
        j += 1;
    }
    proof {
        assert(parse_digits(s@, j as int, gacc) == (gacc, j as int));
    }
    (acc, j)
}

/// The quoted string starting exactly at `i`, if any.
fn parse_string_exec(s: &Vec<char>, i: usize) -> (r: Option<(Vec<char>, usize)>)
    requires
        i <= s@.len(),
    ensures
        match r {
            None => parse_string(s@, i as int) is None,
            Some(p) => {
                &&& parse_string(s@, i as int) == Some((p.0@, p.1 as int))
                &&& i < p.1 <= s@.len()
            },
        },
{
    if !(i < s.len()) {
        return None;
    }
    if s[i] != '"' {
        return None;
    }
    let mut j = i + 1;
    let mut acc: Vec<char> = Vec::new();
    while j < s.len() && s[j] != '"' && s[j] != '\\'
        invariant
            i + 1 <= j <= s@.len(),
            scan_string(s@, i as int + 1, Seq::empty()) == scan_string(s@, j as int, acc@),
        decreases s@.len() - j,
    {
        acc.push(s[j]);
        j += 1;
    }
    if j < s.len() && s[j] == '"' {
        Some((acc, j + 1))
    } else {
        None
    }
}

/// One bracketed row starting exactly at `i`, if any.
fn parse_row_exec(s: &Vec<char>, i: usize) -> (r: Option<(Vec<u8>, usize)>)
    requires
        i <= s@.len(),
    ensures
        match r {
            None => parse_row(s@, i as int) is None,
            Some(p) => {
                &&& parse_row(s@, i as int) == Some((p.0@, p.1 as int))
                &&& i < p.1 <= s@.len()
            },
        },
{
    if !(i < s.len()) {
        return None;
    }
    if s[i] != '[' {
        return None;
    }
    let mut acc: Vec<u8> = Vec::new();
    let mut pos: usize = i + 1;
    let mut first: bool = true;
    loop
        invariant
            i < s@.len(),
            s@[i as int] == '[',
            i + 1 <= pos <= s@.len(),
            parse_row_items(s@, i as int + 1, Seq::empty(), true) == parse_row_items(
                s@,
                pos as int,
                acc@,
                first,
            ),
        decreases s@.len() - pos,
    {
        let j = skip_ws_exec(s, pos);
        if j < s.len() && s[j] == ']' && first {
            return Some((acc, j + 1));
        }
        if !(j < s.len() && is_digit_char(s[j])) {
            return None;
        }
        let vj = parse_uint_exec(s, j);
        proof {
            lemma_parse_digits_pos(s@, j as int, 0);
        }
        if vj.0 > 255 {
            return None;
        }
        let j3 = skip_ws_exec(s, vj.1);
        if j3 < s.len() && s[j3] == ']' {
            acc.push(vj.0 as u8);
            return Some((acc, j3 + 1));
        }
        if j3 < s.len() && s[j3] == ',' {
            acc.push(vj.0 as u8);
            pos = j3 + 1;
            first = false;
        } else {
            return None;
        }
    }
}

/// One bracketed frame starting exactly at `i`, if any.
fn parse_frame_exec(s: &Vec<char>, i: usize) -> (r: Option<(Vec<Vec<u8>>, usize)>)
    requires
        i <= s@.len(),
    ensures
        match r {
            None => parse_frame(s@, i as int) is None,
            Some(p) => {
                &&& parse_frame(s@, i as int) == Some((rows_of(p.0), p.1 as int))
                &&& i < p.1 <= s@.len()
            },
        },
{
    if !(i < s.len()) {
        return None;
    }
    if s[i] != '[' {
        return None;
    }
    let mut acc: Vec<Vec<u8>> = Vec::new();
    let mut pos: usize = i + 1;
    let mut first: bool = true;
    proof {
        assert(rows_of(acc) =~= Seq::<Seq<u8>>::empty());
    }
    loop
        invariant
            i < s@.len(),
            s@[i as int] == '[',
            i + 1 <= pos <= s@.len(),
            parse_frame_items(s@, i as int + 1, Seq::empty(), true) == parse_frame_items(
                s@,
                pos as int,
                rows_of(acc),
                first,
            ),
        decreases s@.len() - pos,
    {
        let j = skip_ws_exec(s, pos);
        if j < s.len() && s[j] == ']' && first {
            return Some((acc, j + 1));
        }
        let row = parse_row_exec(s, j);
        match row {
            None => {
                return None;
            },
            Some(p) => {
                let j3 = skip_ws_exec(s, p.1);
                let ghost prev = rows_of(acc);
                if j3 < s.len() && s[j3] == ']' {
                    acc.push(p.0);
                    proof {
                        assert(rows_of(acc) =~= prev.push(p.0@));
                    }
                    return Some((acc, j3 + 1));
                }
                if j3 < s.len() && s[j3] == ',' {
                    acc.push(p.0);
                    proof {
                        assert(rows_of(acc) =~= prev.push(p.0@));
                    }
                    pos = j3 + 1;
                    first = false;
                } else {
                    return None;
                }
            },
        }
    }
}

/// The frames of the sprite field from after the opening bracket, if
/// well-formed.
fn parse_frames_items_exec(s: &Vec<char>, start: usize) -> (r: Option<(Vec<Vec<Vec<u8>>>, usize)>)
    requires
        start <= s@.len(),
    ensures
        match r {
            None => parse_frames_items(s@, start as int, Seq::empty(), true) is None,
            Some(p) => {
                &&& parse_frames_items(s@, start as int, Seq::empty(), true) == Some(
                    (frames_of(p.0), p.1 as int),
                )
                &&& start <= p.1 <= s@.len()
            },
        },
{
    let mut acc: Vec<Vec<Vec<u8>>> = Vec::new();
    let mut pos: usize = start;
    let mut first: bool = true;
    proof {
        assert(frames_of(acc) =~= Seq::<Seq<Seq<u8>>>::empty());
    }
    loop
        invariant
            start <= pos <= s@.len(),
            parse_frames_items(s@, start as int, Seq::empty(), true) == parse_frames_items(
                s@,
                pos as int,
                frames_of(acc),
                first,
            ),
        decreases s@.len() - pos,
    {
        let j = skip_ws_exec(s, pos);
        if j < s.len() && s[j] == ']' && first {
            return Some((acc, j + 1));
        }
        let fr = parse_frame_exec(s, j);
        match fr {
            None => {
                return None;
            },
            Some(p) => {
                let j3 = skip_ws_exec(s, p.1);
                let ghost prev = frames_of(acc);
                let ghost rv = rows_of(p.0);
                if j3 < s.len() && s[j3] == ']' {
                    acc.push(p.0);
                    proof {
                        assert(frames_of(acc) =~= prev.push(rv));
                    }
                    return Some((acc, j3 + 1));
                }
                if j3 < s.len() && s[j3] == ',' {
                    acc.push(p.0);
                    proof {
                        assert(frames_of(acc) =~= prev.push(rv));
                    }
                    pos = j3 + 1;
                    first = false;
                } else {
                    return None;
                }
            },
        }
    }
}

/// The whole sprite field, if well-formed.
fn parse_sprite_exec(t: &Vec<char>) -> (r: Option<Vec<Vec<Vec<u8>>>>)
    ensures
        match r {
            None => spec_parse_sprite(t@) is None,
            Some(fs) => spec_parse_sprite(t@) == Some(frames_of(fs)),
        },
{
    let j = skip_ws_exec(t, 0);
    if !(j < t.len()) {
        return None;
    }
    if t[j] != '[' {
        return None;
    }
    match parse_frames_items_exec(t, j + 1) {
        None => None,
        Some(p) => {
            let j3 = skip_ws_exec(t, p.1);
            if j3 == t.len() {
                Some(p.0)
            } else {
                None
            }
        },
    }
}

/// Characters of the frame-count key.
fn key_frame_count_chars() -> (v: Vec<char>)
    ensures
        v@ == key_frame_count(),
{
    let v = vec!['f', 'r', 'a', 'm', 'e', '_', 'c', 'o', 'u', 'n', 't'];
    proof {
        assert(v@ =~= key_frame_count());
    }
    v
}

/// Characters of the width key.
fn key_width_chars() -> (v: Vec<char>)
    ensures
        v@ == key_width(),
{
    let v = vec!['w', 'i', 'd', 't', 'h'];
    proof {
        assert(v@ =~= key_width());
    }
    v
}

/// Characters of the height key.
fn key_height_chars() -> (v: Vec<char>)
    ensures
        v@ == key_height(),
{
    let v = vec!['h', 'e', 'i', 'g', 'h', 't'];
    proof {
        assert(v@ =~= key_height());
    }
    v
}

/// Characters of the sprite-data key.
fn key_sprite_chars() -> (v: Vec<char>)
    ensures
        v@ == key_sprite(),
{
    let v = vec!['s', 'p', 'r', 'i', 't', 'e'];
    proof {
        assert(v@ =~= key_sprite());
    }
    v
}

/// Whether two character vectors hold the same characters.
fn chars_eq(a: &Vec<char>, b: &Vec<char>) -> (r: bool)
    ensures
        r == (a@ == b@),
{
    if a.len() != b.len() {
        return false;
    }
    let mut i: usize = 0;
    while i < a.len()
        invariant
            a@.len() == b@.len(),
            0 <= i <= a@.len(),
            forall|k: int| 0 <= k < i ==> a@[k] == b@[k],
        decreases a@.len() - i,
    {
        if a[i] != b[i] {
            assert(a@[i as int] != b@[i as int]);
            return false;
        }
        i += 1;
    }
    proof {
        assert(a@ =~= b@);
    }
    true
}

/// Fields gathered by the executable parser; numeric values saturate at
/// 0x10000 once they can no longer fit a dimension.
struct RawFields {
    frame_count: Option<u32>,
    width: Option<u32>,
    height: Option<u32>,
    sprite: Option<Vec<char>>,
}

/// One parsed numeric field agrees with its mathematical counterpart up to
/// the saturation bound.
pub open spec fn num_slot_ok(g: Option<int>, e: Option<u32>) -> bool {
    match g {
        None => e is None,
        Some(gv) => {
            &&& e is Some
            &&& 0 <= gv
            &&& (gv <= 0xFFFF ==> e->0 == gv)
            &&& (gv > 0xFFFF ==> e->0 > 0xFFFF)
        },
    }
}

/// The gathered fields agree with their mathematical counterparts.
spec fn fields_ok(g: DocFields, e: RawFields) -> bool {
    &&& num_slot_ok(g.frame_count, e.frame_count)
    &&& num_slot_ok(g.width, e.width)
    &&& num_slot_ok(g.height, e.height)
    &&& match g.sprite {
        None => e.sprite is None,
        Some(t) => e.sprite is Some && e.sprite->0@ == t,
    }
}

/// One `"key": value` member starting exactly at the key's quote, folded
/// onto the gathered fields.
fn parse_member_exec(s: &Vec<char>, i: usize, fields: RawFields, Ghost(gf): Ghost<DocFields>) -> (r:
    Option<(RawFields, usize)>)
    requires
        i <= s@.len(),
        fields_ok(gf, fields),
    ensures
        match r {
            None => parse_member(s@, i as int, gf) is None,
            Some(p) => {
                &&& parse_member(s@, i as int, gf) is Some
                &&& fields_ok(parse_member(s@, i as int, gf)->Some_0.0, p.0)
                &&& p.1 as int == parse_member(s@, i as int, gf)->Some_0.1
                &&& i < p.1 <= s@.len()
            },
        },
{
    let key = match parse_string_exec(s, i) {
        None => {
            return None;
        },
        Some(p) => p,
    };
    let j2 = skip_ws_exec(s, key.1);
    if !(j2 < s.len() && s[j2] == ':') {
        return None;
    }
    let j3 = skip_ws_exec(s, j2 + 1);
    let is_fc = chars_eq(&key.0, &key_frame_count_chars());
    let is_w = chars_eq(&key.0, &key_width_chars());
    let is_h = chars_eq(&key.0, &key_height_chars());
    let is_sp = chars_eq(&key.0, &key_sprite_chars());
    if j3 < s.len() && is_digit_char(s[j3]) {
        let vj = parse_uint_exec(s, j3);
        let mut out = fields;
        let ghost gval = FieldVal::Num(parse_digits(s@, j3 as int, 0).0);
        if is_fc {
            out.frame_count = Some(vj.0);
        } else if is_w {
            out.width = Some(vj.0);
        } else if is_h {
            out.height = Some(vj.0);
        } else if is_sp {
            out.sprite = Some(Vec::new());
        }
        proof {
            assert(fields_ok(set_field(gf, key.0@, gval), out));
        }
        Some((out, vj.1))
    } else if j3 < s.len() && s[j3] == '"' {
        let tv = match parse_string_exec(s, j3) {
            None => {
                return None;
            },
            Some(p) => p,
        };
        let mut out = fields;
        let ghost gval = FieldVal::Txt(tv.0@);
        if is_fc {
            out.frame_count = Some(0);
        } else if is_w {
            out.width = Some(0);
        } else if is_h {
            out.height = Some(0);
        } else if is_sp {
            out.sprite = Some(tv.0);
        }
        proof {
            assert(fields_ok(set_field(gf, key.0@, gval), out));
        }
        Some((out, tv.1))
    } else {
        None
    }
}

/// The members of the document object from after the opening brace, if
/// well-formed.
fn parse_members_exec(s: &Vec<char>, start: usize) -> (r: Option<(RawFields, usize)>)
    requires
        start <= s@.len(),
    ensures
        match r {
            None => parse_members(s@, start as int, empty_doc_fields(), true) is None,
            Some(p) => {
                &&& parse_members(s@, start as int, empty_doc_fields(), true) is Some
                &&& fields_ok(
                    parse_members(s@, start as int, empty_doc_fields(), true)->Some_0.0,
                    p.0,
                )
                &&& p.1 as int == parse_members(s@, start as int, empty_doc_fields(), true)->Some_0.1
                &&& start <= p.1 <= s@.len()
            },
        },
{
    let mut fields = RawFields { frame_count: None, width: None, height: None, sprite: None };
    let ghost mut gf = empty_doc_fields();
    let mut pos: usize = start;
    let mut first: bool = true;
    loop
        invariant
            start <= pos <= s@.len(),
            fields_ok(gf, fields),
            parse_members(s@, start as int, empty_doc_fields(), true) == parse_members(
                s@,
                pos as int,
                gf,
                first,
            ),
        decreases s@.len() - pos,
    {
        let j = skip_ws_exec(s, pos);
        if j < s.len() && s[j] == '}' && first {
            return Some((fields, j + 1));
        }
        let stepped = parse_member_exec(s, j, fields, Ghost(gf));
        match stepped {
            None => {
                return None;
            },
            Some(p) => {
                proof {
                    lemma_parse_member_pos(s@, j as int, gf);
                    gf = parse_member(s@, j as int, gf)->Some_0.0;
                }
                fields = p.0;
                let j3 = skip_ws_exec(s, p.1);
                if j3 < s.len() && s[j3] == '}' {
                    return Some((fields, j3 + 1));
                }
                if j3 < s.len() && s[j3] == ',' {
                    pos = j3 + 1;
                    first = false;
                } else {
                    return None;
                }
            },
        }
    }
}

/// The whole document, if it is a well-formed field object.
fn parse_doc_exec(s: &Vec<char>) -> (r: Option<RawFields>)
    ensures
        match r {
            None => spec_parse_doc(s@) is None,
            Some(f) => {
                &&& spec_parse_doc(s@) is Some
                &&& fields_ok(spec_parse_doc(s@)->Some_0, f)
            },
        },
{
    let j = skip_ws_exec(s, 0);
    if !(j < s.len()) {
        return None;
    }
    if s[j] != '{' {
        return None;
    }
    match parse_members_exec(s, j + 1) {
        None => None,
        Some(p) => {
            let j3 = skip_ws_exec(s, p.1);
            if j3 == s.len() {
                Some(p.0)
            } else {
                None
            }
        },
    }
}

/// Raw parsed codes as stored cells, with the lossy coercion applied.
fn codes_to_cells(raw: &Vec<Vec<Vec<u8>>>) -> (d: SpriteFrames)
    ensures
        d@ == coerce_frames(frames_of(*raw)),
        frames_representable(d@),
{
    let mut frames: Vec<Vec<Vec<Cell>>> = Vec::new();
    let mut i: usize = 0;
    while i < raw.len()
        invariant
            0 <= i <= raw@.len(),
            frames@.len() == i,
            forall|a: int|
                0 <= a < i ==> crate::sprite_format::frame_view(#[trigger] frames@[a])
                    == coerce_frames(frames_of(*raw))[a],
        decreases raw@.len() - i,
    {
        let rawf = &raw[i];
        let mut frame: Vec<Vec<Cell>> = Vec::new();
        let mut j: usize = 0;
        while j < rawf.len()
            invariant
                rows_of(*rawf) == frames_of(*raw)[i as int],
                0 <= i < raw@.len(),
                0 <= j <= rawf@.len(),
                frame@.len() == j,
                forall|b: int|
                    0 <= b < j ==> crate::sprite_format::row_view(#[trigger] frame@[b])
                        == coerce_frames(frames_of(*raw))[i as int][b],
            decreases rawf@.len() - j,
        {
            let rawr = &rawf[j];
            let mut row: Vec<Cell> = Vec::new();
            let mut x: usize = 0;
            while x < rawr.len()
                invariant
                    rawr@ == frames_of(*raw)[i as int][j as int],
                    0 <= i < raw@.len(),
                    0 <= j < frames_of(*raw)[i as int].len(),
                    0 <= x <= rawr@.len(),
                    row@.len() == x,
                    forall|c: int|
                        0 <= c < x ==> (#[trigger] row@[c])@ == coerce_code(rawr@[c]),
                decreases rawr@.len() - x,
            {
                row.push(Cell::from_code(rawr[x]));
                x += 1;
            }
            proof {
                assert(crate::sprite_format::row_view(row) =~= coerce_frames(frames_of(*raw))[i as int][j as int]);
            }
            frame.push(row);
            j += 1;
        }
        proof {
            assert(crate::sprite_format::frame_view(frame) =~= coerce_frames(frames_of(*raw))[i as int]);
        }
        frames.push(frame);
        i += 1;
    }
    let d = SpriteFrames { frames };
    proof {
        assert(d@ =~= coerce_frames(frames_of(*raw)));
        assert forall|a: int, b: int, c: int|
            0 <= a < d@.len() && 0 <= b < d@[a].len() && 0 <= c < d@[a][b].len() implies #[trigger] d@[a][b][c] < 128 by {
            let rf = frames_of(*raw);
            assert(d@[a] == rf[a].map_values(|r: Seq<u8>| r.map_values(|v: u8| coerce_code(v))));
            assert(d@[a][b] == rf[a][b].map_values(|v: u8| coerce_code(v)));
            assert(d@[a][b][c] == coerce_code(rf[a][b][c]));
        }
    }
    d
}

/// Decode a persisted document into a fresh store.
///
/// Succeeds exactly on well-formed documents carrying all four required
/// fields and a well-formed sprite field; the resulting store carries the
/// decoded dimensions, every cell coerced into the representable range,
/// and the current index reset to the first frame.
pub fn decode(doc: &str) -> (r: Result<Sprite, DecodeError>)
    ensures
        match r {
            Ok(sp) => spec_decode(doc@) == Ok::<StoreView, DecodeError>(sp@) && sp@.wf(),
            Err(e) => spec_decode(doc@) == Err::<StoreView, DecodeError>(e),
        },
{
    let chars = str_to_chars(doc);
    let fields = match parse_doc_exec(&chars) {
        None => {
            return Err(DecodeError::DocumentSyntax);
        },
        Some(f) => f,
    };
    let hslot = match fields.height {
        None => {
            return Err(DecodeError::MissingField(FieldName::Height));
        },
        Some(v) => v,
    };
    let wslot = match fields.width {
        None => {
            return Err(DecodeError::MissingField(FieldName::Width));
        },
        Some(v) => v,
    };
    match fields.frame_count {
        None => {
            return Err(DecodeError::MissingField(FieldName::FrameCount));
        },
        Some(_) => {},
    };
    let sprite_chars = match fields.sprite {
        None => {
            return Err(DecodeError::MissingField(FieldName::SpriteData));
        },
        Some(t) => t,
    };
    let raw = match parse_sprite_exec(&sprite_chars) {
        None => {
            return Err(DecodeError::SpriteSyntax);
        },
        Some(fs) => fs,
    };
    if raw.len() > 0xFFFF {
        return Err(DecodeError::SpriteSyntax);
    }
    let wdim: u16 = if wslot <= 0xFFFF {
        wslot as u16
    } else {
        0
    };
    let hdim: u16 = if hslot <= 0xFFFF {
        hslot as u16
    } else {
        0
    };
    proof {
        let gf = spec_parse_doc(doc@)->Some_0;
        assert(wdim == coerce_dim(gf.width.unwrap()));
        assert(hdim == coerce_dim(gf.height.unwrap()));
    }
    let mut width = IntInput::new();
    width.set_value(wdim);
    let mut height = IntInput::new();
    height.set_value(hdim);
    let data = codes_to_cells(&raw);
    let frame_total = data.frames.len();
    let ind: Option<u16> = if frame_total > 0 {
        Some(0)
    } else {
        None
    };
    let sp = Sprite { height, width, data, ind };
    proof {
        crate::numerals::lemma_parse_of_dec_repr(wdim as nat);
        crate::numerals::lemma_parse_of_dec_repr(hdim as nat);
        assert(spec_decode(doc@) == Ok::<StoreView, DecodeError>(sp@));
        assert(sp@.wf());
    }
    Ok(sp)
}

// ---------------------------------------------------------------------------
// The executable encoder.
// ---------------------------------------------------------------------------

/// Joining one more part appends a comma separator except at the front.
pub proof fn lemma_join_snoc(parts: Seq<Seq<char>>, i: int)
    requires
        0 <= i < parts.len(),
    ensures
        join_comma(parts.take(i + 1)) == join_comma(parts.take(i)) + (if i == 0 {
            parts[0]
        } else {
            seq![','] + parts[i]
        }),
    decreases i,
{
    if i == 0 {
        assert(parts.take(1) =~= seq![parts[0]]);
        assert(join_comma(seq![parts[0]]) == parts[0]);
        assert(parts.take(0) =~= Seq::<Seq<char>>::empty());
        assert(join_comma(Seq::<Seq<char>>::empty()) + parts[0] =~= parts[0]);
    } else {
        let sub = parts.skip(1);
        lemma_join_snoc(sub, i - 1);
        let t1 = parts.take(i + 1);
        let t0 = parts.take(i);
        assert(t1.len() == i + 1);
        assert(t1[0] == parts[0]);
        assert(t1.skip(1) =~= sub.take(i));
        assert(join_comma(t1) == parts[0] + seq![','] + join_comma(sub.take(i)));
        if i == 1 {
            assert(t0 =~= seq![parts[0]]);
            assert(join_comma(t0) == parts[0]);
            assert(sub.take(1) =~= seq![sub[0]]);
            assert(join_comma(sub.take(1)) == sub[0]);
            assert(sub[0] == parts[1]);
            assert(parts[0] + seq![','] + parts[1] =~= join_comma(t0) + (seq![','] + parts[1]));
        } else {
            assert(t0[0] == parts[0]);
            assert(t0.skip(1) =~= sub.take(i - 1));
            assert(join_comma(t0) == parts[0] + seq![','] + join_comma(sub.take(i - 1)));
            assert(sub[i - 1] == parts[i]);
            assert(join_comma(sub.take(i)) == join_comma(sub.take(i - 1)) + (seq![','] + parts[i]));
            assert(parts[0] + seq![','] + (join_comma(sub.take(i - 1)) + (seq![','] + parts[i]))
                =~= (parts[0] + seq![','] + join_comma(sub.take(i - 1))) + (seq![','] + parts[i]));
        }
    }
}

/// Append all characters of `src` to `dst`.
fn append_chars(dst: &mut Vec<char>, src: &Vec<char>)
    ensures
        final(dst)@ == old(dst)@ + src@,
{
    let mut k: usize = 0;
    while k < src.len()
        invariant
            0 <= k <= src@.len(),
            dst@ == old(dst)@ + src@.take(k as int),
        decreases src@.len() - k,
    {
        dst.push(src[k]);
        assert(dst@ =~= old(dst)@ + src@.take(k as int + 1));
        k += 1;
    }
    assert(old(dst)@ + src@.take(src@.len() as int) =~= old(dst)@ + src@);
}

/// Printed form of one row of cells.
fn row_text_exec(r: &Vec<Cell>) -> (t: Vec<char>)
    ensures
        t@ == row_text(crate::sprite_format::row_view(*r)),
{
    let ghost rv = crate::sprite_format::row_view(*r);
    let mut t: Vec<char> = Vec::new();
    t.push('[');
    proof {
        assert(dec_parts(rv).take(0) =~= Seq::<Seq<char>>::empty());
        assert(t@ =~= seq!['['] + join_comma(dec_parts(rv).take(0)));
    }
    let mut idx: usize = 0;
    while idx < r.len()
        invariant
            rv == crate::sprite_format::row_view(*r),
            0 <= idx <= r@.len(),
            rv.len() == r@.len(),
            t@ == seq!['['] + join_comma(dec_parts(rv).take(idx as int)),
        decreases r@.len() - idx,
    {
        if idx > 0 {
            t.push(',');
        }
        let c = r[idx].code();
        let d = crate::numerals::to_dec_chars(c as u16);
        append_chars(&mut t, &d);
        proof {
            lemma_join_snoc(dec_parts(rv), idx as int);
            assert(rv[idx as int] == c);
            assert(dec_parts(rv)[idx as int] == dec_repr(c as nat));
            assert(t@ =~= seq!['['] + join_comma(dec_parts(rv).take(idx as int + 1)));
        }
        idx += 1;
    }
    proof {
        assert(dec_parts(rv).take(rv.len() as int) =~= dec_parts(rv));
    }
    t.push(']');
    proof {
        assert(t@ =~= row_text(rv));
    }
    t
}

/// Printed form of one frame.
fn frame_text_exec(f: &Vec<Vec<Cell>>) -> (t: Vec<char>)
    ensures
        t@ == frame_text(crate::sprite_format::frame_view(*f)),
{
    let ghost fv = crate::sprite_format::frame_view(*f);
    let mut t: Vec<char> = Vec::new();
    t.push('[');
    proof {
        assert(row_parts(fv).take(0) =~= Seq::<Seq<char>>::empty());
        assert(t@ =~= seq!['['] + join_comma(row_parts(fv).take(0)));
    }
    let mut idx: usize = 0;
    while idx < f.len()
        invariant
            fv == crate::sprite_format::frame_view(*f),
            0 <= idx <= f@.len(),
            fv.len() == f@.len(),
            t@ == seq!['['] + join_comma(row_parts(fv).take(idx as int)),
        decreases f@.len() - idx,
    {
        if idx > 0 {
            t.push(',');
        }
        let d = row_text_exec(&f[idx]);
        append_chars(&mut t, &d);
        proof {
            lemma_join_snoc(row_parts(fv), idx as int);
            assert(fv[idx as int] == crate::sprite_format::row_view(f@[idx as int]));
            assert(row_parts(fv)[idx as int] == row_text(fv[idx as int]));
            assert(t@ =~= seq!['['] + join_comma(row_parts(fv).take(idx as int + 1)));
        }
        idx += 1;
    }
    proof {
        assert(row_parts(fv).take(fv.len() as int) =~= row_parts(fv));
    }
    t.push(']');
    proof {
        assert(t@ =~= frame_text(fv));
    }
    t
}

/// Printed form of all frames of a sprite.
fn frames_text_exec(d: &SpriteFrames) -> (t: Vec<char>)
    ensures
        t@ == frames_text(d@),
{
    let ghost dv = d@;
    let mut t: Vec<char> = Vec::new();
    t.push('[');
    proof {
        assert(frame_parts(dv).take(0) =~= Seq::<Seq<char>>::empty());
        assert(t@ =~= seq!['['] + join_comma(frame_parts(dv).take(0)));
    }
    let mut idx: usize = 0;
    while idx < d.frames.len()
        invariant
            dv == d@,
            0 <= idx <= d.frames@.len(),
            dv.len() == d.frames@.len(),
            t@ == seq!['['] + join_comma(frame_parts(dv).take(idx as int)),
        decreases d.frames@.len() - idx,
    {
        if idx > 0 {
            t.push(',');
        }
        let ft = frame_text_exec(&d.frames[idx]);
        append_chars(&mut t, &ft);
        proof {
            lemma_join_snoc(frame_parts(dv), idx as int);
            assert(dv[idx as int] == crate::sprite_format::frame_view(d.frames@[idx as int]));
            assert(frame_parts(dv)[idx as int] == frame_text(dv[idx as int]));
            assert(t@ =~= seq!['['] + join_comma(frame_parts(dv).take(idx as int + 1)));
        }
        idx += 1;
    }
    proof {
        assert(frame_parts(dv).take(dv.len() as int) =~= frame_parts(dv));
    }
    t.push(']');
    proof {
        assert(t@ =~= frames_text(dv));
    }
    t
}

/// Encode a store as its canonical persisted document.
pub fn encode(sp: &Sprite) -> (r: String)
    requires
        sp@.wf(),
    ensures
        r@ == spec_encode(sp@),
{
    let mut t: Vec<char> = Vec::new();
    t.push('{');
    t.push('"');
    let kfc = key_frame_count_chars();
    append_chars(&mut t, &kfc);
    t.push('"');
    t.push(':');
    let n = sp.get_frame_count();
    let dn = crate::numerals::to_dec_chars(n as u16);
    append_chars(&mut t, &dn);
    t.push(',');
    t.push('"');
    let kw = key_width_chars();
    append_chars(&mut t, &kw);
    t.push('"');
    t.push(':');
    let dw = crate::numerals::to_dec_chars(sp.width.value());
    append_chars(&mut t, &dw);
    t.push(',');
    t.push('"');
    let kh = key_height_chars();
    append_chars(&mut t, &kh);
    t.push('"');
    t.push(':');
    let dh = crate::numerals::to_dec_chars(sp.height.value());
    append_chars(&mut t, &dh);
    t.push(',');
    t.push('"');
    let ks = key_sprite_chars();
    append_chars(&mut t, &ks);
    t.push('"');
    t.push(':');
    t.push('"');
    let ft = frames_text_exec(&sp.data);
    append_chars(&mut t, &ft);
    t.push('"');
    t.push('}');
    proof {
        assert((n as u16) as nat == sp@.frames.len() as nat);
        assert(t@ =~= spec_encode(sp@));
    }
    crate::text::chars_to_string(&t)
}

} // verus!
