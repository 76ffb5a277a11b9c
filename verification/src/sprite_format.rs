//! The sprite data model: character cells, the numeric and free-form text
//! input buffers, and the frame store with its bounded current index.

use vstd::prelude::*;
use crate::numerals::{digits_of, filter_digits, parse_or_zero, parse_u16_or_zero};
use crate::text::{chars_to_string, remove_chars, splice_chars, str_to_chars};

verus! {

/// Coercion applied to a stored character code: codes outside the
/// representable 7-bit range silently become a space (code 32).
pub open spec fn coerce_code(b: u8) -> u8 {
    if b < 128 {
        b
    } else {
        32
    }
}

/// Coercion applied to an incoming character: anything outside the
/// representable 7-bit range silently becomes a space (code 32).
pub open spec fn coerce_char(c: char) -> u8 {
    if 0 <= c as int && (c as int) < 128 {
        (c as int) as u8
    } else {
        32
    }
}

/// One character position of a frame, stored as its character code.
///
/// Construction is lossy: characters outside the representable range are
/// coerced to a space, so a cell always holds a 7-bit code.
#[derive(Clone, Copy, Debug, PartialEq, Eq, Structural)]
pub struct Cell {
    code: u8,
}

impl View for Cell {
    type V = u8;

    closed spec fn view(&self) -> u8 {
        self.code
    }
}

impl Cell {
    /// A cell never holds a code outside the representable range.
    pub open spec fn wf(self) -> bool {
        self@ < 128
    }

    /// Build a cell from a character, coercing unrepresentable ones to space.
    pub fn from_char(c: char) -> (r: Cell)
        ensures
            r@ == coerce_char(c),
            r.wf(),
    {
        if c <= '\u{007f}' {
            Cell { code: c as u8 }
        } else {
            Cell { code: 32 }
        }
    }

    /// Build a cell from a raw code, coercing unrepresentable ones to space.
    pub fn from_code(b: u8) -> (r: Cell)
        ensures
            r@ == coerce_code(b),
            r.wf(),
    {
        if b < 128 {
            Cell { code: b }
        } else {
            Cell { code: 32 }
        }
    }

    /// The stored character code.
    pub fn code(&self) -> (b: u8)
        ensures
            b == self@,
    {
        self.code
    }

    /// The stored code as a character.
    pub fn to_char(&self) -> (c: char)
        requires
            self.wf(),
        ensures
            c as int == self@ as int,
    {
        self.code as char
    }
}

/// Mathematical state of a numeric input field: the cached parsed value
/// and the character content of the backing string.
pub ghost struct NumFieldView {
    pub value: u16,
    pub text: Seq<char>,
}

impl NumFieldView {
    /// The cached value is exactly what the text parses to (zero for empty
    /// or unparsable text).
    pub open spec fn wf(self) -> bool {
        self.value == parse_u16_or_zero(self.text)
    }

    /// Effect of inserting `t` at character offset `at`: only the digits of
    /// `t` go in, and the value is re-parsed from the whole new text.
    pub open spec fn insert(self, t: Seq<char>, at: int) -> NumFieldView {
        let text2 = self.text.take(at) + digits_of(t) + self.text.skip(at);
        NumFieldView { value: parse_u16_or_zero(text2), text: text2 }
    }

    /// Effect of deleting the half-open character range `[start, end)`,
    /// with both endpoints clamped to the end of the text.
    pub open spec fn delete(self, start: int, end: int) -> NumFieldView {
        let s = if start < self.text.len() { start } else { self.text.len() as int };
        let e = if end < self.text.len() { end } else { self.text.len() as int };
        let text2 = self.text.take(s) + self.text.skip(e);
        NumFieldView { value: parse_u16_or_zero(text2), text: text2 }
    }

    /// Effect of setting the value outright: the text becomes the canonical
    /// decimal rendering of the value.
    pub open spec fn with_value(self, v: u16) -> NumFieldView {
        NumFieldView { value: v, text: crate::numerals::dec_repr(v as nat) }
    }
}

/// A numeric text input buffer: filters inserted text down to its digits
/// and keeps `value` equal to what the backing string parses to.
#[derive(Debug)]
pub struct IntInput {
    value: u16,
    formatted: String,
}

impl View for IntInput {
    type V = NumFieldView;

    closed spec fn view(&self) -> NumFieldView {
        NumFieldView { value: self.value, text: self.formatted@ }
    }
}

impl IntInput {
    /// The field's invariant: cached value and text agree.
    pub open spec fn wf(self) -> bool {
        self@.wf()
    }

    /// An empty field holding zero.
    pub fn new() -> (r: IntInput)
        ensures
            r@.value == 0,
            r@.text == Seq::<char>::empty(),
            r.wf(),
    {
        IntInput { value: 0, formatted: String::new() }
    }

    /// Set the value directly; the text becomes its decimal rendering.
    pub fn set_value(&mut self, v: u16)
        ensures
            final(self)@ == old(self)@.with_value(v),
            final(self).wf(),
    {
        proof {
            crate::numerals::lemma_parse_of_dec_repr(v as nat);
        }
        let chars = crate::numerals::to_dec_chars(v);
        self.value = v;
        self.formatted = chars_to_string(&chars);
    }

    /// The current parsed value.
    pub fn value(&self) -> (v: u16)
        ensures
            v == self@.value,
    {
        self.value
    }

    /// The field can always be edited.
    pub fn is_mutable(&self) -> (r: bool)
        ensures
            r,
    {
        true
    }

    /// The backing string.
    pub fn as_str(&self) -> (r: &str)
        ensures
            r@ == self@.text,
    {
        self.formatted.as_str()
    }

    /// Insert text at a character offset: the non-digit characters are
    /// stripped first, and the whole string is then re-parsed. Returns how
    /// many characters were actually inserted.
    pub fn insert_text(&mut self, text: &str, char_index: usize) -> (count: usize)
        requires
            char_index <= old(self)@.text.len(),
        ensures
            final(self)@ == old(self)@.insert(text@, char_index as int),
            final(self).wf(),
            count == digits_of(text@).len(),
    {
        let incoming = str_to_chars(text);
        let digits = filter_digits(&incoming);
        let cur = str_to_chars(self.formatted.as_str());
        let out = splice_chars(&cur, char_index, &digits);
        self.value = parse_or_zero(&out);
        self.formatted = chars_to_string(&out);
        digits.len()
    }

    /// Delete the half-open character range `[start, end)` from the backing
    /// string (clamped to its end) and re-parse the rest.
    pub fn delete_char_range(&mut self, char_range: core::ops::Range<usize>)
        requires
            char_range.start <= char_range.end,
        ensures
            final(self)@ == old(self)@.delete(
                char_range.start as int,
                char_range.end as int,
            ),
            final(self).wf(),
    {
        let cur = str_to_chars(self.formatted.as_str());
        let s = if char_range.start < cur.len() {
            char_range.start
        } else {
            cur.len()
        };
        let e = if char_range.end < cur.len() {
            char_range.end
        } else {
            cur.len()
        };
        let out = remove_chars(&cur, s, e);
        self.value = parse_or_zero(&out);
        self.formatted = chars_to_string(&out);
    }
}

/// Text with `t` spliced in at character offset `at`, `at` clamped to the
/// end of the text.
pub open spec fn spec_insert_clamped(s: Seq<char>, t: Seq<char>, at: int) -> Seq<char> {
    let a = if at < s.len() {
        at
    } else {
        s.len() as int
    };
    s.take(a) + t + s.skip(a)
}

/// Text with the half-open character range `[start, end)` removed, both
/// endpoints clamped to the end of the text.
pub open spec fn spec_delete_clamped(s: Seq<char>, start: int, end: int) -> Seq<char> {
    let a = if start < s.len() {
        start
    } else {
        s.len() as int
    };
    let b = if end < s.len() {
        end
    } else {
        s.len() as int
    };
    s.take(a) + s.skip(b)
}

/// A free-form text buffer for per-row sprite content: inserts and deletes
/// raw text verbatim by character offset, next to the grid shape it is
/// edited under.
#[derive(Debug)]
pub struct MultilineString {
    pub width: u16,
    pub height: u16,
    pub text: String,
}

impl MultilineString {
    /// An empty buffer with no declared shape.
    pub fn new() -> (r: MultilineString)
        ensures
            r.width == 0,
            r.height == 0,
            r.text@ == Seq::<char>::empty(),
    {
        MultilineString { width: 0, height: 0, text: String::new() }
    }

    /// The buffer can always be edited.
    pub fn is_mutable(&self) -> (r: bool)
        ensures
            r,
    {
        true
    }

    /// The backing string.
    pub fn as_str(&self) -> (r: &str)
        ensures
            r@ == self.text@,
    {
        self.text.as_str()
    }

    /// Insert text verbatim at a character offset (clamped to the end).
    /// Returns the number of characters inserted.
    pub fn insert_text(&mut self, text: &str, char_index: usize) -> (count: usize)
        ensures
            final(self).width == old(self).width,
            final(self).height == old(self).height,
            final(self).text@ == spec_insert_clamped(
                old(self).text@,
                text@,
                char_index as int,
            ),
            count == text@.len(),
    {
        let cur = str_to_chars(self.text.as_str());
        let ins = str_to_chars(text);
        let at = if char_index < cur.len() {
            char_index
        } else {
            cur.len()
        };
        let out = splice_chars(&cur, at, &ins);
        self.text = chars_to_string(&out);
        ins.len()
    }

    /// Delete the half-open character range `[start, end)` (clamped to the
    /// end of the text).
    pub fn delete_char_range(&mut self, char_range: core::ops::Range<usize>)
        requires
            char_range.start <= char_range.end,
        ensures
            final(self).width == old(self).width,
            final(self).height == old(self).height,
            final(self).text@ == spec_delete_clamped(
                old(self).text@,
                char_range.start as int,
                char_range.end as int,
            ),
    {
        let cur = str_to_chars(self.text.as_str());
        let s = if char_range.start < cur.len() {
            char_range.start
        } else {
            cur.len()
        };
        let e = if char_range.end < cur.len() {
            char_range.end
        } else {
            cur.len()
        };
        let out = remove_chars(&cur, s, e);
        self.text = chars_to_string(&out);
    }
}

/// Inserting any text into a numeric field and then deleting exactly the
/// inserted (post-filter) character range restores the prior text and the
/// prior value.
pub proof fn lemma_insert_then_delete(v: NumFieldView, t: Seq<char>, at: int)
    requires
        v.wf(),
        0 <= at <= v.text.len(),
    ensures
        v.insert(t, at).delete(at, at + digits_of(t).len()) == v,
{
    let d = digits_of(t);
    let v1 = v.insert(t, at);
    let v2 = v1.delete(at, at + d.len());
    assert(v1.text.take(at) =~= v.text.take(at));
    assert(v1.text.skip(at + d.len()) =~= v.text.skip(at));
    assert(v2.text =~= v.text);
    assert(v2.value == v.value);
}

/// Codes of one row of cells.
pub open spec fn row_view(r: Vec<Cell>) -> Seq<u8> {
    r@.map_values(|c: Cell| c@)
}

/// Codes of one frame, row by row.
pub open spec fn frame_view(f: Vec<Vec<Cell>>) -> Seq<Seq<u8>> {
    f@.map_values(|r: Vec<Cell>| row_view(r))
}

/// Character content of a vector of strings.
pub open spec fn strs_view(v: Vec<String>) -> Seq<Seq<char>> {
    v@.map_values(|s: String| s@)
}

/// A row of text as the cell codes it commits to: one coerced code per
/// character.
pub open spec fn chars_to_codes(s: Seq<char>) -> Seq<u8> {
    s.map_values(|c: char| coerce_char(c))
}

/// Rows of text as the frame they commit to.
pub open spec fn rows_to_frame(rows: Seq<Seq<char>>) -> Seq<Seq<u8>> {
    rows.map_values(|r: Seq<char>| chars_to_codes(r))
}

/// Every stored cell code lies in the representable range.
pub open spec fn frames_representable(frames: Seq<Seq<Seq<u8>>>) -> bool {
    forall|i: int, j: int, k: int|
        0 <= i < frames.len() && 0 <= j < frames[i].len() && 0 <= k < frames[i][j].len()
            ==> #[trigger] frames[i][j][k] < 128
}

/// The ordered frames of a sprite.
#[derive(Debug)]
pub struct SpriteFrames {
    pub frames: Vec<Vec<Vec<Cell>>>,
}

impl View for SpriteFrames {
    type V = Seq<Seq<Seq<u8>>>;

    open spec fn view(&self) -> Seq<Seq<Seq<u8>>> {
        self.frames@.map_values(|f: Vec<Vec<Cell>>| frame_view(f))
    }
}

impl SpriteFrames {
    /// No frames at all.
    pub fn new() -> (r: SpriteFrames)
        ensures
            r@ == Seq::<Seq<Seq<u8>>>::empty(),
    {
        let r = SpriteFrames { frames: Vec::new() };
        proof {
            assert(r@ =~= Seq::<Seq<Seq<u8>>>::empty());
        }
        r
    }
}

/// Failure of a navigation request.
#[derive(Debug, PartialEq, Eq, Structural)]
pub enum IndexMoveError {
    /// The requested frame index was not within `0..frame_count`.
    IndexOutOfBounds(u16),
}

/// Mathematical state of a sprite frame store.
pub ghost struct StoreView {
    pub width: NumFieldView,
    pub height: NumFieldView,
    pub frames: Seq<Seq<Seq<u8>>>,
    pub ind: Option<u16>,
}

impl StoreView {
    /// Store invariant: the dimension fields agree with their text, the
    /// current index exists exactly when there are frames and always lies
    /// within them, the frame count fits the index type, and every cell is
    /// representable.
    pub open spec fn wf(self) -> bool {
        &&& self.width.wf()
        &&& self.height.wf()
        &&& (self.ind is None <==> self.frames.len() == 0)
        &&& (self.ind is Some ==> (self.ind->0 as int) < self.frames.len())
        &&& self.frames.len() <= 0xFFFF
        &&& frames_representable(self.frames)
    }

    /// Effect of `add_frame`: one empty frame appended; the index becomes 0
    /// when there was none and advances by one otherwise.
    pub open spec fn push_empty_frame(self) -> StoreView {
        StoreView {
            frames: self.frames.push(Seq::empty()),
            ind: match self.ind {
                None => Some(0u16),
                Some(k) => Some((k + 1) as u16),
            },
            ..self
        }
    }

    /// State after a `move_ind` request: the index is set iff the target is
    /// in bounds, and nothing else ever changes.
    pub open spec fn move_dest(self, t: u16) -> StoreView {
        if (t as int) < self.frames.len() {
            StoreView { ind: Some(t), ..self }
        } else {
            self
        }
    }

    /// Outcome of a `move_ind` request: success iff the target is in bounds.
    pub open spec fn move_result(self, t: u16) -> Result<(), IndexMoveError> {
        if (t as int) < self.frames.len() {
            Ok(())
        } else {
            Err(IndexMoveError::IndexOutOfBounds(t))
        }
    }

    /// Effect of committing rows of text as the current frame: an in-place
    /// replacement of that frame, and a no-op without a valid index.
    pub open spec fn replace_frame(self, rows: Seq<Seq<char>>) -> StoreView {
        if self.ind is Some && (self.ind->0 as int) < self.frames.len() {
            StoreView { frames: self.frames.update(self.ind->0 as int, rows_to_frame(rows)), ..self }
        } else {
            self
        }
    }
}

/// Appending an empty frame preserves the store invariant and moves the
/// index to the new last position exactly when it was at the old one.
pub proof fn lemma_push_empty_frame(v: StoreView)
    requires
        v.wf(),
        v.frames.len() < 0xFFFF,
    ensures
        v.push_empty_frame().wf(),
        v.push_empty_frame().frames.len() == v.frames.len() + 1,
        v.push_empty_frame().ind == Some(
            (match v.ind {
                None => 0,
                Some(k) => k + 1,
            }) as u16,
        ),
        v.push_empty_frame().width == v.width,
        v.push_empty_frame().height == v.height,
{
    let w = v.push_empty_frame();
    assert(frames_representable(w.frames)) by {
        assert forall|i: int, j: int, k: int|
            0 <= i < w.frames.len() && 0 <= j < w.frames[i].len() && 0 <= k
                < w.frames[i][j].len() implies #[trigger] w.frames[i][j][k] < 128 by {
            if i < v.frames.len() {
                assert(w.frames[i] == v.frames[i]);
            } else {
                assert(w.frames[i] == Seq::<Seq<u8>>::empty());
            }
        }
    }
}

/// The sprite frame store: the two dimension fields, the ordered frames,
/// and the current frame index, `None` exactly while there are no frames.
#[derive(Debug)]
pub struct Sprite {
    pub height: IntInput,
    pub width: IntInput,
    pub data: SpriteFrames,
    pub ind: Option<u16>,
}

impl View for Sprite {
    type V = StoreView;

    open spec fn view(&self) -> StoreView {
        StoreView { width: self.width@, height: self.height@, frames: self.data@, ind: self.ind }
    }
}

impl Sprite {
    /// A fresh store: zero dimensions, no frames, no index.
    pub fn new() -> (r: Sprite)
        ensures
            r@ == empty_store_view(),
            r@.wf(),
    {
        let r = Sprite {
            height: IntInput::new(),
            width: IntInput::new(),
            data: SpriteFrames::new(),
            ind: None,
        };
        proof {
            assert(r@.frames =~= empty_store_view().frames);
        }
        r
    }

    /// Append an empty frame; the index comes to point one past where it
    /// was (the new frame, whenever it was at the last one).
    pub fn add_frame(&mut self)
        requires
            old(self)@.wf(),
            old(self)@.frames.len() < 0xFFFF,
        ensures
            final(self)@ == old(self)@.push_empty_frame(),
            final(self)@.wf(),
    {
        let empty_frame: Vec<Vec<Cell>> = Vec::new();
        proof {
            assert(frame_view(empty_frame) =~= Seq::<Seq<u8>>::empty());
        }
        let ghost fv = frame_view(empty_frame);
        self.data.frames.push(empty_frame);
        match self.ind {
            None => {
                self.ind = Some(0);
            },
            Some(ok) => {
                proof {
                    assert((ok as int) < old(self)@.frames.len());
                }
                self.ind = Some(ok + 1);
            },
        }
        proof {
            assert(self.data@ =~= old(self)@.frames.push(fv));
            lemma_push_empty_frame(old(self)@);
        }
    }

    /// Number of frames.
    pub fn get_frame_count(&self) -> (n: usize)
        ensures
            n == self@.frames.len(),
    {
        self.data.frames.len()
    }

    /// Move the current index to `ind`: succeeds iff `ind` is within
    /// `0..frame_count`, and on failure nothing changes at all.
    pub fn move_ind(&mut self, ind: u16) -> (r: Result<(), IndexMoveError>)
        ensures
            final(self)@ == old(self)@.move_dest(ind),
            r == old(self)@.move_result(ind),
            old(self)@.wf() ==> final(self)@.wf(),
    {
        if (ind as usize) < self.data.frames.len() {
            self.ind = Some(ind);
            Ok(())
        } else {
            Err(IndexMoveError::IndexOutOfBounds(ind))
        }
    }
}

/// Cell codes of a row, as the characters they display as.
pub open spec fn codes_to_chars(r: Seq<u8>) -> Seq<char> {
    r.map_values(|b: u8| b as char)
}

/// Rows of text shown for the current frame: the frame's own rows once it
/// has been written, else `height` empty rows for a still-empty frame.
pub open spec fn spec_current_rows(v: StoreView) -> Seq<Seq<char>>
    recommends
        v.ind is Some,
{
    let frame = v.frames[v.ind->0 as int];
    if frame.len() == 0 {
        Seq::new(v.height.value as nat, |i: int| Seq::<char>::empty())
    } else {
        frame.map_values(|r: Seq<u8>| codes_to_chars(r))
    }
}

/// Convert rows of text into a frame of cells, one cell per character.
fn rows_to_cells(rows: &Vec<String>) -> (f: Vec<Vec<Cell>>)
    ensures
        frame_view(f) == rows_to_frame(strs_view(*rows)),
{
    let mut f: Vec<Vec<Cell>> = Vec::new();
    let mut i: usize = 0;
    while i < rows.len()
        invariant
            0 <= i <= rows@.len(),
            f@.len() == i,
            forall|x: int|
                0 <= x < i ==> row_view(#[trigger] f@[x]) == rows_to_frame(strs_view(*rows))[x],
        decreases rows@.len() - i,
    {
        let chars = str_to_chars(rows[i].as_str());
        let mut hor: Vec<Cell> = Vec::new();
        let mut j: usize = 0;
        while j < chars.len()
            invariant
                0 <= j <= chars@.len(),
                hor@.len() == j,
                forall|y: int| 0 <= y < j ==> (#[trigger] hor@[y])@ == coerce_char(chars@[y]),
            decreases chars@.len() - j,
        {
            hor.push(Cell::from_char(chars[j]));
            j += 1;
        }
        proof {
            assert(row_view(hor) =~= chars_to_codes(chars@));
            assert(chars@ == strs_view(*rows)[i as int]);
        }
        let ghost prevf = f@;
        let ghost rv = row_view(hor);
        f.push(hor);
        i += 1;
        proof {
            assert forall|x: int| 0 <= x < i implies row_view(#[trigger] f@[x])
                == rows_to_frame(strs_view(*rows))[x] by {
                if x < i - 1 {
                    assert(f@[x] == prevf[x]);
                } else {
                    assert(row_view(f@[x]) == rv);
                }
            }
        }
    }
    proof {
        assert forall|x: int| 0 <= x < f@.len() implies #[trigger] frame_view(f)[x]
            == rows_to_frame(strs_view(*rows))[x] by {
            assert(frame_view(f)[x] == row_view(f@[x]));
        }
        assert(frame_view(f) =~= rows_to_frame(strs_view(*rows)));
    }
    f
}

impl Sprite {
    /// Commit rows of text as the current frame, one cell per character
    /// with the usual lossy coercion; a silent no-op when there is no valid
    /// current index.
    pub fn replace_current_frame(&mut self, rows: &Vec<String>)
        ensures
            final(self)@ == old(self)@.replace_frame(strs_view(*rows)),
            old(self)@.wf() ==> final(self)@.wf(),
    {
        match self.ind {
            None => {},
            Some(k) => {
                if (k as usize) < self.data.frames.len() {
                    let frame = rows_to_cells(rows);
                    let ghost fv = frame_view(frame);
                    self.data.frames.set(k as usize, frame);
                    proof {
                        assert(self.data@ =~= old(self)@.frames.update(k as int, fv));
                        if old(self)@.wf() {
                            let w = self@;
                            assert(frames_representable(w.frames)) by {
                                assert forall|i: int, j: int, x: int|
                                    0 <= i < w.frames.len() && 0 <= j < w.frames[i].len() && 0 <= x
                                        < w.frames[i][j].len() implies #[trigger] w.frames[i][j][x]
                                    < 128 by {
                                    if i == k as int {
                                        assert(w.frames[i] == fv);
                                        assert(fv == rows_to_frame(strs_view(*rows)));
                                        let rowseq = strs_view(*rows)[j];
                                        assert(fv[j] == chars_to_codes(rowseq));
                                        assert(fv[j][x] == coerce_char(rowseq[x]));
                                        assert(coerce_char(rowseq[x]) < 128);
                                    } else {
                                        assert(w.frames[i] == old(self)@.frames[i]);
                                        assert(old(self)@.frames[i][j][x] < 128);
                                    }
                                }
                            }
                        }
                    }
                }
            },
        }
    }

    /// The current frame as one text string per row: the frame's own rows
    /// once written, else `height` empty rows for a still-empty frame.
    pub fn current_frame_rows(&self) -> (rows: Vec<String>)
        requires
            self@.wf(),
            self@.ind is Some,
        ensures
            strs_view(rows) == spec_current_rows(self@),
    {
        let k = self.ind.unwrap();
        let frame = &self.data.frames[k as usize];
        proof {
            assert(frame_view(*frame) == self@.frames[k as int]);
        }
        if frame.len() == 0 {
            let h = self.height.value();
            let mut rows: Vec<String> = Vec::new();
            let mut i: usize = 0;
            while i < h as usize
                invariant
                    0 <= i <= h,
                    rows@.len() == i,
                    forall|x: int| 0 <= x < i ==> (#[trigger] rows@[x])@ == Seq::<char>::empty(),
                decreases h - i,
            {
                rows.push(String::new());
                i += 1;
            }
            proof {
                assert(strs_view(rows) =~= spec_current_rows(self@));
            }
            rows
        } else {
            let mut rows: Vec<String> = Vec::new();
            let mut j: usize = 0;
            while j < frame.len()
                invariant
                    self@.wf(),
                    self@.ind is Some,
                    k == self@.ind->0,
                    frame_view(*frame) == self@.frames[k as int],
                    frame@.len() == self@.frames[k as int].len(),
                    0 <= j <= frame@.len(),
                    rows@.len() == j,
                    forall|x: int|
                        0 <= x < j ==> (#[trigger] rows@[x])@ == codes_to_chars(
                            self@.frames[k as int][x],
                        ),
                decreases frame@.len() - j,
            {
                let row = &frame[j];
                proof {
                    assert(row_view(*row) == self@.frames[k as int][j as int]);
                }
                let mut chars: Vec<char> = Vec::new();
                let mut x: usize = 0;
                while x < row.len()
                    invariant
                        self@.wf(),
                        self@.ind is Some,
                        k == self@.ind->0,
                        (k as int) < self@.frames.len(),
                        (j as int) < self@.frames[k as int].len(),
                        row_view(*row) == self@.frames[k as int][j as int],
                        row@.len() == self@.frames[k as int][j as int].len(),
                        0 <= x <= row@.len(),
                        chars@.len() == x,
                        forall|y: int|
                            0 <= y < x ==> (#[trigger] chars@[y]) as int
                                == self@.frames[k as int][j as int][y] as int,
                    decreases row@.len() - x,
                {
                    let cell = row[x];
                    proof {
                        assert(cell@ == self@.frames[k as int][j as int][x as int]);
                        assert(self@.frames[k as int][j as int][x as int] < 128);
                    }
                    chars.push(cell.to_char());
                    x += 1;
                }
                proof {
                    assert(chars@ =~= codes_to_chars(self@.frames[k as int][j as int]));
                }
                rows.push(chars_to_string(&chars));
                j += 1;
            }
            proof {
                assert(strs_view(rows) =~= spec_current_rows(self@));
            }
            rows
        }
    }
}

/// A fresh, empty store.
pub open spec fn empty_store_view() -> StoreView {
    StoreView {
        width: NumFieldView { value: 0, text: Seq::empty() },
        height: NumFieldView { value: 0, text: Seq::empty() },
        frames: Seq::empty(),
        ind: None,
    }
}

/// The store after `n` consecutive `add_frame` steps from a fresh store.
pub open spec fn iter_add_frames(n: nat) -> StoreView
    decreases n,
{
    if n == 0 {
        empty_store_view()
    } else {
        iter_add_frames((n - 1) as nat).push_empty_frame()
    }
}

/// After any sequence of `n` `add_frame` calls on a fresh store, the frame
/// count is `n` and the current index is `n - 1` (none while `n` is zero).
pub proof fn lemma_add_frame_sequence(n: nat)
    requires
        n <= 0xFFFF,
    ensures
        iter_add_frames(n).wf(),
        iter_add_frames(n).frames.len() == n,
        n == 0 ==> iter_add_frames(n).ind is None,
        n > 0 ==> iter_add_frames(n).ind == Some((n - 1) as u16),
    decreases n,
{
    if n == 0 {
        assert(empty_store_view().wf());
    } else {
        lemma_add_frame_sequence((n - 1) as nat);
        lemma_push_empty_frame(iter_add_frames((n - 1) as nat));
    }
}

/// Saturating decrement of a candidate index.
pub open spec fn sat_dec(i: u16) -> u16 {
    if i == 0 {
        0
    } else {
        (i - 1) as u16
    }
}

/// Saturating increment of a candidate index.
pub open spec fn sat_inc(i: u16) -> u16 {
    if i == 0xFFFF {
        i
    } else {
        (i + 1) as u16
    }
}

/// Bounded navigation: from any store with frames, moving to the saturated
/// decrement or increment of the current index never yields an index
/// outside `0..frame_count`, and moving to `frame_count` itself always
/// fails with the out-of-bounds error, leaving the store untouched.
pub proof fn lemma_bounded_navigation(v: StoreView, i: u16)
    requires
        v.wf(),
        v.ind == Some(i),
    ensures
        v.move_dest(sat_dec(i)).wf(),
        v.move_dest(sat_dec(i)).ind is Some,
        (v.move_dest(sat_dec(i)).ind->0 as int) < v.frames.len(),
        v.move_dest(sat_inc(i)).wf(),
        v.move_dest(sat_inc(i)).ind is Some,
        (v.move_dest(sat_inc(i)).ind->0 as int) < v.frames.len(),
        v.move_result((v.frames.len()) as u16) == Err::<(), IndexMoveError>(
            IndexMoveError::IndexOutOfBounds(v.frames.len() as u16),
        ),
        v.move_dest((v.frames.len()) as u16) == v,
{
}

/// Repeated saturated navigation: stepping to the saturated decrement and
/// then to the saturated increment of the index reached keeps the index
/// within `0..frame_count` at every step.
pub proof fn lemma_navigation_stays_bounded(v: StoreView, i: u16)
    requires
        v.wf(),
        v.ind == Some(i),
    ensures
        ({
            let down = v.move_dest(sat_dec(i));
            let up = down.move_dest(sat_inc(down.ind->0));
            &&& down.wf()
            &&& down.ind is Some
            &&& (down.ind->0 as int) < v.frames.len()
            &&& up.wf()
            &&& up.ind is Some
            &&& (up.ind->0 as int) < v.frames.len()
        }),
{
    lemma_bounded_navigation(v, i);
    let down = v.move_dest(sat_dec(i));
    lemma_bounded_navigation(down, down.ind->0);
}

} // verus!
