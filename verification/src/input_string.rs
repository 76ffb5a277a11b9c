//! A free-text input buffer that also maintains a derived view of its
//! content re-chunked into fixed-width rows.

use vstd::prelude::*;
use crate::sprite_format::{spec_delete_clamped, spec_insert_clamped, strs_view};
use crate::text::{chars_to_string, remove_chars, splice_chars, str_to_chars};

verus! {

/// The character sequence split into consecutive groups of `w` characters,
/// in order, the last group possibly shorter. Empty (and for a degenerate
/// non-positive width) there are no groups at all.
pub open spec fn chunked(s: Seq<char>, w: int) -> Seq<Seq<char>>
    decreases s.len(),
{
    if s.len() == 0 || w < 1 {
        Seq::empty()
    } else if s.len() <= w {
        seq![s]
    } else {
        seq![s.take(w)] + chunked(s.skip(w), w)
    }
}

/// Mathematical state of a free-text buffer: its shape, its raw character
/// content, and the derived fixed-width chunking of that content.
pub ghost struct FreeTextView {
    pub width: u16,
    pub height: u16,
    pub text: Seq<char>,
    pub rows: Seq<Seq<char>>,
}

impl FreeTextView {
    /// The derived view is exactly the chunking of the current text.
    pub open spec fn wf(self) -> bool {
        self.rows == chunked(self.text, self.width as int)
    }
}

/// A free-text input buffer: accepts arbitrary characters by offset and
/// keeps a cached copy of its content re-chunked into `width`-sized rows.
#[derive(Debug)]
pub struct InputString {
    pub width: u16,
    pub height: u16,
    pub value: String,
    formatted: Vec<String>,
}

impl View for InputString {
    type V = FreeTextView;

    closed spec fn view(&self) -> FreeTextView {
        FreeTextView {
            width: self.width,
            height: self.height,
            text: self.value@,
            rows: strs_view(self.formatted),
        }
    }
}

impl InputString {
    /// The buffer invariant: the cached chunked rows match the text.
    pub open spec fn wf(self) -> bool {
        self@.wf()
    }

    /// The declared width (mirrors the public field for contracts).
    pub open spec fn spec_width(self) -> u16 {
        self@.width
    }

    /// An empty buffer for the given grid shape.
    pub fn new(width: u16, height: u16) -> (r: InputString)
        ensures
            r@.width == width,
            r@.height == height,
            r@.text == Seq::<char>::empty(),
            r@.rows == Seq::<Seq<char>>::empty(),
            r.wf(),
    {
        let r = InputString { width, height, value: String::new(), formatted: Vec::new() };
        proof {
            assert(strs_view(r.formatted) =~= Seq::<Seq<char>>::empty());
        }
        r
    }

    /// The content split into `width`-sized rows, recomputed from the raw
    /// text.
    pub fn format_string(&self) -> (rows: Vec<String>)
        requires
            self@.width >= 1,
        ensures
            strs_view(rows) == chunked(self@.text, self@.width as int),
    {
        let chars = str_to_chars(self.value.as_str());
        let w = self.width as usize;
        let mut out: Vec<String> = Vec::new();
        let mut i: usize = 0;
        proof {
            assert(chars@.skip(0) =~= chars@);
            assert(strs_view(out) =~= Seq::<Seq<char>>::empty());
            assert(strs_view(out) + chunked(chars@.skip(0), w as int) =~= chunked(
                chars@,
                w as int,
            ));
        }
        while i < chars.len()
            invariant
                1 <= w,
                0 <= i <= chars@.len(),
                chunked(chars@, w as int) == strs_view(out) + chunked(
                    chars@.skip(i as int),
                    w as int,
                ),
            decreases chars@.len() - i,
        {
            let end = if chars.len() - i > w {
                i + w
            } else {
                chars.len()
            };
            let mut chunk: Vec<char> = Vec::new();
            let mut j: usize = i;
            while j < end
                invariant
                    i <= j <= end,
                    end <= chars@.len(),
                    chunk@ == chars@.subrange(i as int, j as int),
                decreases end - j,
            {
                chunk.push(chars[j]);
                assert(chunk@ =~= chars@.subrange(i as int, j as int + 1));
                j += 1;
            }
            let ghost prev = strs_view(out);
            out.push(chars_to_string(&chunk));
            proof {
                let rest = chars@.skip(i as int);
                assert(strs_view(out) =~= prev.push(chunk@));
                if chars@.len() - i > w {
                    assert(chunk@ =~= rest.take(w as int));
                    assert(rest.skip(w as int) =~= chars@.skip(end as int));
                    assert(chunked(rest, w as int) == seq![rest.take(w as int)] + chunked(
                        chars@.skip(end as int),
                        w as int,
                    ));
                    assert(prev + chunked(rest, w as int) =~= strs_view(out) + chunked(
                        chars@.skip(end as int),
                        w as int,
                    ));
                } else {
                    assert(chunk@ =~= rest);
                    assert(chunked(rest, w as int) == seq![rest]);
                    assert(chars@.skip(end as int) =~= Seq::<char>::empty());
                    assert(chunked(chars@.skip(end as int), w as int) == Seq::<Seq<char>>::empty());
                    assert(prev + chunked(rest, w as int) =~= strs_view(out) + chunked(
                        chars@.skip(end as int),
                        w as int,
                    ));
                }
            }
            i = end;
        }
        proof {
            assert(chars@.skip(i as int) =~= Seq::<char>::empty());
            assert(chunked(chars@.skip(i as int), w as int) == Seq::<Seq<char>>::empty());
            assert(strs_view(out) + chunked(chars@.skip(i as int), w as int) =~= strs_view(out));
        }
        out
    }

    /// The buffer can always be edited.
    pub fn is_mutable(&self) -> (r: bool)
        ensures
            r,
    {
        true
    }

    /// The raw backing string.
    pub fn as_str(&self) -> (r: &str)
        ensures
            r@ == self@.text,
    {
        self.value.as_str()
    }

    /// Insert text verbatim at a character offset (clamped to the end) and
    /// regenerate the chunked view. Returns the number of characters
    /// inserted.
    pub fn insert_text(&mut self, text: &str, char_index: usize) -> (count: usize)
        requires
            old(self)@.width >= 1,
        ensures
            final(self)@.width == old(self)@.width,
            final(self)@.height == old(self)@.height,
            final(self)@.text == spec_insert_clamped(old(self)@.text, text@, char_index as int),
            final(self).wf(),
            count == text@.len(),
    {
        let cur = str_to_chars(self.value.as_str());
        let ins = str_to_chars(text);
        let at = if char_index < cur.len() {
            char_index
        } else {
            cur.len()
        };
        let out = splice_chars(&cur, at, &ins);
        self.value = chars_to_string(&out);
        self.formatted = self.format_string();
        ins.len()
    }

    /// Delete the half-open character range `[start, end)` (clamped to the
    /// end of the text) and regenerate the chunked view.
    pub fn delete_char_range(&mut self, char_range: core::ops::Range<usize>)
        requires
            old(self)@.width >= 1,
            char_range.start <= char_range.end,
        ensures
            final(self)@.width == old(self)@.width,
            final(self)@.height == old(self)@.height,
            final(self)@.text == spec_delete_clamped(
                old(self)@.text,
                char_range.start as int,
                char_range.end as int,
            ),
            final(self).wf(),
    {
        let cur = str_to_chars(self.value.as_str());
        let s = if char_range.start < cur.len() {
            char_range.start
        } else {
            cur.len()
        };
        let e = if char_range.end < cur.len() {
            char_range.end
        } else {
            cur.len()
        };
        let out = remove_chars(&cur, s, e);
        self.value = chars_to_string(&out);
        self.formatted = self.format_string();
    }
}

} // verus!
