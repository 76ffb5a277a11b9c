//! The round-trip law of the serialization codec: the parser inverts the
//! printer, so decoding an encoded sprite reproduces its shape and every
//! cell exactly, with the current index reset to the first frame.

use vstd::prelude::*;
use crate::codec::{
    coerce_dim, coerce_frames, dec_parts, frame_parts, frame_text, frames_text, is_ws, join_comma,
    row_parts, row_text,
    key_frame_count, key_height, key_sprite, key_width, member_num_text, member_txt_text,
    parse_digits, parse_frame, parse_frame_items, parse_frames_items, parse_member, parse_members,
    parse_row, parse_row_items, parse_string, scan_string, set_field, skip_ws, spec_decode,
    spec_encode, spec_parse_doc, spec_parse_sprite, DecodeError, DocFields, FieldVal,
    empty_doc_fields,
};
use crate::numerals::{dec_repr, digits_val, is_dec_digit};
use crate::sprite_format::{coerce_code, NumFieldView, StoreView};

verus! {

// ---------------------------------------------------------------------------
// The round trip: the parser inverts the printer.
// ---------------------------------------------------------------------------

/// No character of `t` is a quote or a backslash.
pub open spec fn no_quotes(t: Seq<char>) -> bool {
    forall|k: int| 0 <= k < t.len() ==> #[trigger] t[k] != '"' && t[k] != '\\'
}

/// A digit is none of the punctuation characters of the format.
proof fn lemma_digit_is_plain(c: char)
    requires
        is_dec_digit(c),
    ensures
        !is_ws(c),
        c != '"',
        c != '\\',
        c != ',',
        c != ':',
        c != '[',
        c != ']',
        c != '{',
        c != '}',
{
    assert(' ' as int == 32);
    assert('\n' as int == 10);
    assert('\t' as int == 9);
    assert('\r' as int == 13);
    assert('"' as int == 34);
    assert('\\' as int == 92);
    assert(',' as int == 44);
    assert(':' as int == 58);
    assert('[' as int == 91);
    assert(']' as int == 93);
    assert('{' as int == 123);
    assert('}' as int == 125);
}

/// The decimal rendering of a number contains digits only, hence no
/// quote, backslash or punctuation.
proof fn lemma_dec_repr_plain(n: nat)
    ensures
        no_quotes(dec_repr(n)),
{
    crate::numerals::lemma_dec_repr_digits(n);
    assert forall|k: int| 0 <= k < dec_repr(n).len() implies #[trigger] dec_repr(n)[k] != '"'
        && dec_repr(n)[k] != '\\' by {
        lemma_digit_is_plain(dec_repr(n)[k]);
    }
}

/// Joining quote-free parts yields quote-free text.
proof fn lemma_no_quotes_join(parts: Seq<Seq<char>>)
    requires
        forall|p: int| 0 <= p < parts.len() ==> no_quotes(#[trigger] parts[p]),
    ensures
        no_quotes(join_comma(parts)),
    decreases parts.len(),
{
    if parts.len() == 0 {
    } else if parts.len() == 1 {
        assert(no_quotes(parts[0]));
    } else {
        assert(forall|p: int| 0 <= p < parts.skip(1).len() ==> no_quotes(
            #[trigger] parts.skip(1)[p],
        ));
        lemma_no_quotes_join(parts.skip(1));
        let t = parts[0] + seq![','] + join_comma(parts.skip(1));
        assert forall|k: int| 0 <= k < t.len() implies #[trigger] t[k] != '"' && t[k] != '\\' by {
            assert(no_quotes(parts[0]));
            assert(',' as int == 44);
        }
    }
}

/// The printed form of a row is quote-free.
proof fn lemma_no_quotes_row_text(r: Seq<u8>)
    ensures
        no_quotes(row_text(r)),
{
    assert forall|p: int| 0 <= p < dec_parts(r).len() implies no_quotes(
        #[trigger] dec_parts(r)[p],
    ) by {
        lemma_dec_repr_plain(r[p] as nat);
    }
    lemma_no_quotes_join(dec_parts(r));
    let t = row_text(r);
    assert forall|k: int| 0 <= k < t.len() implies #[trigger] t[k] != '"' && t[k] != '\\' by {
        assert('[' as int == 91);
        assert(']' as int == 93);
        assert('"' as int == 34);
        assert('\\' as int == 92);
    }
}

/// The printed form of a frame is quote-free.
proof fn lemma_no_quotes_frame_text(f: Seq<Seq<u8>>)
    ensures
        no_quotes(frame_text(f)),
{
    assert forall|p: int| 0 <= p < row_parts(f).len() implies no_quotes(
        #[trigger] row_parts(f)[p],
    ) by {
        lemma_no_quotes_row_text(f[p]);
    }
    lemma_no_quotes_join(row_parts(f));
    let t = frame_text(f);
    assert forall|k: int| 0 <= k < t.len() implies #[trigger] t[k] != '"' && t[k] != '\\' by {
        assert('[' as int == 91);
        assert(']' as int == 93);
    }
}

/// The printed form of all frames is quote-free.
proof fn lemma_no_quotes_frames_text(fs: Seq<Seq<Seq<u8>>>)
    ensures
        no_quotes(frames_text(fs)),
{
    assert forall|p: int| 0 <= p < frame_parts(fs).len() implies no_quotes(
        #[trigger] frame_parts(fs)[p],
    ) by {
        lemma_no_quotes_frame_text(fs[p]);
    }
    lemma_no_quotes_join(frame_parts(fs));
    let t = frames_text(fs);
    assert forall|k: int| 0 <= k < t.len() implies #[trigger] t[k] != '"' && t[k] != '\\' by {
        assert('[' as int == 91);
        assert(']' as int == 93);
    }
}

/// A digit run bounded by a non-digit parses to the value of its digits.
proof fn lemma_parse_digits_span(s: Seq<char>, i: int, j: int, e: int)
    requires
        0 <= i <= j <= e <= s.len(),
        forall|k: int| i <= k < e ==> is_dec_digit(#[trigger] s[k]),
        e == s.len() || !is_dec_digit(s[e]),
    ensures
        parse_digits(s, j, digits_val(s.subrange(i, j))) == (digits_val(s.subrange(i, e)), e),
    decreases e - j,
{
    if j == e {
    } else {
        assert(s.subrange(i, j + 1).drop_last() =~= s.subrange(i, j));
        assert(s.subrange(i, j + 1).last() == s[j]);
        lemma_parse_digits_span(s, i, j + 1, e);
    }
}

/// Scanning a quote-free stretch up to a closing quote collects exactly
/// that stretch.
proof fn lemma_scan_string_at(s: Seq<char>, i: int, content: Seq<char>, acc: Seq<char>)
    requires
        0 <= i,
        i + content.len() < s.len(),
        s.subrange(i, i + content.len()) == content,
        no_quotes(content),
        s[i + content.len()] == '"',
    ensures
        scan_string(s, i, acc) == Some((acc + content, i + content.len() + 1)),
    decreases content.len(),
{
    if content.len() == 0 {
        assert(acc + content =~= acc);
    } else {
        assert(content[0] == s.subrange(i, i + content.len())[0]);
        assert(s[i] == content[0]);
        assert(content[0] != '"' && content[0] != '\\');
        assert(s.subrange(i + 1, i + 1 + (content.len() - 1)) =~= content.skip(1));
        assert(forall|k: int| 0 <= k < content.skip(1).len() ==> #[trigger] content.skip(1)[k]
            == content[k + 1]);
        lemma_scan_string_at(s, i + 1, content.skip(1), acc.push(content[0]));
        assert(acc.push(content[0]) + content.skip(1) =~= acc + content);
    }
}

/// A printed number bounded by a non-digit parses back to its value.
proof fn lemma_parse_number_at(s: Seq<char>, i: int, n: nat)
    requires
        0 <= i,
        i + dec_repr(n).len() < s.len(),
        s.subrange(i, i + dec_repr(n).len()) == dec_repr(n),
        !is_dec_digit(s[i + dec_repr(n).len()]),
    ensures
        parse_digits(s, i, 0) == (n as int, i + dec_repr(n).len()),
        is_dec_digit(s[i]),
        !is_ws(s[i]),
    decreases 0int,
{
    let d0 = dec_repr(n);
    crate::numerals::lemma_dec_repr_digits(n);
    let e0 = i + d0.len();
    assert forall|k: int| i <= k < e0 implies is_dec_digit(#[trigger] s[k]) by {
        assert(s.subrange(i, e0)[k - i] == s[k]);
        assert(d0[k - i] == s[k]);
    }
    assert(s.subrange(i, e0)[0] == s[i]);
    lemma_digit_is_plain(s[i]);
    assert(s.subrange(i, i) =~= Seq::<char>::empty());
    assert(digits_val(Seq::<char>::empty()) == 0);
    lemma_parse_digits_span(s, i, i, e0);
}

/// The row-items parser, run over the printed remainder of a row,
/// collects exactly the remaining cells.
#[verifier::rlimit(100)]
#[verifier::spinoff_prover]
proof fn lemma_parse_row_items_at(s: Seq<char>, i: int, rest: Seq<u8>, acc: Seq<u8>, first: bool)
    requires
        0 <= i,
        i + join_comma(dec_parts(rest)).len() + 1 <= s.len(),
        s.subrange(i, i + join_comma(dec_parts(rest)).len() + 1) == join_comma(dec_parts(rest))
            + seq![']'],
        first || rest.len() > 0,
    ensures
        parse_row_items(s, i, acc, first) == Some(
            (acc + rest, i + join_comma(dec_parts(rest)).len() + 1),
        ),
    decreases rest.len(),
{
    let jt = join_comma(dec_parts(rest));
    let whole = jt + seq![']'];
    assert forall|k: int| 0 <= k < whole.len() implies s[i + k] == #[trigger] whole[k] by {
        assert(s.subrange(i, i + whole.len())[k] == s[i + k]);
    }
    assert(']' as int == 93);
    assert(',' as int == 44);
    if rest.len() == 0 {
        assert(dec_parts(rest).len() == 0);
        assert(jt.len() == 0);
        assert(whole[0] == ']');
        assert(s[i + 0] == whole[0]);
        assert(s[i] == ']');
        assert(!is_ws(s[i]));
        assert(skip_ws(s, i) == i);
        assert(acc + rest =~= acc);
    } else {
        let d0 = dec_repr(rest[0] as nat);
        crate::numerals::lemma_dec_repr_digits(rest[0] as nat);
        assert(dec_parts(rest)[0] == d0);
        let e0 = i + d0.len();
        if rest.len() == 1 {
            assert(jt == d0);
        } else {
            assert(jt == d0 + seq![','] + join_comma(dec_parts(rest).skip(1)));
        }
        assert(s.subrange(i, e0) =~= d0) by {
            assert forall|k: int| 0 <= k < d0.len() implies s.subrange(i, e0)[k] == d0[k] by {
                assert(s.subrange(i, e0)[k] == s[i + k]);
                assert(s[i + k] == whole[k]);
                if rest.len() == 1 {
                    assert(whole[k] == d0[k]);
                } else {
                    assert(whole[k] == jt[k]);
                    assert(jt[k] == d0[k]);
                }
            }
        }
        let b = s[e0];
        if rest.len() == 1 {
            assert(b == whole[d0.len() as int]);
            assert(b == ']');
        } else {
            assert(b == whole[d0.len() as int]);
            assert(b == jt[d0.len() as int]);
            assert(b == ',');
        }
        assert(!is_dec_digit(b)) by {
            if is_dec_digit(b) {
                lemma_digit_is_plain(b);
            }
        }
        lemma_parse_number_at(s, i, rest[0] as nat);
        assert(skip_ws(s, i) == i);
        assert(parse_digits(s, i, 0) == (rest[0] as int, e0));
        assert(!is_ws(b));
        assert(skip_ws(s, e0) == e0);
        if rest.len() == 1 {
            assert(parse_row_items(s, i, acc, first) == Some((acc.push(rest[0]), e0 + 1)));
            assert(acc.push(rest[0]) =~= acc + rest);
        } else {
            let jt2 = join_comma(dec_parts(rest).skip(1));
            assert(dec_parts(rest).skip(1) =~= dec_parts(rest.skip(1)));
            assert(jt.len() == d0.len() + 1 + jt2.len());
            assert(s.subrange(e0 + 1, e0 + 1 + jt2.len() + 1) =~= join_comma(
                dec_parts(rest.skip(1)),
            ) + seq![']']) by {
                assert forall|k: int| 0 <= k < jt2.len() + 1 implies s.subrange(
                    e0 + 1,
                    e0 + 1 + jt2.len() + 1,
                )[k] == (jt2 + seq![']'])[k] by {
                    assert(s.subrange(e0 + 1, e0 + 1 + jt2.len() + 1)[k] == s[e0 + 1 + k]);
                    assert(s[e0 + 1 + k] == whole[d0.len() + 1 + k]);
                    if k < jt2.len() {
                        assert(whole[d0.len() + 1 + k] == jt[d0.len() + 1 + k]);
                        assert(jt[d0.len() + 1 + k] == jt2[k]);
                    } else {
                        assert(whole[d0.len() + 1 + k] == ']');
                    }
                }
            }
            lemma_parse_row_items_at(s, e0 + 1, rest.skip(1), acc.push(rest[0]), false);
            assert(acc.push(rest[0]) + rest.skip(1) =~= acc + rest);
            assert(parse_row_items(s, i, acc, first) == parse_row_items(
                s,
                e0 + 1,
                acc.push(rest[0]),
                false,
            ));
        }
    }
}

/// The frame-items parser, run over the printed remainder of a frame,
/// collects exactly the remaining rows.
#[verifier::rlimit(60)]
proof fn lemma_parse_frame_items_at(
    s: Seq<char>,
    i: int,
    rest: Seq<Seq<u8>>,
    acc: Seq<Seq<u8>>,
    first: bool,
)
    requires
        0 <= i,
        i + join_comma(row_parts(rest)).len() + 1 <= s.len(),
        s.subrange(i, i + join_comma(row_parts(rest)).len() + 1) == join_comma(row_parts(rest))
            + seq![']'],
        first || rest.len() > 0,
    ensures
        parse_frame_items(s, i, acc, first) == Some(
            (acc + rest, i + join_comma(row_parts(rest)).len() + 1),
        ),
    decreases rest.len(),
{
    let jt = join_comma(row_parts(rest));
    let whole = jt + seq![']'];
    assert forall|k: int| 0 <= k < whole.len() implies s[i + k] == #[trigger] whole[k] by {
        assert(s.subrange(i, i + whole.len())[k] == s[i + k]);
    }
    assert(']' as int == 93);
    assert(',' as int == 44);
    assert('[' as int == 91);
    if rest.len() == 0 {
        assert(row_parts(rest).len() == 0);
        assert(jt.len() == 0);
        assert(whole[0] == ']');
        assert(s[i + 0] == whole[0]);
        assert(s[i] == ']');
        assert(!is_ws(s[i]));
        assert(skip_ws(s, i) == i);
        assert(acc + rest =~= acc);
    } else {
        let r0 = row_text(rest[0]);
        assert(row_parts(rest)[0] == r0);
        let ji = join_comma(dec_parts(rest[0]));
        assert(r0 == seq!['['] + ji + seq![']']);
        assert(r0.len() == ji.len() + 2);
        let e0 = i + r0.len();
        if rest.len() == 1 {
            assert(jt == r0);
        } else {
            assert(jt == r0 + seq![','] + join_comma(row_parts(rest).skip(1)));
        }
        assert forall|k: int| 0 <= k < r0.len() implies s[i + k] == r0[k] by {
            if rest.len() == 1 {
                assert(whole[k] == r0[k]);
            } else {
                assert(whole[k] == jt[k]);
                assert(jt[k] == r0[k]);
            }
        }
        assert(s[i + 0] == r0[0]);
        assert(r0[0] == '[');
        assert(s[i] == '[');
        assert(!is_ws(s[i]));
        assert(skip_ws(s, i) == i);
        // the row interior begins right after the opening bracket
        assert(s.subrange(i + 1, i + 1 + ji.len() + 1) =~= ji + seq![']']) by {
            assert forall|k: int| 0 <= k < ji.len() + 1 implies s.subrange(
                i + 1,
                i + 1 + ji.len() + 1,
            )[k] == (ji + seq![']'])[k] by {
                assert(s.subrange(i + 1, i + 1 + ji.len() + 1)[k] == s[i + 1 + k]);
                assert(s[i + 1 + k] == r0[1 + k]);
                if k < ji.len() {
                    assert(r0[1 + k] == ji[k]);
                } else {
                    assert(r0[1 + k] == ']');
                }
            }
        }
        lemma_parse_row_items_at(s, i + 1, rest[0], Seq::empty(), true);
        assert(Seq::<u8>::empty() + rest[0] =~= rest[0]);
        assert(parse_row(s, i) == Some((rest[0], e0)));
        if rest.len() == 1 {
            let b = s[e0];
            assert(b == whole[r0.len() as int]);
            assert(b == ']');
            assert(!is_ws(b));
            assert(skip_ws(s, e0) == e0);
            assert(parse_frame_items(s, i, acc, first) == Some((acc.push(rest[0]), e0 + 1)));
            assert(acc.push(rest[0]) =~= acc + rest);
        } else {
            let b = s[e0];
            assert(b == whole[r0.len() as int]);
            assert(b == jt[r0.len() as int]);
            assert(b == ',');
            assert(!is_ws(b));
            assert(skip_ws(s, e0) == e0);
            let jt2 = join_comma(row_parts(rest).skip(1));
            assert(row_parts(rest).skip(1) =~= row_parts(rest.skip(1)));
            assert(jt.len() == r0.len() + 1 + jt2.len());
            assert(s.subrange(e0 + 1, e0 + 1 + jt2.len() + 1) =~= join_comma(
                row_parts(rest.skip(1)),
            ) + seq![']']) by {
                assert forall|k: int| 0 <= k < jt2.len() + 1 implies s.subrange(
                    e0 + 1,
                    e0 + 1 + jt2.len() + 1,
                )[k] == (jt2 + seq![']'])[k] by {
                    assert(s.subrange(e0 + 1, e0 + 1 + jt2.len() + 1)[k] == s[e0 + 1 + k]);
                    assert(s[e0 + 1 + k] == whole[r0.len() + 1 + k]);
                    if k < jt2.len() {
                        assert(whole[r0.len() + 1 + k] == jt[r0.len() + 1 + k]);
                        assert(jt[r0.len() + 1 + k] == jt2[k]);
                    } else {
                        assert(whole[r0.len() + 1 + k] == ']');
                    }
                }
            }
            lemma_parse_frame_items_at(s, e0 + 1, rest.skip(1), acc.push(rest[0]), false);
            assert(acc.push(rest[0]) + rest.skip(1) =~= acc + rest);
            assert(parse_frame_items(s, i, acc, first) == parse_frame_items(
                s,
                e0 + 1,
                acc.push(rest[0]),
                false,
            ));
        }
    }
}

/// The frames parser, run over the printed remainder of the frame list,
/// collects exactly the remaining frames.
#[verifier::rlimit(60)]
proof fn lemma_parse_frames_items_at(
    s: Seq<char>,
    i: int,
    rest: Seq<Seq<Seq<u8>>>,
    acc: Seq<Seq<Seq<u8>>>,
    first: bool,
)
    requires
        0 <= i,
        i + join_comma(frame_parts(rest)).len() + 1 <= s.len(),
        s.subrange(i, i + join_comma(frame_parts(rest)).len() + 1) == join_comma(frame_parts(rest))
            + seq![']'],
        first || rest.len() > 0,
    ensures
        parse_frames_items(s, i, acc, first) == Some(
            (acc + rest, i + join_comma(frame_parts(rest)).len() + 1),
        ),
    decreases rest.len(),
{
    let jt = join_comma(frame_parts(rest));
    let whole = jt + seq![']'];
    assert forall|k: int| 0 <= k < whole.len() implies s[i + k] == #[trigger] whole[k] by {
        assert(s.subrange(i, i + whole.len())[k] == s[i + k]);
    }
    assert(']' as int == 93);
    assert(',' as int == 44);
    assert('[' as int == 91);
    if rest.len() == 0 {
        assert(frame_parts(rest).len() == 0);
        assert(jt.len() == 0);
        assert(whole[0] == ']');
        assert(s[i + 0] == whole[0]);
        assert(s[i] == ']');
        assert(!is_ws(s[i]));
        assert(skip_ws(s, i) == i);
        assert(acc + rest =~= acc);
    } else {
        let f0 = frame_text(rest[0]);
        assert(frame_parts(rest)[0] == f0);
        let ji = join_comma(row_parts(rest[0]));
        assert(f0 == seq!['['] + ji + seq![']']);
        assert(f0.len() == ji.len() + 2);
        let e0 = i + f0.len();
        if rest.len() == 1 {
            assert(jt == f0);
        } else {
            assert(jt == f0 + seq![','] + join_comma(frame_parts(rest).skip(1)));
        }
        assert forall|k: int| 0 <= k < f0.len() implies s[i + k] == f0[k] by {
            if rest.len() == 1 {
                assert(whole[k] == f0[k]);
            } else {
                assert(whole[k] == jt[k]);
                assert(jt[k] == f0[k]);
            }
        }
        assert(s[i + 0] == f0[0]);
        assert(f0[0] == '[');
        assert(s[i] == '[');
        assert(!is_ws(s[i]));
        assert(skip_ws(s, i) == i);
        assert(s.subrange(i + 1, i + 1 + ji.len() + 1) =~= ji + seq![']']) by {
            assert forall|k: int| 0 <= k < ji.len() + 1 implies s.subrange(
                i + 1,
                i + 1 + ji.len() + 1,
            )[k] == (ji + seq![']'])[k] by {
                assert(s.subrange(i + 1, i + 1 + ji.len() + 1)[k] == s[i + 1 + k]);
                assert(s[i + 1 + k] == f0[1 + k]);
                if k < ji.len() {
                    assert(f0[1 + k] == ji[k]);
                } else {
                    assert(f0[1 + k] == ']');
                }
            }
        }
        lemma_parse_frame_items_at(s, i + 1, rest[0], Seq::empty(), true);
        assert(Seq::<Seq<u8>>::empty() + rest[0] =~= rest[0]);
        assert(parse_frame(s, i) == Some((rest[0], e0)));
        if rest.len() == 1 {
            let b = s[e0];
            assert(b == whole[f0.len() as int]);
            assert(b == ']');
            assert(!is_ws(b));
            assert(skip_ws(s, e0) == e0);
            assert(parse_frames_items(s, i, acc, first) == Some((acc.push(rest[0]), e0 + 1)));
            assert(acc.push(rest[0]) =~= acc + rest);
        } else {
            let b = s[e0];
            assert(b == whole[f0.len() as int]);
            assert(b == jt[f0.len() as int]);
            assert(b == ',');
            assert(!is_ws(b));
            assert(skip_ws(s, e0) == e0);
            let jt2 = join_comma(frame_parts(rest).skip(1));
            assert(frame_parts(rest).skip(1) =~= frame_parts(rest.skip(1)));
            assert(jt.len() == f0.len() + 1 + jt2.len());
            assert(s.subrange(e0 + 1, e0 + 1 + jt2.len() + 1) =~= join_comma(
                frame_parts(rest.skip(1)),
            ) + seq![']']) by {
                assert forall|k: int| 0 <= k < jt2.len() + 1 implies s.subrange(
                    e0 + 1,
                    e0 + 1 + jt2.len() + 1,
                )[k] == (jt2 + seq![']'])[k] by {
                    assert(s.subrange(e0 + 1, e0 + 1 + jt2.len() + 1)[k] == s[e0 + 1 + k]);
                    assert(s[e0 + 1 + k] == whole[f0.len() + 1 + k]);
                    if k < jt2.len() {
                        assert(whole[f0.len() + 1 + k] == jt[f0.len() + 1 + k]);
                        assert(jt[f0.len() + 1 + k] == jt2[k]);
                    } else {
                        assert(whole[f0.len() + 1 + k] == ']');
                    }
                }
            }
            lemma_parse_frames_items_at(s, e0 + 1, rest.skip(1), acc.push(rest[0]), false);
            assert(acc.push(rest[0]) + rest.skip(1) =~= acc + rest);
            assert(parse_frames_items(s, i, acc, first) == parse_frames_items(
                s,
                e0 + 1,
                acc.push(rest[0]),
                false,
            ));
        }
    }
}

/// A printed numeric member bounded by a non-digit parses to one field
/// update.
proof fn lemma_member_num_at(s: Seq<char>, i: int, key: Seq<char>, n: nat, f: DocFields)
    requires
        0 <= i,
        no_quotes(key),
        i + member_num_text(key, n).len() < s.len(),
        s.subrange(i, i + member_num_text(key, n).len()) == member_num_text(key, n),
        !is_dec_digit(s[i + member_num_text(key, n).len()]),
    ensures
        parse_member(s, i, f) == Some(
            (set_field(f, key, FieldVal::Num(n as int)), i + member_num_text(key, n).len()),
        ),
{
    let m = member_num_text(key, n);
    let kl = key.len() as int;
    let dl = dec_repr(n).len() as int;
    assert(m.len() == kl + 3 + dl);
    assert forall|k: int| 0 <= k < m.len() implies s[i + k] == #[trigger] m[k] by {
        assert(s.subrange(i, i + m.len())[k] == s[i + k]);
    }
    assert('"' as int == 34);
    assert(':' as int == 58);
    assert(m[0] == '"');
    assert(s[i + 0] == m[0]);
    assert(!is_ws(s[i]));
    assert(s.subrange(i + 1, i + 1 + kl) =~= key) by {
        assert forall|k: int| 0 <= k < kl implies s.subrange(i + 1, i + 1 + kl)[k] == key[k] by {
            assert(s.subrange(i + 1, i + 1 + kl)[k] == s[i + 1 + k]);
            assert(s[i + 1 + k] == m[1 + k]);
            assert(m[1 + k] == key[k]);
        }
    }
    assert(m[1 + kl] == '"');
    assert(s[i + (1 + kl)] == m[1 + kl]);
    lemma_scan_string_at(s, i + 1, key, Seq::empty());
    assert(Seq::<char>::empty() + key =~= key);
    assert(parse_string(s, i) == Some((key, i + kl + 2)));
    let p1 = i + kl + 2;
    assert(m[kl + 2] == ':');
    assert(s[i + (kl + 2)] == m[kl + 2]);
    assert(s[p1] == ':');
    assert(!is_ws(s[p1]));
    assert(skip_ws(s, p1) == p1);
    let p2 = p1 + 1;
    assert(s.subrange(p2, p2 + dl) =~= dec_repr(n)) by {
        assert forall|k: int| 0 <= k < dl implies s.subrange(p2, p2 + dl)[k] == dec_repr(n)[k] by {
            assert(s.subrange(p2, p2 + dl)[k] == s[p2 + k]);
            assert(s[i + (kl + 3 + k)] == m[kl + 3 + k]);
            assert(m[kl + 3 + k] == dec_repr(n)[k]);
        }
    }
    lemma_parse_number_at(s, p2, n);
    assert(skip_ws(s, p2) == p2);
}

/// A printed string member parses to one field update.
proof fn lemma_member_txt_at(s: Seq<char>, i: int, key: Seq<char>, content: Seq<char>, f: DocFields)
    requires
        0 <= i,
        no_quotes(key),
        no_quotes(content),
        i + member_txt_text(key, content).len() <= s.len(),
        s.subrange(i, i + member_txt_text(key, content).len()) == member_txt_text(key, content),
    ensures
        parse_member(s, i, f) == Some(
            (set_field(f, key, FieldVal::Txt(content)), i + member_txt_text(key, content).len()),
        ),
{
    let m = member_txt_text(key, content);
    let kl = key.len() as int;
    let cl = content.len() as int;
    assert(m.len() == kl + cl + 5);
    assert forall|k: int| 0 <= k < m.len() implies s[i + k] == #[trigger] m[k] by {
        assert(s.subrange(i, i + m.len())[k] == s[i + k]);
    }
    assert('"' as int == 34);
    assert(':' as int == 58);
    assert(m[0] == '"');
    assert(s[i + 0] == m[0]);
    assert(!is_ws(s[i]));
    assert(s.subrange(i + 1, i + 1 + kl) =~= key) by {
        assert forall|k: int| 0 <= k < kl implies s.subrange(i + 1, i + 1 + kl)[k] == key[k] by {
            assert(s.subrange(i + 1, i + 1 + kl)[k] == s[i + 1 + k]);
            assert(s[i + 1 + k] == m[1 + k]);
            assert(m[1 + k] == key[k]);
        }
    }
    assert(m[1 + kl] == '"');
    assert(s[i + (1 + kl)] == m[1 + kl]);
    lemma_scan_string_at(s, i + 1, key, Seq::empty());
    assert(Seq::<char>::empty() + key =~= key);
    assert(parse_string(s, i) == Some((key, i + kl + 2)));
    let p1 = i + kl + 2;
    assert(m[kl + 2] == ':');
    assert(s[i + (kl + 2)] == m[kl + 2]);
    assert(s[p1] == ':');
    assert(!is_ws(s[p1]));
    assert(skip_ws(s, p1) == p1);
    let p2 = p1 + 1;
    assert(m[kl + 3] == '"');
    assert(s[i + (kl + 3)] == m[kl + 3]);
    assert(s[p2] == '"');
    assert(!is_dec_digit(s[p2])) by {
        if is_dec_digit(s[p2]) {
            lemma_digit_is_plain(s[p2]);
        }
    }
    assert(!is_ws(s[p2]));
    assert(skip_ws(s, p2) == p2);
    assert(s.subrange(p2 + 1, p2 + 1 + cl) =~= content) by {
        assert forall|k: int| 0 <= k < cl implies s.subrange(p2 + 1, p2 + 1 + cl)[k]
            == content[k] by {
            assert(s.subrange(p2 + 1, p2 + 1 + cl)[k] == s[p2 + 1 + k]);
            assert(s[i + (kl + 4 + k)] == m[kl + 4 + k]);
            assert(m[kl + 4 + k] == content[k]);
        }
    }
    assert(m[kl + 4 + cl] == '"');
    assert(s[i + (kl + 4 + cl)] == m[kl + 4 + cl]);
    lemma_scan_string_at(s, p2 + 1, content, Seq::empty());
    assert(Seq::<char>::empty() + content =~= content);
    assert(parse_string(s, p2) == Some((content, p2 + 1 + cl + 1)));
}

/// The four keys are pairwise distinct.
proof fn lemma_keys_distinct()
    ensures
        key_frame_count() != key_width(),
        key_frame_count() != key_height(),
        key_frame_count() != key_sprite(),
        key_width() != key_height(),
        key_width() != key_sprite(),
        key_height() != key_sprite(),
{
    assert(key_frame_count().len() == 11);
    assert(key_width().len() == 5);
    assert(key_height().len() == 6);
    assert(key_sprite().len() == 6);
    if key_height() == key_sprite() {
        assert(key_height()[0] == key_sprite()[0]);
        assert('h' as int == 104);
        assert('s' as int == 115);
    }
}

/// Each key is quote-free.
proof fn lemma_keys_plain()
    ensures
        no_quotes(key_frame_count()),
        no_quotes(key_width()),
        no_quotes(key_height()),
        no_quotes(key_sprite()),
{
    assert('"' as int == 34);
    assert('\\' as int == 92);
    assert forall|k: int| 0 <= k < key_frame_count().len() implies #[trigger] key_frame_count()[k]
        != '"' && key_frame_count()[k] != '\\' by {}
    assert forall|k: int| 0 <= k < key_width().len() implies #[trigger] key_width()[k] != '"'
        && key_width()[k] != '\\' by {}
    assert forall|k: int| 0 <= k < key_height().len() implies #[trigger] key_height()[k] != '"'
        && key_height()[k] != '\\' by {}
    assert forall|k: int| 0 <= k < key_sprite().len() implies #[trigger] key_sprite()[k] != '"'
        && key_sprite()[k] != '\\' by {}
}

/// Parsing the canonical document recovers exactly the four fields.
#[verifier::rlimit(100)]
#[verifier::spinoff_prover]
proof fn lemma_parse_doc_of_encode(v: StoreView)
    requires
        v.wf(),
    ensures
        spec_parse_doc(spec_encode(v)) == Some(
            DocFields {
                frame_count: Some(v.frames.len() as int),
                width: Some(v.width.value as int),
                height: Some(v.height.value as int),
                sprite: Some(frames_text(v.frames)),
            },
        ),
{
    let s = spec_encode(v);
    let m1 = member_num_text(key_frame_count(), v.frames.len() as nat);
    let m2 = member_num_text(key_width(), v.width.value as nat);
    let m3 = member_num_text(key_height(), v.height.value as nat);
    let m4 = member_txt_text(key_sprite(), frames_text(v.frames));
    let a1 = 1int;
    let e1 = a1 + m1.len();
    let a2 = e1 + 1;
    let e2 = a2 + m2.len();
    let a3 = e2 + 1;
    let e3 = a3 + m3.len();
    let a4 = e3 + 1;
    let e4 = a4 + m4.len();
    assert(s.len() == e4 + 1);
    lemma_keys_distinct();
    lemma_keys_plain();
    lemma_no_quotes_frames_text(v.frames);
    assert('{' as int == 123);
    assert('}' as int == 125);
    assert(',' as int == 44);
    assert('"' as int == 34);
    assert(s[0] == '{');
    assert(!is_ws(s[0]));
    assert(skip_ws(s, 0) == 0);
    assert(s[e1] == ',');
    assert(s[e2] == ',');
    assert(s[e3] == ',');
    assert(s[e4] == '}');
    assert(s.subrange(a1, e1) =~= m1) by {
        assert forall|k: int| 0 <= k < m1.len() implies s.subrange(a1, e1)[k] == m1[k] by {
            assert(s.subrange(a1, e1)[k] == s[a1 + k]);
        }
    }
    assert(s.subrange(a2, e2) =~= m2) by {
        assert forall|k: int| 0 <= k < m2.len() implies s.subrange(a2, e2)[k] == m2[k] by {
            assert(s.subrange(a2, e2)[k] == s[a2 + k]);
        }
    }
    assert(s.subrange(a3, e3) =~= m3) by {
        assert forall|k: int| 0 <= k < m3.len() implies s.subrange(a3, e3)[k] == m3[k] by {
            assert(s.subrange(a3, e3)[k] == s[a3 + k]);
        }
    }
    assert(s.subrange(a4, e4) =~= m4) by {
        assert forall|k: int| 0 <= k < m4.len() implies s.subrange(a4, e4)[k] == m4[k] by {
            assert(s.subrange(a4, e4)[k] == s[a4 + k]);
        }
    }
    assert(!is_dec_digit(s[e1])) by {
        if is_dec_digit(s[e1]) {
            lemma_digit_is_plain(s[e1]);
        }
    }
    assert(!is_dec_digit(s[e2])) by {
        if is_dec_digit(s[e2]) {
            lemma_digit_is_plain(s[e2]);
        }
    }
    assert(!is_dec_digit(s[e3])) by {
        if is_dec_digit(s[e3]) {
            lemma_digit_is_plain(s[e3]);
        }
    }
    let f0 = empty_doc_fields();
    lemma_member_num_at(s, a1, key_frame_count(), v.frames.len() as nat, f0);
    let f1 = set_field(f0, key_frame_count(), FieldVal::Num(v.frames.len() as int));
    assert(f1 == DocFields {
        frame_count: Some(v.frames.len() as int),
        width: None,
        height: None,
        sprite: None,
    });
    lemma_member_num_at(s, a2, key_width(), v.width.value as nat, f1);
    let f2 = set_field(f1, key_width(), FieldVal::Num(v.width.value as int));
    lemma_member_num_at(s, a3, key_height(), v.height.value as nat, f2);
    let f3 = set_field(f2, key_height(), FieldVal::Num(v.height.value as int));
    lemma_member_txt_at(s, a4, key_sprite(), frames_text(v.frames), f3);
    let f4 = set_field(f3, key_sprite(), FieldVal::Txt(frames_text(v.frames)));
    assert(f4 == DocFields {
        frame_count: Some(v.frames.len() as int),
        width: Some(v.width.value as int),
        height: Some(v.height.value as int),
        sprite: Some(frames_text(v.frames)),
    });
    // walk the member list
    assert(s[a1] == '"');
    assert(!is_ws(s[a1]));
    assert(skip_ws(s, a1) == a1);
    assert(s[a2] == '"');
    assert(!is_ws(s[a2]));
    assert(skip_ws(s, a2) == a2);
    assert(s[a3] == '"');
    assert(!is_ws(s[a3]));
    assert(skip_ws(s, a3) == a3);
    assert(s[a4] == '"');
    assert(!is_ws(s[a4]));
    assert(skip_ws(s, a4) == a4);
    assert(!is_ws(s[e1]));
    assert(skip_ws(s, e1) == e1);
    assert(!is_ws(s[e2]));
    assert(skip_ws(s, e2) == e2);
    assert(!is_ws(s[e3]));
    assert(skip_ws(s, e3) == e3);
    assert(!is_ws(s[e4]));
    assert(skip_ws(s, e4) == e4);
    assert(parse_members(s, a4, f3, false) == Some((f4, e4 + 1)));
    assert(parse_members(s, a3, f2, false) == Some((f4, e4 + 1)));
    assert(parse_members(s, a2, f1, false) == Some((f4, e4 + 1)));
    assert(parse_members(s, a1, f0, true) == Some((f4, e4 + 1)));
    assert(skip_ws(s, e4 + 1) == s.len());
}

/// The store a canonical document decodes back to: the same dimensions
/// (with canonical text), the same frames, and the index reset to the
/// first frame.
pub open spec fn decoded_of(v: StoreView) -> StoreView {
    StoreView {
        width: NumFieldView { value: v.width.value, text: dec_repr(v.width.value as nat) },
        height: NumFieldView { value: v.height.value, text: dec_repr(v.height.value as nat) },
        frames: v.frames,
        ind: if v.frames.len() > 0 {
            Some(0u16)
        } else {
            None
        },
    }
}

/// The round-trip law: decoding the encoding of any well-formed store
/// succeeds and yields a store with identical width and height values,
/// identical cell codes in identical frame, row and column order, and the
/// current index reset to the first frame.
pub proof fn lemma_round_trip(v: StoreView)
    requires
        v.wf(),
    ensures
        spec_decode(spec_encode(v)) == Ok::<StoreView, DecodeError>(decoded_of(v)),
{
    lemma_parse_doc_of_encode(v);
    let ft = frames_text(v.frames);
    let jt = join_comma(frame_parts(v.frames));
    assert('[' as int == 91);
    assert(']' as int == 93);
    assert(ft == seq!['['] + jt + seq![']']);
    assert(ft[0] == '[');
    assert(!is_ws(ft[0]));
    assert(skip_ws(ft, 0) == 0);
    assert(ft.subrange(1, 1 + jt.len() as int + 1) =~= jt + seq![']']) by {
        assert forall|k: int| 0 <= k < jt.len() + 1 implies ft.subrange(1, 1 + jt.len() as int + 1)[k]
            == (jt + seq![']'])[k] by {
            assert(ft.subrange(1, 1 + jt.len() as int + 1)[k] == ft[1 + k]);
        }
    }
    lemma_parse_frames_items_at(ft, 1, v.frames, Seq::empty(), true);
    assert(Seq::<Seq<Seq<u8>>>::empty() + v.frames =~= v.frames);
    assert(parse_frames_items(ft, 1, Seq::empty(), true) == Some((v.frames, ft.len() as int)));
    assert(skip_ws(ft, ft.len() as int) == ft.len());
    assert(spec_parse_sprite(ft) == Some(v.frames));
    assert(coerce_frames(v.frames) =~= v.frames) by {
        assert forall|a: int| 0 <= a < v.frames.len() implies #[trigger] coerce_frames(v.frames)[a]
            == v.frames[a] by {
            let fa = v.frames[a];
            let ca = fa.map_values(|r: Seq<u8>| r.map_values(|b: u8| coerce_code(b)));
            assert(coerce_frames(v.frames)[a] == ca);
            assert forall|b: int| 0 <= b < fa.len() implies #[trigger] ca[b] == fa[b] by {
                let rb = fa[b];
                let cb = rb.map_values(|x: u8| coerce_code(x));
                assert(ca[b] == cb);
                assert forall|c: int| 0 <= c < rb.len() implies #[trigger] cb[c] == rb[c] by {
                    assert(v.frames[a][b][c] < 128);
                    assert(cb[c] == coerce_code(rb[c]));
                }
                assert(cb =~= rb);
            }
            assert(ca =~= fa);
        }
    }
    assert(coerce_dim(v.width.value as int) == v.width.value);
    assert(coerce_dim(v.height.value as int) == v.height.value);
}

} // verus!
