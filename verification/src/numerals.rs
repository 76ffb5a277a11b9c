//! Decimal digits: the spec-level meaning of digit strings, a verified
//! printer and parser for `u16` values, and the lemmas tying them together.
//!
//! The numeric text fields of the editor and the serialization codec both
//! speak decimal; everything they claim about digit strings bottoms out here.

use vstd::prelude::*;

verus! {

/// The ten ASCII decimal digits.
pub open spec fn is_dec_digit(c: char) -> bool {
    48 <= c as int && c as int <= 57
}

/// Numeric value of one digit character.
pub open spec fn digit_val(c: char) -> int {
    c as int - 48
}

/// Every character of `s` is a decimal digit.
pub open spec fn all_dec_digits(s: Seq<char>) -> bool {
    forall|i: int| 0 <= i < s.len() ==> is_dec_digit(#[trigger] s[i])
}

/// Value of a digit string read in base ten, most significant digit first.
pub open spec fn digits_val(s: Seq<char>) -> int
    decreases s.len(),
{
    if s.len() == 0 {
        0
    } else {
        digits_val(s.drop_last()) * 10 + digit_val(s.last())
    }
}

/// Canonical decimal rendering of a nonnegative integer: no sign, no
/// leading zeros (except for the single digit of zero itself).
pub open spec fn dec_repr(n: nat) -> Seq<char>
    decreases n,
{
    if n < 10 {
        seq![(48 + n) as char]
    } else {
        dec_repr(n / 10).push((48 + n % 10) as char)
    }
}

/// How a numeric field reads a digit string: the value when the whole
/// string is a nonempty run of digits denoting at most `u16::MAX`, and
/// zero for everything else (empty, stray characters, too large).
pub open spec fn parse_u16_or_zero(s: Seq<char>) -> u16 {
    if s.len() > 0 && all_dec_digits(s) && digits_val(s) <= 0xFFFF {
        digits_val(s) as u16
    } else {
        0
    }
}

/// The digit characters of `s`, in order, everything else dropped.
pub open spec fn digits_of(s: Seq<char>) -> Seq<char>
    decreases s.len(),
{
    if s.len() == 0 {
        Seq::empty()
    } else if is_dec_digit(s.last()) {
        digits_of(s.drop_last()).push(s.last())
    } else {
        digits_of(s.drop_last())
    }
}

pub proof fn lemma_digits_val_nonneg(s: Seq<char>)
    requires
        all_dec_digits(s),
    ensures
        digits_val(s) >= 0,
    decreases s.len(),
{
    if s.len() > 0 {
        assert(all_dec_digits(s.drop_last()));
        lemma_digits_val_nonneg(s.drop_last());
    }
}

/// The canonical rendering is a nonempty digit run denoting `n` again.
pub proof fn lemma_dec_repr_digits(n: nat)
    ensures
        dec_repr(n).len() >= 1,
        all_dec_digits(dec_repr(n)),
        digits_val(dec_repr(n)) == n,
    decreases n,
{
    if n < 10 {
        assert(((48 + n) as char) as int == 48 + n);
        let one = seq![(48 + n) as char];
        assert(dec_repr(n) == one);
        assert(one.drop_last() =~= Seq::<char>::empty());
        assert(digits_val(Seq::<char>::empty()) == 0);
        assert(digits_val(one) == digits_val(one.drop_last()) * 10 + digit_val(one.last()));
    } else {
        lemma_dec_repr_digits(n / 10);
        let c = (48 + n % 10) as char;
        assert(0 <= n % 10 < 10) by {
            vstd::arithmetic::div_mod::lemma_mod_bound(n as int, 10);
        }
        assert(c as int == 48 + n % 10);
        let whole = dec_repr(n / 10).push(c);
        assert(dec_repr(n) == whole);
        assert(whole.drop_last() =~= dec_repr(n / 10));
        assert(whole.last() == c);
        vstd::arithmetic::div_mod::lemma_fundamental_div_mod(n as int, 10);
        assert(digits_val(whole) == digits_val(dec_repr(n / 10)) * 10 + digit_val(c));
        assert forall|i: int| 0 <= i < whole.len() implies is_dec_digit(#[trigger] whole[i]) by {
            if i < whole.len() - 1 {
                assert(whole[i] == dec_repr(n / 10)[i]);
            }
        }
    }
}

/// Printing then re-parsing a `u16` value is the identity.
pub proof fn lemma_parse_of_dec_repr(n: nat)
    requires
        n <= 0xFFFF,
    ensures
        parse_u16_or_zero(dec_repr(n)) == n,
{
    lemma_dec_repr_digits(n);
}

/// Extending a digit prefix by one character multiplies its value by ten.
pub proof fn lemma_digits_val_step(s: Seq<char>, i: int)
    requires
        0 <= i < s.len(),
    ensures
        digits_val(s.take(i + 1)) == digits_val(s.take(i)) * 10 + digit_val(s[i]),
{
    assert(s.take(i + 1).drop_last() =~= s.take(i));
    assert(s.take(i + 1).last() == s[i]);
}

/// Filtering grows by at most the examined prefix, one character at a time.
pub proof fn lemma_digits_of_step(s: Seq<char>, i: int)
    requires
        0 <= i < s.len(),
    ensures
        digits_of(s.take(i + 1)) == if is_dec_digit(s[i]) {
            digits_of(s.take(i)).push(s[i])
        } else {
            digits_of(s.take(i))
        },
{
    assert(s.take(i + 1).drop_last() =~= s.take(i));
    assert(s.take(i + 1).last() == s[i]);
}

/// Whether one character is an ASCII decimal digit.
pub fn is_digit_char(c: char) -> (r: bool)
    ensures
        r == is_dec_digit(c),
{
    '0' <= c && c <= '9'
}

/// Numeric value of a digit character.
pub fn digit_char_val(c: char) -> (r: u8)
    requires
        is_dec_digit(c),
    ensures
        r as int == digit_val(c),
        r < 10,
{
    (c as u8) - 48
}

/// Re-parse a text field: the `u16` its digits denote, or zero when the
/// text is empty, contains a non-digit, or denotes more than `u16::MAX`.
pub fn parse_or_zero(s: &Vec<char>) -> (r: u16)
    ensures
        r == parse_u16_or_zero(s@),
{
    if s.len() == 0 {
        return 0;
    }
    let mut i: usize = 0;
    // `acc` tracks the value of the digits seen so far, saturated at
    // 0x10000 once the value can no longer fit a u16.
    let mut acc: u32 = 0;
    while i < s.len()
        invariant
            0 < s.len(),
            0 <= i <= s.len(),
            all_dec_digits(s@.take(i as int)),
            digits_val(s@.take(i as int)) <= 0xFFFF ==> acc == digits_val(s@.take(i as int)),
            digits_val(s@.take(i as int)) > 0xFFFF ==> acc == 0x10000,
            acc <= 0x10000,
        decreases s.len() - i,
    {
        let c = s[i];
        if !is_digit_char(c) {
            assert(!is_dec_digit(s@[i as int]));
            assert(!all_dec_digits(s@));
            return 0;
        }
        let d = digit_char_val(c);
        proof {
            lemma_digits_val_step(s@, i as int);
            lemma_digits_val_nonneg(s@.take(i as int));
            assert forall|j: int| 0 <= j < i as int + 1 implies is_dec_digit(
                #[trigger] s@.take(i as int + 1)[j],
            ) by {
                assert(s@.take(i as int + 1)[j] == s@[j]);
                if j < i as int {
                    assert(s@.take(i as int)[j] == s@[j]);
                }
            }
        }
        if acc >= 0x10000 {
            // already too large; more digits keep it too large
        } else {
            acc = acc * 10 + d as u32;
            if acc > 0xFFFF {
                acc = 0x10000;
            }
        }
        i += 1;
    }
    assert(s@.take(i as int) =~= s@);
    if acc <= 0xFFFF {
        acc as u16
    } else {
        0
    }
}

/// Canonical decimal rendering of a `u16`, as characters.
pub fn to_dec_chars(n: u16) -> (v: Vec<char>)
    ensures
        v@ == dec_repr(n as nat),
    decreases n,
{
    if n < 10 {
        let c = (48 + n as u8) as char;
        let mut v: Vec<char> = Vec::new();
        v.push(c);
        assert(v@ =~= dec_repr(n as nat));
        v
    } else {
        let mut v = to_dec_chars(n / 10);
        let c = (48 + (n % 10) as u8) as char;
        v.push(c);
        assert(v@ =~= dec_repr(n as nat));
        v
    }
}

/// The digit characters of `s`, in order.
pub fn filter_digits(s: &Vec<char>) -> (v: Vec<char>)
    ensures
        v@ == digits_of(s@),
{
    let mut v: Vec<char> = Vec::new();
    let mut i: usize = 0;
    while i < s.len()
        invariant
            0 <= i <= s.len(),
            v@ == digits_of(s@.take(i as int)),
        decreases s.len() - i,
    {
        proof {
            lemma_digits_of_step(s@, i as int);
        }
        let c = s[i];
        if is_digit_char(c) {
            v.push(c);
        }
        i += 1;
    }
    assert(s@.take(i as int) =~= s@);
    v
}

} // verus!
