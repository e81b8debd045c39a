//! Decimal numerals over character sequences: the shape shared by the
//! digest-derived numeral that the reduction step parses and by ordinary
//! unsigned decimal input.

use vstd::prelude::*;

verus! {

/// The character for a single decimal digit value.
pub open spec fn dec_digit(v: nat) -> char
    recommends
        v < 10,
{
    (48 + v) as char
}

/// Whether `c` is an ASCII decimal digit.
pub open spec fn is_dec_digit(c: char) -> bool {
    48 <= c as int <= 57
}

/// Whether every character of `s` is an ASCII decimal digit.
pub open spec fn all_dec_digits(s: Seq<char>) -> bool {
    forall|i: int| 0 <= i < s.len() ==> is_dec_digit(#[trigger] s[i])
}

/// The value of a decimal numeral, most significant digit first.
pub open spec fn dec_value(s: Seq<char>) -> nat
    decreases s.len(),
{
    if s.len() == 0 {
        0
    } else {
        (10 * dec_value(s.drop_last()) + (s.last() as int - 48)) as nat
    }
}

/// The decimal representation of a byte value: one to three digits,
/// no leading zeros.
pub open spec fn byte_decimal(b: nat) -> Seq<char>
    recommends
        b < 256,
{
    if b < 10 {
        seq![dec_digit(b)]
    } else if b < 100 {
        seq![dec_digit(b / 10), dec_digit(b % 10)]
    } else {
        seq![dec_digit(b / 100), dec_digit((b / 10) % 10), dec_digit(b % 10)]
    }
}

/// The numeral a digest is read as: the decimal representations of its
/// characters' byte values, concatenated in order.
pub open spec fn digest_numeral(d: Seq<char>) -> Seq<char>
    decreases d.len(),
{
    if d.len() == 0 {
        Seq::empty()
    } else {
        digest_numeral(d.drop_last()) + byte_decimal(d.last() as u8 as nat)
    }
}

/// A digest's numeral consists of decimal digits alone, and is empty
/// exactly when the digest is.
pub proof fn lemma_digest_numeral_shape(d: Seq<char>)
    ensures
        all_dec_digits(digest_numeral(d)),
        digest_numeral(d).len() == 0 <==> d.len() == 0,
    decreases d.len(),
{
    if d.len() > 0 {
        lemma_digest_numeral_shape(d.drop_last());
        let b = d.last() as u8 as nat;
        assert(b < 256);
        assert(all_dec_digits(byte_decimal(b)));
    }
}

} // verus!
