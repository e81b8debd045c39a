//! The reduction function: maps a digest string to a plaintext of a fixed
//! length over the lowercase alphabet, parameterized by a column index so
//! that different chain columns apply effectively different reductions.

use vstd::prelude::*;

use vstd::arithmetic::div_mod::{lemma_div_denominator, lemma_small_mod};
use vstd::arithmetic::power::{lemma_pow_increases, lemma_pow_positive, pow};

use crate::bignum::{
    biguint_add_u32, biguint_div_rem, biguint_from_u32, biguint_of, biguint_parse, biguint_to_u32,
};
use crate::numeral::{
    all_dec_digits, byte_decimal, dec_digit, dec_value, digest_numeral, lemma_digest_numeral_shape,
};
use crate::strutil::push_char;

verus! {

/// Failure of a reduction step.
#[derive(Debug, PartialEq, Eq)]
pub enum ReductionError {
    /// The digest could not be read as a decimal numeral.
    Format,
    /// An arithmetic or encoding impossibility; a defect signal.
    Other { message: String },
}

/// `26^e`: the size of the plaintext space with `e` letter positions.
pub open spec fn pow26(e: nat) -> nat {
    pow(26, e) as nat
}

/// The letter that position `t` of the reduced plaintext takes, when the
/// digest-derived numeral plus column offset is `m`: the base-26 digits of
/// `m` in increasing significance, each mapped onto `'a'..='z'`.
pub open spec fn reduce_char(m: nat, t: nat) -> char {
    (97 + ((m / pow26(t)) % 26)) as char
}

/// The reduced plaintext of length `l` for combined value `m`.
pub open spec fn reduce_seq(m: nat, l: nat) -> Seq<char> {
    Seq::new(l, |t: int| reduce_char(m, t as nat))
}

/// The combined value the reduction works from: the digest's numeral plus
/// the column index taken modulo the plaintext-space size.
pub open spec fn reduce_value(d: Seq<char>, l: nat, i: nat) -> nat {
    dec_value(digest_numeral(d)) + i % pow26(l)
}

/// What `reduction_function1` returns on a nonempty digest `d` with
/// plaintext length `l` and column index `i`.
pub open spec fn reduce_spec(d: Seq<char>, l: nat, i: nat) -> Seq<char> {
    reduce_seq(reduce_value(d, l, i), l)
}

/// One more letter position multiplies the plaintext-space size by 26.
proof fn lemma_pow26_succ(e: nat)
    ensures
        pow26(e + 1) == 26 * pow26(e),
{
    lemma_pow_positive(26, e);
    lemma_pow_positive(26, e + 1);
    vstd::arithmetic::power::lemma_pow1(26);
    vstd::arithmetic::power::lemma_pow_adds(26, e, 1);
}

/// `index % 26^length`, computed in machine words: once the power exceeds
/// `u32::MAX` the remainder is the index itself.
fn index_mod_pow26(index: u32, length: u32) -> (c: u32)
    ensures
        c as nat == index as nat % pow26(length as nat),
{
    let mut p: u64 = 1;
    let mut t: u32 = 0;
    proof {
        vstd::arithmetic::power::lemma_pow0(26);
    }
    while t < length
        invariant
            0 <= t <= length,
            p as nat == pow26(t as nat),
        decreases length - t,
    {
        if p > u32::MAX as u64 {
            proof {
                lemma_pow_positive(26, t as nat);
                lemma_pow_positive(26, length as nat);
                lemma_pow_increases(26, t as nat, length as nat);
                assert((index as nat) < pow26(length as nat));
                lemma_small_mod(index as nat, pow26(length as nat));
            }
            return index;
        }
        proof {
            lemma_pow_positive(26, t as nat);
            lemma_pow26_succ(t as nat);
        }
        p = p * 26;
        t = t + 1;
    }
    proof {
        lemma_pow_positive(26, length as nat);
        if index as nat >= pow26(length as nat) {
            vstd::arithmetic::div_mod::lemma_mod_decreases(index as nat, pow26(length as nat));
        } else {
            lemma_small_mod(index as nat, pow26(length as nat));
        }
    }
    (index as u64 % p) as u32
}

/// Reduces a digest to a plaintext password of exactly `length` lowercase
/// letters: the digest's characters' byte values, written in decimal and
/// concatenated, are parsed as one unbounded integer; the column `index`
/// (modulo `26^length`) is added; the result's base-26 digits, least
/// significant first, become the letters.
///
/// Fails with `ReductionError::Format` exactly when the digest is empty,
/// the one shape whose numeral cannot be parsed.
pub fn reduction_function1(hash_str: &str, length: u32, index: u32) -> (r: Result<
    String,
    ReductionError,
>)
    ensures
        r is Ok <==> hash_str@.len() > 0,
        hash_str@.len() > 0 ==> r->Ok_0@ == reduce_spec(
            hash_str@,
            length as nat,
            index as nat,
        ),
        hash_str@.len() == 0 ==> r == Err::<String, ReductionError>(ReductionError::Format),
{
    let ghost d = hash_str@;
    let n = hash_str.unicode_len();
    let mut numeral = String::new();
    let mut k: usize = 0;
    while k < n
        invariant
            n == d.len(),
            hash_str@ == d,
            0 <= k <= n,
            numeral@ == digest_numeral(d.take(k as int)),
        decreases n - k,
    {
        let c = hash_str.get_char(k);
        let b: u8 = #[verifier::truncate] (c as u8);
        let ghost before = numeral@;
        if b >= 100 {
            push_char(&mut numeral, (48 + b / 100) as char);
        }
        if b >= 10 {
            push_char(&mut numeral, (48 + (b / 10) % 10) as char);
        }
        push_char(&mut numeral, (48 + b % 10) as char);
        proof {
            let bn = b as nat;
            if bn >= 100 {
                assert(numeral@ =~= before + byte_decimal(bn));
            } else if bn >= 10 {
                assert((b / 10) % 10 == b / 10) by {
                    lemma_small_mod((b / 10) as nat, 10);
                };
                assert(numeral@ =~= before + byte_decimal(bn));
            } else {
                assert(numeral@ =~= before + byte_decimal(bn));
            }
            assert(d.take(k + 1).drop_last() =~= d.take(k as int));
            assert(d.take(k + 1).last() == d[k as int]);
            assert(numeral@ == digest_numeral(d.take(k + 1)));
        }
        k = k + 1;
    }
    proof {
        assert(d.take(n as int) =~= d);
        lemma_digest_numeral_shape(d);
    }
    let parsed = biguint_parse(numeral.as_str());
    let number0 = match parsed {
        Ok(number) => number,
        Err(_) => {
            return Err(ReductionError::Format);
        },
    };
    let c = index_mod_pow26(index, length);
    let ghost m = reduce_value(d, length as nat, index as nat);
    let mut number = biguint_add_u32(number0, c);
    let div26 = biguint_from_u32(26);
    let mut result = String::new();
    let mut t: u32 = 0;
    proof {
        assert(pow26(0) == 1) by {
            vstd::arithmetic::power::lemma_pow0(26);
        };
    }
    while t < length
        invariant
            0 <= t <= length,
            biguint_of(number) == m / pow26(t as nat),
            biguint_of(div26) == 26,
            result@.len() == t,
            forall|j: int| 0 <= j < t ==> result@[j] == reduce_char(m, j as nat),
        decreases length - t,
    {
        let (q, rem) = biguint_div_rem(&number, &div26);
        let rem32 = match biguint_to_u32(&rem) {
            Some(v) => v,
            None => {
                proof {
                    assert(false);
                }
                0
            },
        };
        let ch = (97 + rem32 as u8) as char;
        push_char(&mut result, ch);
        number = q;
        proof {
            lemma_pow_positive(26, t as nat);
            lemma_div_denominator(m as int, pow26(t as nat) as int, 26);
            lemma_pow26_succ(t as nat);
            assert(pow26((t + 1) as nat) == pow26(t as nat) * 26);
            assert(biguint_of(number) == m / pow26((t + 1) as nat));
            assert(result@[t as int] == reduce_char(m, t as nat));
        }
        t = t + 1;
    }
    proof {
        assert(result@ =~= reduce_spec(d, length as nat, index as nat));
    }
    Ok(result)
}

} // verus!
