//! Validation of numeric command-line arguments: the table's iteration
//! count and plaintext length both have to be `u32` values.

use vstd::prelude::*;

use vstd::string::StrSliceExecFns;
use vstd::string::StringExecFns;

use crate::numeral::{all_dec_digits, dec_value, is_dec_digit};

verus! {

/// The shape `u32::from_str` accepts: an optional leading plus sign, then
/// at least one decimal digit, naming a value that fits in a `u32`.
pub open spec fn valid_u32_numeral(s: Seq<char>) -> bool {
    let digits = if s.len() > 0 && s[0] == '+' {
        s.drop_first()
    } else {
        s
    };
    digits.len() > 0 && all_dec_digits(digits) && dec_value(digits) <= u32::MAX
}

/// Accepts exactly the strings that parse as a `u32`.
pub fn is_u32_arg(v: String) -> (r: Result<(), String>)
    ensures
        r is Ok <==> valid_u32_numeral(v@),
        r is Err ==> r->Err_0@ == "The value is not a valid u32"@,
{
    let n = v.as_str().unicode_len();
    let start: usize = if n > 0 && v.as_str().get_char(0) == '+' {
        1
    } else {
        0
    };
    let ghost digits = if v@.len() > 0 && v@[0] == '+' {
        v@.drop_first()
    } else {
        v@
    };
    proof {
        assert(digits =~= v@.subrange(start as int, n as int));
    }
    if start == n {
        return Err(String::from_str("The value is not a valid u32"));
    }
    let mut val: u64 = 0;
    let mut k = start;
    while k < n
        invariant
            n == v@.len(),
            start <= k <= n,
            digits == v@.subrange(start as int, n as int),
            digits == (if v@.len() > 0 && v@[0] == '+' {
                v@.drop_first()
            } else {
                v@
            }),
            all_dec_digits(v@.subrange(start as int, k as int)),
            val <= u32::MAX ==> val == dec_value(v@.subrange(start as int, k as int)),
            val > u32::MAX ==> dec_value(v@.subrange(start as int, k as int)) > u32::MAX,
            val <= 0xFF_FFFF_FFFFu64,
        decreases n - k,
    {
        let c = v.as_str().get_char(k);
        let ghost pre = v@.subrange(start as int, k as int);
        let ghost cur = v@.subrange(start as int, k + 1);
        proof {
            assert(cur.drop_last() =~= pre);
            assert(cur.last() == v@[k as int]);
        }
        if !(c as u32 >= 48 && c as u32 <= 57) {
            proof {
                assert(digits[(k - start) as int] == v@[k as int]);
                assert((c as u32) as int == c as int);
                assert(!is_dec_digit(digits[(k - start) as int]));
                assert(!all_dec_digits(digits));
            }
            return Err(String::from_str("The value is not a valid u32"));
        }
        let d: u64 = (c as u32 - 48) as u64;
        if val <= 0xFFFF_FFFFu64 {
            val = val * 10 + d;
        }
        proof {
            assert(dec_value(cur) == 10 * dec_value(pre) + (cur.last() as int - 48));
        }
        k = k + 1;
    }
    proof {
        assert(v@.subrange(start as int, n as int) == digits);
    }
    if val <= 0xFFFF_FFFFu64 {
        Ok(())
    } else {
        Err(String::from_str("The value is not a valid u32"))
    }
}

} // verus!
