use vstd::prelude::*;

use crate::scanner::is_digit_char;
use rustc_apfloat::Float;

verus! {

use vstd::string::StrSliceExecFns;

// ---------------------------------------------------------------------------
// Language numbers are IEEE-754 doubles, handled as their 64-bit patterns.
// Reading a numeric literal is done by rustc_apfloat, LLVM's software float
// library; the resulting bits are named by an uninterpreted function of the
// literal's text, which is sound because the conversion is a function of the
// text alone.
// ---------------------------------------------------------------------------
/// The double encoded by a numeric literal's text, read with rounding to
/// nearest, ties to even.
pub uninterp spec fn num_of_text(s: Seq<char>) -> u64;

/// The shape of a numeric literal: digits, then optionally a dot followed by
/// at least one more digit.
pub open spec fn is_number_text(s: Seq<char>) -> bool {
    s.len() >= 1 && ((forall|i: int| 0 <= i < s.len() ==> is_digit_char(#[trigger] s[i])) || (
    exists|k: int|
        {
            &&& 0 < k < s.len() - 1
            &&& s[k] == '.'
            &&& forall|i: int| 0 <= i < k ==> is_digit_char(#[trigger] s[i])
            &&& forall|i: int| k < i < s.len() ==> is_digit_char(#[trigger] s[i])
        }))
}

/// Decides `is_number_text` for a string.
pub fn is_number_string(s: &str) -> (r: bool)
    ensures
        r == is_number_text(s@),
{
    let n = s.unicode_len();
    if n == 0 {
        return false;
    }
    let mut i: usize = 0;
    while i < n && s.get_char(i) >= '0' && s.get_char(i) <= '9'
        invariant
            n == s@.len(),
            0 <= i <= n,
            forall|j: int| 0 <= j < i ==> is_digit_char(#[trigger] s@[j]),
        decreases n - i,
    {
        i += 1;
    }
    if i == 0 {
        // The first character is not a digit.
        assert(!is_number_text(s@)) by {
            assert(!is_digit_char(s@[0]));
        }
        return false;
    }
    if i == n {
        return true;
    }
    // `i` is the first non-digit position.
    let ghost k0 = i as int;
    assert(!is_digit_char(s@[k0]));
    if s.get_char(i) != '.' {
        assert(!is_number_text(s@)) by {
            assert forall|k: int|
                0 < k < s@.len() - 1 && s@[k] == '.' implies !(forall|j: int|
                0 <= j < k ==> is_digit_char(#[trigger] s@[j])) || !(forall|j: int|
                k < j < s@.len() ==> is_digit_char(#[trigger] s@[j])) by {
                if forall|j: int| 0 <= j < k ==> is_digit_char(#[trigger] s@[j]) {
                    assert(k0 <= k);
                    assert(k0 < k ==> is_digit_char(s@[k0]));
                    assert(k == k0 ==> s@[k0] == '.');
                    assert(false);
                }
            }
        }
        return false;
    }
    if i + 1 >= n {
        // A trailing dot: the fraction lacks its digits.
        assert(!is_number_text(s@)) by {
            assert forall|k: int| 0 < k < s@.len() - 1 implies !(s@[k] == '.' && (forall|j: int|
                0 <= j < k ==> is_digit_char(#[trigger] s@[j]))) by {
                if s@[k] == '.' && (forall|j: int| 0 <= j < k ==> is_digit_char(#[trigger] s@[j])) {
                    assert(k >= k0);
                    assert(k > k0 ==> is_digit_char(s@[k0]));
                    assert(k == k0);
                    assert(k0 < s@.len() - 1);
                    assert(false);
                }
            }
        }
        return false;
    }
    let mut j: usize = i + 1;
    while j < n && s.get_char(j) >= '0' && s.get_char(j) <= '9'
        invariant
            n == s@.len(),
            i + 1 <= j <= n,
            forall|m: int| i < m < j ==> is_digit_char(#[trigger] s@[m]),
        decreases n - j,
    {
        j += 1;
    }
    if j == n {
        if j == i + 1 {
            // No digit after the dot.
            assert(false);
        }
        assert(is_number_text(s@)) by {
            assert(0 < k0 < s@.len() - 1);
            assert(s@[k0] == '.');
        }
        return true;
    }
    // A second non-digit: not a plain numeric literal.
    let ghost j0 = j as int;
    assert(!is_digit_char(s@[j0]));
    assert(!is_number_text(s@)) by {
        assert forall|k: int|
            0 < k < s@.len() - 1 && s@[k] == '.' && (forall|m: int|
                0 <= m < k ==> is_digit_char(#[trigger] s@[m])) implies !(forall|m: int|
            k < m < s@.len() ==> is_digit_char(#[trigger] s@[m])) by {
            assert(k >= k0);
            assert(k > k0 ==> is_digit_char(s@[k0]));
            assert(k == k0);
            assert(k0 < j0 < s@.len());
            assert(!is_digit_char(s@[j0]));
        }
        assert(!is_digit_char(s@[k0]));
    }
    false
}

/// Relies on rustc_apfloat's `Double::from_str_r`: correctly rounded
/// decimal-to-double conversion, a function of the text alone.  Text of the
/// numeric-literal shape always parses.
#[verifier::external_body]
pub(crate) fn num_parse(s: &str) -> (r: u64)
    requires
        is_number_text(s@),
    ensures
        r == num_of_text(s@),
{
    match rustc_apfloat::ieee::Double::from_str_r(s, rustc_apfloat::Round::NearestTiesToEven) {
        Ok(sa) => sa.value.to_bits() as u64,
        Err(_) => 0,
    }
}

} // verus!
