//! Parsing of human move notation: a column letter followed by a
//! one-based row number, as in "A1" or "c3", with surrounding whitespace
//! ignored and lower case accepted.

use vstd::prelude::*;
use vstd::string::*;

verus! {

/// An ASCII whitespace byte.
pub open spec fn is_space(b: u8) -> bool {
    b == 32 || (9 <= b && b <= 13)
}

/// The first index at or after `i` holding a non-space byte.
pub open spec fn first_content(s: Seq<u8>, i: int) -> int
    recommends
        0 <= i <= s.len(),
    decreases s.len() - i,
{
    if i < s.len() && is_space(s[i]) {
        first_content(s, i + 1)
    } else {
        i
    }
}

/// The end of the last run of non-space bytes before `j`.
pub open spec fn last_content(s: Seq<u8>, j: int) -> int
    recommends
        0 <= j <= s.len(),
    decreases j,
{
    if j > 0 && is_space(s[j - 1]) {
        last_content(s, j - 1)
    } else {
        j
    }
}

/// The input with its leading and trailing ASCII whitespace removed.
pub open spec fn trimmed(s: Seq<u8>) -> Seq<u8> {
    let lo = first_content(s, 0);
    let hi = last_content(s, s.len() as int);
    if hi <= lo {
        Seq::empty()
    } else {
        s.subrange(lo, hi)
    }
}

/// The byte, upper-cased when it is an ASCII lower-case letter.
pub open spec fn upper_byte(b: u8) -> int {
    if 97 <= b <= 122 {
        b - 32
    } else {
        b as int
    }
}

/// Every byte is an ASCII decimal digit, and there is at least one.
pub open spec fn all_digits(s: Seq<u8>) -> bool {
    s.len() > 0 && forall|i: int| 0 <= i < s.len() ==> 48 <= #[trigger] s[i] <= 57
}

/// The value of a string of decimal digits.
pub open spec fn digits_val(s: Seq<u8>) -> int
    decreases s.len(),
{
    if s.len() == 0 {
        0
    } else {
        10 * digits_val(s.drop_last()) + (s.last() - 48)
    }
}

/// The digits of a number, after an optional leading plus sign.
pub open spec fn number_body(s: Seq<u8>) -> Seq<u8> {
    if s.len() > 0 && s[0] == 43 {
        s.drop_first()
    } else {
        s
    }
}

/// The bytes parse as an unsigned decimal number that fits the machine.
pub open spec fn parses_as_number(s: Seq<u8>) -> bool {
    all_digits(number_body(s)) && digits_val(number_body(s)) <= usize::MAX
}

/// What `parse_input` returns for an input with these bytes: after
/// trimming, a column letter A..H (either case) and a one-based row
/// number 1..8; anything else, including a zero or out-of-range row, is
/// rejected.
pub open spec fn parse_spec(s: Seq<u8>) -> Option<(usize, usize)> {
    let t = trimmed(s);
    if t.len() < 2 {
        None
    } else {
        let col = upper_byte(t[0]) - 65;
        let num = t.drop_first();
        if parses_as_number(num) {
            let n = digits_val(number_body(num));
            if 1 <= n <= 8 && 0 <= col < 8 {
                Some((((n - 1) as usize), (col as usize)))
            } else {
                None
            }
        } else {
            None
        }
    }
}

proof fn lemma_digits_val_nonneg(s: Seq<u8>)
    requires
        forall|i: int| 0 <= i < s.len() ==> 48 <= #[trigger] s[i] <= 57,
    ensures
        digits_val(s) >= 0,
    decreases s.len(),
{
    if s.len() > 0 {
        lemma_digits_val_nonneg(s.drop_last());
    }
}

/// Appending digits never shrinks the value of a digit string.
proof fn lemma_digits_val_prefix(s: Seq<u8>, j: int)
    requires
        forall|i: int| 0 <= i < s.len() ==> 48 <= #[trigger] s[i] <= 57,
        0 <= j <= s.len(),
    ensures
        digits_val(s) >= digits_val(s.subrange(0, j)),
    decreases s.len() - j,
{
    if j < s.len() {
        lemma_digits_val_prefix(s, j + 1);
        let a = s.subrange(0, j);
        let b = s.subrange(0, j + 1);
        assert(b.drop_last() =~= a);
        lemma_digits_val_nonneg(a);
    } else {
        assert(s.subrange(0, j) =~= s);
    }
}

proof fn lemma_last_content_le(s: Seq<u8>, j: int)
    requires
        0 <= j,
    ensures
        last_content(s, j) <= j,
    decreases j,
{
    if j > 0 && is_space(s[j - 1]) {
        lemma_last_content_le(s, j - 1);
    }
}

/// Turn a move string such as "A1" or " c3 " into zero-based (row, col)
/// grid coordinates, or `None` when the input does not name a cell.
#[verifier::loop_isolation(false)]
pub fn parse_input(input: &str) -> (r: Option<(usize, usize)>)
    ensures
        r == parse_spec(input.spec_bytes()),
{
    let bytes = input.as_bytes();
    let ghost s = bytes@;
    let n = bytes.len();
    let mut lo: usize = 0;
    while lo < n && (bytes[lo] == 32 || (9 <= bytes[lo] && bytes[lo] <= 13))
        invariant
            0 <= lo <= n,
            first_content(s, 0) == first_content(s, lo as int),
        decreases n - lo,
    {
        lo += 1;
    }
    let mut hi: usize = n;
    while hi > lo && (bytes[hi - 1] == 32 || (9 <= bytes[hi - 1] && bytes[hi - 1] <= 13))
        invariant
            lo <= hi <= n,
            last_content(s, n as int) == last_content(s, hi as int),
        decreases hi,
    {
        hi -= 1;
    }
    proof {
        assert(first_content(s, lo as int) == lo as int);
        if hi == lo {
            lemma_last_content_le(s, hi as int);
            assert(last_content(s, n as int) <= first_content(s, 0));
        } else {
            assert(last_content(s, hi as int) == hi as int);
            assert(trimmed(s) =~= s.subrange(lo as int, hi as int));
        }
    }
    let ghost t = trimmed(s);
    if hi - lo < 2 {
        return None;
    }
    // The column letter, upper-cased when lower case.
    let b0 = bytes[lo];
    let ub: u8 = if 97 <= b0 && b0 <= 122 {
        b0 - 32
    } else {
        b0
    };
    proof {
        assert(t[0] == s[lo as int]);
        assert(ub as int == upper_byte(t[0]));
    }
    // The row number: optional plus sign, then decimal digits.
    let ghost num = t.drop_first();
    let start: usize = if bytes[lo + 1] == 43 {
        lo + 2
    } else {
        lo + 1
    };
    proof {
        assert(num =~= s.subrange(lo as int + 1, hi as int));
        assert(number_body(num) =~= s.subrange(start as int, hi as int));
    }
    let ghost body = number_body(num);
    if start == hi {
        // No digits at all: not a number.
        return None;
    }
    let mut val: usize = 0;
    let mut idx: usize = start;
    while idx < hi
        invariant
            start <= idx <= hi,
            start < hi,
            forall|i: int| start <= i < idx ==> 48 <= #[trigger] s[i] <= 57,
            val as int == digits_val(s.subrange(start as int, idx as int)),
        decreases hi - idx,
    {
        let b = bytes[idx];
        if b < 48 || b > 57 {
            // A non-digit byte: not a number.
            proof {
                assert(body[idx - start] == s[idx as int]);
                assert(!all_digits(body));
            }
            return None;
        }
        let d = (b - 48) as usize;
        if val > (usize::MAX - d) / 10 {
            // The number does not fit the machine.
            proof {
                let pre = s.subrange(start as int, idx as int + 1);
                assert(pre.drop_last() =~= s.subrange(start as int, idx as int));
                assert(digits_val(pre) == 10 * val + d > usize::MAX);
                assert(pre =~= body.subrange(0, idx - start + 1));
                if all_digits(body) {
                    lemma_digits_val_prefix(body, idx - start + 1);
                    assert(digits_val(body.subrange(0, idx - start + 1)) == digits_val(pre));
                }
            }
            return None;
        }
        val = val * 10 + d;
        proof {
            let pre = s.subrange(start as int, idx as int + 1);
            assert(pre.drop_last() =~= s.subrange(start as int, idx as int));
        }
        idx += 1;
    }
    proof {
        assert(body =~= s.subrange(start as int, hi as int));
        assert(all_digits(body));
        assert(val as int == digits_val(body));
    }
    if 1 <= val && val <= 8 && 65 <= ub && ub <= 72 {
        Some((val - 1, (ub - 65) as usize))
    } else {
        None
    }
}

} // verus!
