//! Offsets are stored in the metadata document as decimal strings.
use vstd::prelude::*;

use crate::ArchiveError;

verus! {

/// A decimal digit.
pub open spec fn is_digit(c: char) -> bool {
    '0' <= c && c <= '9'
}

/// Every character of `s` is a decimal digit.
pub open spec fn all_digits(s: Seq<char>) -> bool {
    forall|i: int| 0 <= i < s.len() ==> is_digit(#[trigger] s[i])
}

/// The number that the digits `s` spell, most significant first.
pub open spec fn decimal_value(s: Seq<char>) -> nat
    decreases s.len(),
{
    if s.len() == 0 {
        0
    } else {
        decimal_value(s.drop_last()) * 10 + (s.last() as nat - '0' as nat) as nat
    }
}

/// `s` without the one leading `+` that it may have.
pub open spec fn unsigned_part(s: Seq<char>) -> Seq<char> {
    if s.len() > 0 && s[0] == '+' {
        s.drop_first()
    } else {
        s
    }
}

/// `s` is an optional `+` and one or more digits whose value fits in 64 bits.
pub open spec fn valid_offset(s: Seq<char>) -> bool {
    &&& unsigned_part(s).len() > 0
    &&& all_digits(unsigned_part(s))
    &&& decimal_value(unsigned_part(s)) <= u64::MAX
}

proof fn lemma_decimal_monotone(s: Seq<char>, j: int, k: int)
    requires
        0 <= j <= k <= s.len(),
        all_digits(s),
    ensures
        decimal_value(s.take(j)) <= decimal_value(s.take(k)),
    decreases k - j,
{
    if j < k {
        lemma_decimal_monotone(s, j, k - 1);
        assert(s.take(k).drop_last() =~= s.take(k - 1));
        assert(is_digit(s[k - 1]));
    }
}

/// The offset that `s` states. Fails with `Format` exactly when `s` is not an optional `+`
/// followed by one or more decimal digits, or its value does not fit in 64 bits.
pub fn parse_offset(s: &str) -> (r: Result<u64, ArchiveError>)
    ensures
        r is Ok <==> valid_offset(s@),
        r is Ok ==> r->Ok_0 == decimal_value(unsigned_part(s@)),
        r is Err ==> r->Err_0 == ArchiveError::Format,
{
    let n = s.unicode_len();
    let mut i: usize = 0;
    if n > 0 && s.get_char(0) == '+' {
        i = 1;
    }
    let ghost digits = unsigned_part(s@);
    let ghost first = i as int;
    assert(digits =~= s@.subrange(first, n as int));
    if i == n {
        return Err(ArchiveError::Format);
    }
    let mut value: u64 = 0;
    while i < n
        invariant
            0 <= first <= i <= n,
            n == s@.len(),
            digits == s@.subrange(first, n as int),
            digits == unsigned_part(s@),
            digits.len() > 0,
            all_digits(digits.take(i - first)),
            value == decimal_value(digits.take(i - first)),
        decreases n - i,
    {
        let c = s.get_char(i);
        let ghost k: int = i - first;
        assert(s@[i as int] == c);
        assert(digits.len() == n - first);
        assert(0 <= k < digits.len());
        assert(digits[k] == s@[first + k]);
        assert(digits[k] == c);
        if c < '0' || c > '9' {
            assert(!is_digit(digits[k]));
            return Err(ArchiveError::Format);
        }
        assert(digits.take(k + 1).drop_last() =~= digits.take(k));
        assert(digits.take(k + 1).last() == c);
        assert(all_digits(digits.take(k + 1))) by {
            assert forall|m: int| 0 <= m < k + 1 implies is_digit(#[trigger] digits.take(k + 1)[m]) by {
                if m < k {
                    assert(digits.take(k + 1)[m] == digits.take(k)[m]);
                }
            }
        }
        let d = (c as u32 - '0' as u32) as u64;
        let next = match value.checked_mul(10) {
            Some(t) => t.checked_add(d),
            None => None,
        };
        match next {
            Some(v) => {
                value = v;
                i = i + 1;
            },
            None => {
                proof {
                    if all_digits(digits) {
                        lemma_decimal_monotone(digits, k + 1, digits.len() as int);
                        assert(digits.take(digits.len() as int) =~= digits);
                    }
                }
                return Err(ArchiveError::Format);
            },
        }
    }
    assert(digits.take(i - first) =~= digits);
    Ok(value)
}

} // verus!
