//! Parsing of a pair of unsigned decimal numbers written around a separator,
//! such as grid dimensions `640x480`.
use vstd::prelude::*;
use vstd::string::StringSliceAdditionalSpecFns;

verus! {

/// Whether `c` is an ASCII decimal digit.
pub open spec fn is_digit(c: u8) -> bool {
    48 <= c <= 57
}

/// The value of a string of decimal digits.
pub open spec fn digits_value(s: Seq<u8>) -> int
    decreases s.len(),
{
    if s.len() == 0 {
        0
    } else {
        digits_value(s.drop_last()) * 10 + (s.last() - 48)
    }
}

/// The digits of an unsigned decimal number: an optional leading `+` is dropped.
pub open spec fn unsigned_digits(s: Seq<u8>) -> Seq<u8> {
    if s.len() > 0 && s[0] == 43 {
        s.drop_first()
    } else {
        s
    }
}

/// The number written in `s`: an optional `+` then at least one digit, with
/// a value that fits in `usize`.
pub open spec fn decimal_of(s: Seq<u8>) -> Option<int> {
    let d = unsigned_digits(s);
    if d.len() > 0 && (forall|i: int| 0 <= i < d.len() ==> is_digit(d[i])) && digits_value(d)
        <= usize::MAX {
        Some(digits_value(d))
    } else {
        None
    }
}

/// Whether `i` is the first index of `sep` in `s`.
pub open spec fn first_index(s: Seq<u8>, sep: u8, i: int) -> bool {
    &&& 0 <= i < s.len()
    &&& s[i] == sep
    &&& forall|k: int| 0 <= k < i ==> s[k] != sep
}

/// The pair written in `s` as two numbers around the first `sep`.
pub open spec fn pair_of(s: Seq<u8>, sep: u8) -> Option<(int, int)> {
    if exists|i: int| first_index(s, sep, i) {
        let i = choose|i: int| first_index(s, sep, i);
        match (decimal_of(s.subrange(0, i)), decimal_of(s.subrange(i + 1, s.len() as int))) {
            (Some(a), Some(b)) => Some((a, b)),
            _ => None,
        }
    } else {
        None
    }
}

/// The number written in `b[lo..hi]`.
fn parse_decimal(b: &[u8], lo: usize, hi: usize) -> (r: Option<usize>)
    requires
        lo <= hi <= b@.len(),
    ensures
        match (r, decimal_of(b@.subrange(lo as int, hi as int))) {
            (Some(n), Some(v)) => n == v,
            (None, None) => true,
            _ => false,
        },
{
    let ghost s = b@.subrange(lo as int, hi as int);
    let mut start: usize = lo;
    if lo < hi && b[lo] == 43u8 {
        start = lo + 1;
    }
    let ghost d = b@.subrange(start as int, hi as int);
    assert(d =~= unsigned_digits(s));
    if start == hi {
        return None;
    }
    let mut acc: usize = 0;
    let mut i: usize = start;
    while i < hi
        invariant
            start <= i <= hi <= b@.len(),
            d == b@.subrange(start as int, hi as int),
            d == unsigned_digits(s),
            s == b@.subrange(lo as int, hi as int),
            d.len() > 0,
            forall|k: int| 0 <= k < i - start ==> is_digit(d[k]),
            acc == digits_value(d.subrange(0, i - start)),
        decreases hi - i,
    {
        let c = b[i];
        assert(d.subrange(0, i - start + 1).drop_last() =~= d.subrange(0, i - start));
        if c < 48u8 || c > 57u8 {
            assert(d[i - start] == c);
            assert(!is_digit(d[i - start]));
            assert(decimal_of(s) is None);
            return None;
        }
        let next = match acc.checked_mul(10) {
            Some(m) => m.checked_add((c - 48u8) as usize),
            None => None,
        };
        match next {
            Some(n) => {
                acc = n;
            },
            None => {
                proof {
                    assert(d[i - start] == c);
                    assert(digits_value(d.subrange(0, i - start + 1)) > usize::MAX);
                    if forall|k: int| 0 <= k < d.len() ==> is_digit(d[k]) {
                        lemma_digits_value_grows(d, (i - start + 1) as int);
                    }
                    assert(decimal_of(s) is None);
                }
                return None;
            },
        }
        i = i + 1;
    }
    assert(d.subrange(0, d.len() as int) =~= d);
    Some(acc)
}

/// A longer prefix of digits has at least the value of a shorter one.
proof fn lemma_digits_value_grows(d: Seq<u8>, n: int)
    requires
        0 <= n <= d.len(),
        forall|k: int| 0 <= k < d.len() ==> is_digit(d[k]),
    ensures
        digits_value(d.subrange(0, n)) <= digits_value(d),
    decreases d.len() - n,
{
    if n < d.len() {
        lemma_digits_value_grows(d, n + 1);
        assert(d.subrange(0, n + 1).drop_last() =~= d.subrange(0, n));
        lemma_digits_value_nonneg(d.subrange(0, n));
    } else {
        assert(d.subrange(0, n) =~= d);
    }
}

/// The value of digits is never negative.
proof fn lemma_digits_value_nonneg(d: Seq<u8>)
    requires
        forall|k: int| 0 <= k < d.len() ==> is_digit(d[k]),
    ensures
        digits_value(d) >= 0,
    decreases d.len(),
{
    if d.len() > 0 {
        lemma_digits_value_nonneg(d.drop_last());
    }
}

/// Reads two unsigned decimal numbers written around the first `separator`
/// byte of `s`, such as `640x480`; `None` when there is no separator or
/// either side is not a number that fits in `usize`.
pub fn parse_pair(s: &str, separator: u8) -> (r: Option<(usize, usize)>)
    ensures
        match (r, pair_of(s.spec_bytes(), separator)) {
            (Some(p), Some(v)) => p.0 == v.0 && p.1 == v.1,
            (None, None) => true,
            _ => false,
        },
{
    let b = s.as_bytes();
    let mut i: usize = 0;
    while i < b.len()
        invariant
            i <= b@.len(),
            b@ == s.spec_bytes(),
            forall|k: int| 0 <= k < i ==> b@[k] != separator,
        decreases b@.len() - i,
    {
        if b[i] == separator {
            assert(first_index(b@, separator, i as int));
            proof {
                assert forall|j: int| first_index(b@, separator, j) implies j == i by {
                    if j < i {
                    } else if j > i {
                        assert(b@[i as int] == separator);
                    }
                }
            }
            return match (parse_decimal(b, 0, i), parse_decimal(b, i + 1, b.len())) {
                (Some(x), Some(y)) => Some((x, y)),
                _ => None,
            };
        }
        i = i + 1;
    }
    None
}

} // verus!
