use vstd::prelude::*;
use crate::text::{all_digits, digits_in, digits_value, is_digit, lemma_digits_step};

verus! {

/// A non-negative decimal quantity, held exactly as a count of billionths.
#[derive(Clone, Copy, PartialEq, Eq, Structural, Debug)]
pub struct Quantity {
    pub nanos: u64,
}

/// The exact quotient `num / den` of two counts of billionths.
#[derive(Clone, Copy, PartialEq, Eq, Structural, Debug)]
pub struct Fraction {
    pub num: u128,
    pub den: u128,
}

pub const NANOS_PER_UNIT: u64 = 1_000_000_000;

/// The first nine fraction digits, padded with zeros, read as billionths.
pub open spec fn frac_nanos(f: Seq<char>) -> nat {
    digits_value((f + seq!['0', '0', '0', '0', '0', '0', '0', '0', '0']).take(9))
}

/// `p` is where the point stands in a literal `digits.digits`.
pub open spec fn point_at(s: Seq<char>, p: int) -> bool {
    0 < p < s.len() - 1 && s[p] == '.' && all_digits(s.take(p)) && all_digits(s.skip(p + 1))
}

/// The value in billionths that a literal `\d+(\.\d+)?` of ASCII digits
/// writes, fraction digits past the ninth dropped; `None` for any other text
/// and for a value past 64 bits.
pub open spec fn literal_nanos(s: Seq<char>) -> Option<nat> {
    let v = if s.len() > 0 && all_digits(s) {
        Some(digits_value(s) * 1_000_000_000)
    } else if exists|p: int| point_at(s, p) {
        let p = choose|p: int| point_at(s, p);
        Some(digits_value(s.take(p)) * 1_000_000_000 + frac_nanos(s.skip(p + 1)))
    } else {
        None
    };
    if v is Some && v->0 <= u64::MAX {
        v
    } else {
        None
    }
}

fn all_digits_from(s: &str, from: usize) -> (r: bool)
    requires
        from <= s@.len(),
    ensures
        r == all_digits(s@.skip(from as int)),
{
    let n = s.unicode_len();
    let mut i: usize = from;
    while i < n
        invariant
            from <= i <= n == s@.len(),
            forall|k: int| from <= k < i ==> is_digit(#[trigger] s@[k]),
        decreases n - i,
    {
        let c = s.get_char(i);
        if !('0' <= c && c <= '9') {
            assert(!is_digit(s@.skip(from as int)[i - from]));
            return false;
        }
        i = i + 1;
    }
    assert forall|k: int| 0 <= k < s@.skip(from as int).len() implies is_digit(
        #[trigger] s@.skip(from as int)[k],
    ) by {
        assert(s@.skip(from as int)[k] == s@[from + k]);
    }
    true
}

/// The first nine digits from `from` on, padded with zeros, as billionths.
fn fraction_nanos(s: &str, from: usize) -> (r: u64)
    requires
        from <= s@.len(),
        all_digits(s@.skip(from as int)),
    ensures
        r == frac_nanos(s@.skip(from as int)),
        r < NANOS_PER_UNIT,
{
    let n = s.unicode_len();
    let ghost padded = s@.skip(from as int) + seq!['0', '0', '0', '0', '0', '0', '0', '0', '0'];
    let mut acc: u64 = 0;
    let mut k: usize = 0;
    let mut bound: u64 = 1;
    while k < 9
        invariant
            k <= 9,
            n == s@.len(),
            from <= n,
            all_digits(s@.skip(from as int)),
            padded == s@.skip(from as int) + seq!['0', '0', '0', '0', '0', '0', '0', '0', '0'],
            acc == digits_value(padded.take(k as int)),
            acc < bound,
            bound == if k == 0 { 1 } else if k == 1 { 10 } else if k == 2 { 100 } else if k
                == 3 { 1000 } else if k == 4 { 10000 } else if k == 5 { 100000 } else if k == 6 {
                1000000
            } else if k == 7 { 10000000 } else if k == 8 { 100000000 } else { 1000000000u64 },
        decreases 9 - k,
    {
        let c = if k < n - from {
            s.get_char(from + k)
        } else {
            '0'
        };
        proof {
            lemma_digits_step(padded, k as int);
            if k < n - from {
                assert(padded[k as int] == s@.skip(from as int)[k as int]);
                assert(is_digit(s@.skip(from as int)[k as int]));
            } else {
                assert(padded[k as int] == '0');
            }
        }
        let d = (c as u32 - '0' as u32) as u64;
        acc = acc * 10 + d;
        bound = bound * 10;
        k = k + 1;
    }
    acc
}

/// Reads a numeric literal `\d+(\.\d+)?` of ASCII digits, as `str::parse`
/// reads a number: exact to the ninth fraction digit.
pub fn parse_quantity(s: &str) -> (r: Option<Quantity>)
    ensures
        r is Some <==> literal_nanos(s@) is Some,
        r is Some ==> r->0.nanos == literal_nanos(s@)->0,
{
    let n = s.unicode_len();
    let mut p: usize = 0;
    let mut stop = false;
    while p < n && !stop
        invariant
            p <= n == s@.len(),
            forall|k: int| 0 <= k < p ==> is_digit(#[trigger] s@[k]),
            stop ==> p < n && !is_digit(s@[p as int]),
        decreases n - p + if stop { 0int } else { 1int },
    {
        let c = s.get_char(p);
        if '0' <= c && c <= '9' {
            p = p + 1;
        } else {
            stop = true;
        }
    }
    assert(all_digits(s@.take(p as int))) by {
        assert forall|k: int| 0 <= k < p implies is_digit(#[trigger] s@.take(p as int)[k]) by {
            assert(s@.take(p as int)[k] == s@[k]);
        }
    }
    if p == n {
        assert(s@.subrange(0, n as int) =~= s@);
        if n == 0 {
            return None;
        }
        assert(!exists|q: int| point_at(s@, q)) by {
            if exists|q: int| point_at(s@, q) {
                let q = choose|q: int| point_at(s@, q);
                assert(is_digit(s@[q]));
            }
        }
        return match digits_in(s, 0, n) {
            Some(v) => {
                if v <= u64::MAX / NANOS_PER_UNIT {
                    Some(Quantity { nanos: v * NANOS_PER_UNIT })
                } else {
                    None
                }
            },
            None => None,
        };
    }
    assert(!all_digits(s@));
    if p == 0 || s.get_char(p) != '.' || p + 1 >= n || !all_digits_from(s, p + 1) {
        assert(!exists|q: int| point_at(s@, q)) by {
            if exists|q: int| point_at(s@, q) {
                let q = choose|q: int| point_at(s@, q);
                if q < p {
                    assert(s@.take(q)[q - 1] == s@[q - 1]);
                } else if q > p {
                    assert(s@.take(q)[p as int] == s@[p as int]);
                }
                assert(q == p);
            }
        }
        return None;
    }
    assert(point_at(s@, p as int));
    assert forall|q: int| point_at(s@, q) implies q == p by {
        if q < p {
            assert(is_digit(s@[q]));
        } else if q > p {
            assert(s@.take(q)[p as int] == s@[p as int]);
        }
    }
    let frac = fraction_nanos(s, p + 1);
    match digits_in(s, 0, p) {
        Some(v) => {
            assert(s@.subrange(0, p as int) =~= s@.take(p as int));
            if v <= (u64::MAX - frac) / NANOS_PER_UNIT {
                Some(Quantity { nanos: v * NANOS_PER_UNIT + frac })
            } else {
                None
            }
        },
        None => {
            assert(s@.subrange(0, p as int) =~= s@.take(p as int));
            None
        },
    }
}

} // verus!
