use vstd::prelude::*;
use vstd::string::*;

verus! {

/// The characters that `str::trim` leaves of a text: the text without its
/// leading and trailing Unicode white space.
pub uninterp spec fn trim_of(s: Seq<char>) -> Seq<char>;

/// The first standalone run of four digits in a text, as the pattern
/// `\b(\d{4})\b` finds it (digits and word boundaries in Unicode's sense).
pub uninterp spec fn year_match(s: Seq<char>) -> Option<Seq<char>>;

/// The first numeric literal in a text, as the pattern `\d+(\.\d+)?` finds it
/// (digits in Unicode's sense).
pub uninterp spec fn numeric_match(s: Seq<char>) -> Option<Seq<char>>;

/// Relies on `str::trim`: leading and trailing white space removed.
#[verifier::external_body]
fn trim_text(s: &str) -> (r: &str)
    ensures
        r@ == trim_of(s@),
{
    s.trim()
}

/// Relies on `regex::Regex::new` and `regex::Regex::find` for the pattern
/// `\b(\d{4})\b`: the leftmost match, if any, as text.
#[verifier::external_body]
pub(crate) fn find_year(s: &str) -> (r: Option<String>)
    ensures
        r is Some <==> year_match(s@) is Some,
        r is Some ==> r->0@ == year_match(s@)->0,
{
    regex::Regex::new(r"\b(\d{4})\b").unwrap().find(s).map(|m| m.as_str().to_string())
}

/// Relies on `regex::Regex::new` and `regex::Regex::find` for the pattern
/// `\d+(\.\d+)?`: the leftmost match, if any, as text.
#[verifier::external_body]
pub(crate) fn find_numeric(s: &str) -> (r: Option<String>)
    ensures
        r is Some <==> numeric_match(s@) is Some,
        r is Some ==> r->0@ == numeric_match(s@)->0,
{
    regex::Regex::new(r"\d+(\.\d+)?").unwrap().find(s).map(|m| m.as_str().to_string())
}

pub open spec fn is_digit(c: char) -> bool {
    '0' <= c && c <= '9'
}

pub open spec fn all_digits(s: Seq<char>) -> bool {
    forall|i: int| 0 <= i < s.len() ==> is_digit(#[trigger] s[i])
}

pub open spec fn digit_value(c: char) -> nat {
    (c as u32 - '0' as u32) as nat
}

/// The number that a run of decimal digits writes.
pub open spec fn digits_value(s: Seq<char>) -> nat
    decreases s.len(),
{
    if s.len() == 0 {
        0
    } else {
        digits_value(s.drop_last()) * 10 + digit_value(s.last())
    }
}

/// What `str::parse::<u32>` gives: an optional `+`, then one or more ASCII
/// digits whose value fits in 32 bits.
pub open spec fn u32_of(s: Seq<char>) -> Option<u32> {
    let d = if s.len() > 0 && s[0] == '+' {
        s.drop_first()
    } else {
        s
    };
    if d.len() > 0 && all_digits(d) && digits_value(d) <= u32::MAX {
        Some(digits_value(d) as u32)
    } else {
        None
    }
}

/// A text is blank when, trimmed, it is empty or the lone dash.
pub open spec fn is_blank(s: Seq<char>) -> bool {
    trim_of(s) == Seq::<char>::empty() || trim_of(s) == seq!['-']
}

pub open spec fn comma_count(s: Seq<char>) -> nat
    decreases s.len(),
{
    if s.len() == 0 {
        0
    } else {
        comma_count(s.drop_last()) + if s.last() == ',' {
            1nat
        } else {
            0nat
        }
    }
}

/// How many pieces splitting a text on `,` gives.
pub open spec fn token_count(s: Seq<char>) -> nat {
    comma_count(s) + 1
}

pub(crate) proof fn lemma_digits_step(s: Seq<char>, i: int)
    requires
        0 <= i < s.len(),
    ensures
        digits_value(s.take(i + 1)) == digits_value(s.take(i)) * 10 + digit_value(s[i]),
{
    assert(s.take(i + 1).drop_last() =~= s.take(i));
}

proof fn lemma_digits_grow(s: Seq<char>, i: int, j: int)
    requires
        0 <= i <= j <= s.len(),
    ensures
        digits_value(s.take(i)) <= digits_value(s.take(j)),
    decreases j - i,
{
    if i < j {
        lemma_digits_grow(s, i, j - 1);
        lemma_digits_step(s, j - 1);
    }
}

/// Reads `s[from..to]` as decimal digits, when they all are ASCII digits and
/// their value fits in 64 bits.
pub(crate) fn digits_in(s: &str, from: usize, to: usize) -> (r: Option<u64>)
    requires
        from <= to <= s@.len(),
    ensures
        r is Some <==> (all_digits(s@.subrange(from as int, to as int)) && digits_value(
            s@.subrange(from as int, to as int),
        ) <= u64::MAX),
        r is Some ==> r->0 == digits_value(s@.subrange(from as int, to as int)),
{
    let ghost d = s@.subrange(from as int, to as int);
    let mut acc: u64 = 0;
    let mut i: usize = from;
    while i < to
        invariant
            from <= i <= to <= s@.len(),
            d == s@.subrange(from as int, to as int),
            all_digits(d.take(i - from)),
            acc == digits_value(d.take(i - from)),
        decreases to - i,
    {
        let c = s.get_char(i);
        proof {
            lemma_digits_step(d, i - from);
            assert(d[i - from] == c);
        }
        if !('0' <= c && c <= '9') {
            assert(!all_digits(d)) by {
                assert(!is_digit(d[i - from]));
            }
            return None;
        }
        let dv = (c as u32 - '0' as u32) as u64;
        if acc > (u64::MAX - dv) / 10 {
            proof {
                assert(digits_value(d.take(i - from + 1)) > u64::MAX);
                lemma_digits_grow(d, i - from + 1, d.len() as int);
                assert(d.take(d.len() as int) =~= d);
            }
            return None;
        }
        acc = acc * 10 + dv;
        i = i + 1;
        proof {
            assert forall|k: int| 0 <= k < d.take(i - from).len() implies is_digit(
                #[trigger] d.take(i - from)[k],
            ) by {
                if k < i - from - 1 {
                    assert(d.take(i - from)[k] == d.take(i - from - 1)[k]);
                }
            }
        }
    }
    assert(d.take(to - from) =~= d);
    Some(acc)
}

/// Reads a text the way `str::parse::<u32>` does.
pub fn parse_u32(s: &str) -> (r: Option<u32>)
    ensures
        r == u32_of(s@),
{
    let n = s.unicode_len();
    let start: usize = if n > 0 && s.get_char(0) == '+' {
        1
    } else {
        0
    };
    assert(s@.subrange(start as int, n as int) =~= (if s@.len() > 0 && s@[0] == '+' {
        s@.drop_first()
    } else {
        s@
    }));
    if start == n {
        return None;
    }
    match digits_in(s, start, n) {
        Some(v) => {
            if v <= u32::MAX as u64 {
                Some(v as u32)
            } else {
                None
            }
        },
        None => None,
    }
}

/// Reports whether an already trimmed text is empty or the lone dash.
pub fn is_blank_trimmed(t: &str) -> (r: bool)
    ensures
        r == (t@ == Seq::<char>::empty() || t@ == seq!['-']),
{
    let n = t.unicode_len();
    if n == 0 {
        assert(t@ =~= Seq::<char>::empty());
        true
    } else if n == 1 && t.get_char(0) == '-' {
        assert(t@ =~= seq!['-']);
        true
    } else {
        assert(t@ != Seq::<char>::empty());
        assert(t@ != seq!['-']) by {
            if t@ == seq!['-'] {
                assert(t@.len() == 1 && t@[0] == '-');
            }
        }
        false
    }
}

/// Reports whether a text is blank: trimmed, empty or the lone dash.
pub fn blank(value: &str) -> (r: bool)
    ensures
        r == is_blank(value@),
{
    is_blank_trimmed(trim_text(value))
}

/// Absent for a blank text, else the text itself, untrimmed.
pub fn check_empty(value: &str) -> (r: Option<String>)
    ensures
        r is None <==> is_blank(value@),
        r is Some ==> r->0@ == value@,
{
    if blank(value) {
        None
    } else {
        Some(String::from_str(value))
    }
}

/// Reports whether splitting a text on `,` gives a single piece.
pub fn single_token(s: &str) -> (r: bool)
    ensures
        r == (token_count(s@) == 1),
{
    let n = s.unicode_len();
    let mut i: usize = 0;
    while i < n
        invariant
            i <= n == s@.len(),
            comma_count(s@.take(i as int)) == 0,
        decreases n - i,
    {
        assert(s@.take(i + 1).drop_last() =~= s@.take(i as int));
        if s.get_char(i) == ',' {
            proof {
                assert(comma_count(s@.take(i + 1)) == 1);
                lemma_comma_count_grows(s@, i + 1, n as int);
                assert(s@.take(n as int) =~= s@);
            }
            return false;
        }
        i = i + 1;
    }
    assert(s@.take(n as int) =~= s@);
    true
}

proof fn lemma_comma_count_grows(s: Seq<char>, i: int, j: int)
    requires
        0 <= i <= j <= s.len(),
    ensures
        comma_count(s.take(i)) <= comma_count(s.take(j)),
    decreases j - i,
{
    if i < j {
        lemma_comma_count_grows(s, i, j - 1);
        assert(s.take(j).drop_last() =~= s.take(j - 1));
    }
    assert(s.take(s.len() as int) =~= s);
}

} // verus!
