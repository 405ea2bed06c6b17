//! Compact two-digit-year/month/day date codes.
//!
//! A `Date` is decoded from a six-digit `YYMMDD` integer by integer
//! division; components are not range-validated beyond the truncation to
//! eight bits that the decoding performs.

use vstd::prelude::*;
use core::cmp::Ordering;
use crate::node::Node;
use crate::text::digits_value;
use crate::text::int_literal_value;
use crate::text::is_dec_digit;
use crate::text::is_i64_string;
use crate::text::lemma_pow10_6;
use crate::text::lemma_pow10_monotone;
use crate::text::lemma_pow10_step;
use crate::text::pad2;
use crate::text::parse_i64;
use crate::text::pow10;
use crate::text::push_pad2;
use crate::text::str_eq;

verus! {

/// A date code with two-digit year, month and day components.
///
/// The components are whatever the `YYMMDD` decomposition of the source
/// integer produced; month and day are not validated against the calendar.
#[derive(Debug, PartialEq, Eq, Structural, Clone, Copy)]
pub struct Date {
    pub year: u8,
    pub month: u8,
    pub day: u8,
}

/// Truncating (round-toward-zero) division, as the `/` of `i64` performs it.
pub open spec fn trunc_div(n: int, d: int) -> int
    recommends
        d > 0,
{
    if n >= 0 {
        n / d
    } else {
        -((-n) / d)
    }
}

/// Remainder paired with `trunc_div`, as the `%` of `i64` performs it.
pub open spec fn trunc_rem(n: int, d: int) -> int
    recommends
        d > 0,
{
    n - d * trunc_div(n, d)
}

/// The low eight bits of an integer, as an `as u8` cast keeps them.
pub open spec fn low_byte(x: int) -> u8 {
    (((x % 256) + 256) % 256) as u8
}

/// The year component that decoding `n` produces.
pub open spec fn year_of(n: int) -> u8 {
    low_byte(trunc_div(n, 10000))
}

/// The month component that decoding `n` produces.
pub open spec fn month_of(n: int) -> u8 {
    low_byte(trunc_rem(trunc_div(n, 100), 100))
}

/// The day component that decoding `n` produces.
pub open spec fn day_of(n: int) -> u8 {
    low_byte(trunc_rem(n, 100))
}

/// The date that decoding `n` produces.
pub open spec fn date_of_int(n: int) -> Date {
    Date { year: year_of(n), month: month_of(n), day: day_of(n) }
}

/// The three-level lexicographic comparison of two dates: year first,
/// then month, then day.
pub open spec fn spec_cmp(a: Date, b: Date) -> Ordering {
    if a.year != b.year {
        if a.year < b.year {
            Ordering::Less
        } else {
            Ordering::Greater
        }
    } else if a.month != b.month {
        if a.month < b.month {
            Ordering::Less
        } else {
            Ordering::Greater
        }
    } else if a.day != b.day {
        if a.day < b.day {
            Ordering::Less
        } else {
            Ordering::Greater
        }
    } else {
        Ordering::Equal
    }
}

/// Whether a string starts with six decimal digits.
pub open spec fn leading_six_digits(s: Seq<char>) -> bool {
    s.len() >= 6 && forall|i: int| 0 <= i < 6 ==> is_dec_digit(#[trigger] s[i])
}

/// The value of the six leading digits of a string.
pub open spec fn six_digit_prefix_value(s: Seq<char>) -> int {
    digits_value(s.subrange(0, 6))
}

/// Looks a text key up in a run of mapping entries: the first entry whose
/// key is that text, if any.
pub open spec fn mapping_lookup(es: Seq<(Node, Node)>, key: Seq<char>) -> Option<Node>
    decreases es.len(),
{
    if es.len() == 0 {
        None
    } else {
        match es[0].0 {
            Node::Str(k) => if k@ == key {
                Some(es[0].1)
            } else {
                mapping_lookup(es.skip(1), key)
            },
            _ => mapping_lookup(es.skip(1), key),
        }
    }
}

/// The date a document's `date` field resolves to: an integer field is
/// decoded directly, a string field is decoded when it parses as an
/// integer, and anything else (or a non-mapping document) gives none.
pub open spec fn date_from_node(n: Node) -> Option<Date> {
    match n {
        Node::Mapping(es) => match mapping_lookup(es@, "date"@) {
            Some(Node::Integer(v)) => Some(date_of_int(v as int)),
            Some(Node::Str(s)) => if is_i64_string(s@) {
                Some(date_of_int(int_literal_value(s@)))
            } else {
                None
            },
            _ => None,
        },
        _ => None,
    }
}

impl Date {
    /// The canonical textual form: each component zero-padded to two
    /// digits and concatenated, six characters whenever every component
    /// fits in two digits.
    pub open spec fn canonical(self) -> Seq<char> {
        pad2(self.year as nat) + pad2(self.month as nat) + pad2(self.day as nat)
    }

    /// Renders the date in its canonical zero-padded form.
    pub fn to_string(&self) -> (r: String)
        ensures
            r@ == self.canonical(),
    {
        let mut s = String::new();
        push_pad2(&mut s, self.year);
        push_pad2(&mut s, self.month);
        push_pad2(&mut s, self.day);
        proof {
            assert(s@ =~= self.canonical());
        }
        s
    }

    /// Compares two dates: year first, then month, then day.
    pub fn cmp(&self, other: &Date) -> (r: Ordering)
        ensures
            r == spec_cmp(*self, *other),
            r == Ordering::Equal <==> *self == *other,
    {
        if other.year < self.year {
            return Ordering::Greater;
        } else if other.year > self.year {
            return Ordering::Less;
        }
        if other.month < self.month {
            return Ordering::Greater;
        } else if other.month > self.month {
            return Ordering::Less;
        }
        if other.day < self.day {
            return Ordering::Greater;
        } else if other.day > self.day {
            return Ordering::Less;
        }
        Ordering::Equal
    }

    /// Reads a date from a filename that starts with six decimal digits.
    pub fn from_filename(filename: &str) -> (r: Option<Date>)
        ensures
            match r {
                Some(d) => leading_six_digits(filename@) && d == date_of_int(
                    six_digit_prefix_value(filename@),
                ),
                None => !leading_six_digits(filename@),
            },
    {
        let len: usize = filename.unicode_len();
        if len < 6 {
            return None;
        }
        let mut n: u64 = 0;
        let mut i: usize = 0;
        while i < 6
            invariant
                0 <= i <= 6,
                len >= 6,
                len == filename@.len(),
                forall|k: int| 0 <= k < i ==> is_dec_digit(#[trigger] filename@[k]),
                n == digits_value(filename@.subrange(0, i as int)),
                n < pow10(i as nat),
        decreases 6 - i,
        {
            let c: char = filename.get_char(i);
            let cv: u32 = c as u32;
            if cv < 48 || cv > 57 {
                return None;
            }
            proof {
                assert(filename@.subrange(0, i + 1 as int).drop_last() =~= filename@.subrange(
                    0,
                    i as int,
                ));
                assert(filename@.subrange(0, i + 1 as int).last() == filename@[i as int]);
                lemma_pow10_step(i as nat);
                lemma_pow10_monotone(i as nat, 5);
                lemma_pow10_step(5);
                lemma_pow10_6();
            }
            n = n * 10 + (cv - 48) as u64;
            i = i + 1;
        }
        proof {
            lemma_pow10_6();
        }
        Some(Date::from_i64(n as i64))
    }

    /// Reads a date from a document's `date` field: an integer field
    /// directly, a string field through integer parsing.
    pub fn from_yaml(yaml: &Node) -> (r: Option<Date>)
        ensures
            r == date_from_node(*yaml),
    {
        match yaml {
            Node::Mapping(entries) => {
                let mut i: usize = 0;
                proof {
                    assert(entries@.skip(0) =~= entries@);
                }
                while i < entries.len()
                    invariant
                        0 <= i <= entries.len(),
                        *yaml == Node::Mapping(*entries),
                        mapping_lookup(entries@, "date"@) == mapping_lookup(
                            entries@.skip(i as int),
                            "date"@,
                        ),
                    decreases entries.len() - i,
                {
                    let pair = &entries[i];
                    proof {
                        assert(entries@.skip(i as int)[0] == entries@[i as int]);
                        assert(entries@.skip(i as int).skip(1) =~= entries@.skip(i + 1 as int));
                    }
                    let mut matched = false;
                    if let Node::Str(k) = &pair.0 {
                        if str_eq(k.as_str(), "date") {
                            matched = true;
                        }
                    }
                    if matched {
                        proof {
                            assert(mapping_lookup(entries@, "date"@) == Some(
                                entries@[i as int].1,
                            ));
                        }
                        match &pair.1 {
                            Node::Integer(v) => {
                                return Some(Date::from_i64(*v));
                            },
                            Node::Str(s) => {
                                match parse_i64(s.as_str()) {
                                    Some(v) => {
                                        return Some(Date::from_i64(v));
                                    },
                                    None => {
                                        return None;
                                    },
                                }
                            },
                            _ => {
                                return None;
                            },
                        }
                    }
                    i = i + 1;
                }
                proof {
                    assert(entries@.skip(entries.len() as int).len() == 0);
                }
                None
            },
            _ => None,
        }
    }

    /// Decodes a `YYMMDD` integer into its three components.
    pub fn from_i64(integer_date: i64) -> (d: Date)
        ensures
            d == date_of_int(integer_date as int),
            0 <= integer_date <= 999999 ==> {
                &&& d.year == integer_date / 10000
                &&& d.month == (integer_date / 100) % 100
                &&& d.day == integer_date % 100
            },
    {
        if integer_date >= 0 {
            let nu: u64 = integer_date as u64;
            let year: u8 = ((nu / 10000) % 256) as u8;
            let month: u8 = ((nu / 100) % 100) as u8;
            let day: u8 = (nu % 100) as u8;
            Date { year, month, day }
        } else {
            let m: u64 = (-(integer_date as i128)) as u64;
            let yq: u64 = (m / 10000) % 256;
            let mq: u64 = (m / 100) % 100;
            let dq: u64 = m % 100;
            let year: u8 = ((256 - yq) % 256) as u8;
            let month: u8 = ((256 - mq) % 256) as u8;
            let day: u8 = ((256 - dq) % 256) as u8;
            proof {
                lemma_negative_decode(integer_date as int, m as int);
            }
            Date { year, month, day }
        }
    }
}

/// Decoding a six-digit integer and rendering the canonical form gives a
/// six-digit string that decodes back to exactly that integer.
pub proof fn lemma_canonical_round_trip(n: int)
    requires
        0 <= n <= 999999,
    ensures
        date_of_int(n).canonical().len() == 6,
        crate::text::all_dec_digits(date_of_int(n).canonical()),
        digits_value(date_of_int(n).canonical()) == n,
{
    let d = date_of_int(n);
    let q = n / 100;
    vstd::arithmetic::div_mod::lemma_fundamental_div_mod(n, 100);
    vstd::arithmetic::div_mod::lemma_fundamental_div_mod(q, 100);
    vstd::arithmetic::div_mod::lemma_div_denominator(n, 100, 100);
    assert(n / 10000 == q / 100);
    assert(d.year == n / 10000);
    assert(d.month == (n / 100) % 100);
    assert(d.day == n % 100);
    crate::text::lemma_pad2_digits(d.year as nat);
    crate::text::lemma_pad2_digits(d.month as nat);
    crate::text::lemma_pad2_digits(d.day as nat);
    let py = pad2(d.year as nat);
    let pm = pad2(d.month as nat);
    let pd = pad2(d.day as nat);
    crate::text::lemma_digits_value_concat(py, pm);
    crate::text::lemma_digits_value_concat(py + pm, pd);
    lemma_pow10_step(1);
    lemma_pow10_step(0);
    assert(pow10(2) == 100);
    assert(digits_value(py + pm) == d.year * 100 + d.month);
    assert(d.canonical() == (py + pm) + pd);
    assert(digits_value(d.canonical()) == (d.year * 100 + d.month) * 100 + d.day);
    assert(n == 100 * q + d.day);
    assert(q == 100 * d.year + d.month);
    assert((d.year * 100 + d.month) * 100 + d.day == n) by (nonlinear_arith)
        requires
            n == 100 * q + d.day,
            q == 100 * d.year + d.month,
    ;
    assert(digits_value(d.canonical()) == n);
    assert forall|i: int| 0 <= i < d.canonical().len() implies crate::text::is_dec_digit(
        #[trigger] d.canonical()[i],
    ) by {
        if i < 2 {
            assert(d.canonical()[i] == py[i]);
        } else if i < 4 {
            assert(d.canonical()[i] == pm[i - 2]);
        } else {
            assert(d.canonical()[i] == pd[i - 4]);
        }
    }
}

/// Two dates compare equal exactly when all three components agree.
pub proof fn lemma_cmp_equal_iff(a: Date, b: Date)
    ensures
        (spec_cmp(a, b) == Ordering::Equal) <==> (a.year == b.year && a.month == b.month && a.day
            == b.day),
{
}

/// The date order is transitive.
pub proof fn lemma_cmp_transitive(a: Date, b: Date, c: Date)
    requires
        spec_cmp(a, b) == Ordering::Less,
        spec_cmp(b, c) == Ordering::Less,
    ensures
        spec_cmp(a, c) == Ordering::Less,
{
}

/// The date order agrees with field-wise lexicographic comparison, year
/// most significant.
pub proof fn lemma_cmp_lexicographic(a: Date, b: Date)
    ensures
        (spec_cmp(a, b) == Ordering::Less) <==> (a.year < b.year || (a.year == b.year && (a.month
            < b.month || (a.month == b.month && a.day < b.day)))),
        (spec_cmp(a, b) == Ordering::Less) <==> (spec_cmp(b, a) == Ordering::Greater),
{
}

/// Relates the unsigned decomposition of a magnitude to the truncating
/// decomposition of the negative integer it came from.
proof fn lemma_negative_decode(n: int, m: int)
    requires
        n < 0,
        m == -n,
    ensures
        year_of(n) == ((256 - ((m / 10000) % 256)) % 256) as u8,
        month_of(n) == ((256 - ((m / 100) % 100)) % 256) as u8,
        day_of(n) == ((256 - (m % 100)) % 256) as u8,
{
    assert(trunc_div(n, 10000) == -(m / 10000));
    assert(trunc_div(n, 100) == -(m / 100));
    assert(trunc_rem(n, 100) == -(m - 100 * (m / 100))) by {
        assert(trunc_div(n, 100) == -(m / 100));
    }
    assert(m - 100 * (m / 100) == m % 100) by (nonlinear_arith);
    assert(trunc_rem(trunc_div(n, 100), 100) == -((m / 100) % 100)) by {
        let q = m / 100;
        assert(trunc_div(-q, 100) == -(q / 100));
        assert(q - 100 * (q / 100) == q % 100) by (nonlinear_arith);
    }
    lemma_low_byte_neg(m / 10000);
    lemma_low_byte_neg((m / 100) % 100);
    lemma_low_byte_neg(m % 100);
    assert(0 <= (m / 100) % 100 < 256);
    assert(0 <= m % 100 < 256);
}

/// The low byte of a negated non-negative integer.
proof fn lemma_low_byte_neg(v: int)
    requires
        v >= 0,
    ensures
        low_byte(-v) == ((256 - (v % 256)) % 256) as u8,
{
    assert((-v) % 256 == (256 - (v % 256)) % 256) by (nonlinear_arith)
        requires
            v >= 0,
    ;
    assert((((-v) % 256) + 256) % 256 == (-v) % 256);
}

} // verus!
