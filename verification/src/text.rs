//! Text utilities: decimal rendering of integers, parsing of integer
//! literals, and the codepoint-wise lexicographic order on strings.

use vstd::prelude::*;

verus! {

/// Whether `c` is an ASCII decimal digit.
pub open spec fn is_dec_digit(c: char) -> bool {
    48 <= c as int <= 57
}

/// The digit character for `d` (meaningful for `d < 10`).
pub open spec fn digit_char(d: nat) -> char {
    if d == 0 {
        '0'
    } else if d == 1 {
        '1'
    } else if d == 2 {
        '2'
    } else if d == 3 {
        '3'
    } else if d == 4 {
        '4'
    } else if d == 5 {
        '5'
    } else if d == 6 {
        '6'
    } else if d == 7 {
        '7'
    } else if d == 8 {
        '8'
    } else {
        '9'
    }
}

/// The numeric value of a digit character.
pub open spec fn digit_val(c: char) -> int {
    c as int - 48
}

/// Ten to the power `k`.
pub open spec fn pow10(k: nat) -> int
    decreases k,
{
    if k == 0 {
        1
    } else {
        10 * pow10((k - 1) as nat)
    }
}

/// The decimal digit string of a non-negative integer, most significant
/// digit first, without leading zeros (`0` renders as `"0"`).
pub open spec fn dec_digits(n: nat) -> Seq<char>
    decreases n,
{
    if n < 10 {
        seq![digit_char(n)]
    } else {
        dec_digits(n / 10).push(digit_char(n % 10))
    }
}

/// The decimal form of a component value, zero-padded to at least two
/// digits.
pub open spec fn pad2(v: nat) -> Seq<char> {
    if v < 10 {
        seq!['0'] + dec_digits(v)
    } else {
        dec_digits(v)
    }
}

/// The decimal string of a signed integer, as `i64` renders itself.
pub open spec fn i64_dec_string(v: int) -> Seq<char> {
    if v < 0 {
        seq!['-'] + dec_digits((-v) as nat)
    } else {
        dec_digits(v as nat)
    }
}

/// The value of a digit string, most significant digit first.
pub open spec fn digits_value(s: Seq<char>) -> int
    decreases s.len(),
{
    if s.len() == 0 {
        0
    } else {
        digits_value(s.drop_last()) * 10 + digit_val(s.last())
    }
}

/// Whether every character of `s` is a decimal digit.
pub open spec fn all_dec_digits(s: Seq<char>) -> bool {
    forall|i: int| 0 <= i < s.len() ==> is_dec_digit(#[trigger] s[i])
}

/// Whether `s` is an integer literal: an optional sign followed by at
/// least one decimal digit and nothing else.
pub open spec fn is_int_literal(s: Seq<char>) -> bool {
    if s.len() > 0 && (s[0] == '+' || s[0] == '-') {
        s.len() > 1 && all_dec_digits(s.skip(1))
    } else {
        s.len() > 0 && all_dec_digits(s)
    }
}

/// The signed value of an integer literal.
pub open spec fn int_literal_value(s: Seq<char>) -> int {
    if s.len() > 0 && s[0] == '-' {
        -digits_value(s.skip(1))
    } else if s.len() > 0 && s[0] == '+' {
        digits_value(s.skip(1))
    } else {
        digits_value(s)
    }
}

/// Whether `s` parses as an `i64`: an integer literal whose value fits.
pub open spec fn is_i64_string(s: Seq<char>) -> bool {
    &&& is_int_literal(s)
    &&& -0x8000_0000_0000_0000 <= int_literal_value(s) <= 0x7fff_ffff_ffff_ffff
}

/// The one-character string for a decimal digit.
pub fn digit_str(d: u8) -> (r: &'static str)
    requires
        d < 10,
    ensures
        r@ == seq![digit_char(d as nat)],
{
    proof {
        reveal_strlit("0");
        reveal_strlit("1");
        reveal_strlit("2");
        reveal_strlit("3");
        reveal_strlit("4");
        reveal_strlit("5");
        reveal_strlit("6");
        reveal_strlit("7");
        reveal_strlit("8");
        reveal_strlit("9");
    }
    let r: &'static str = match d {
        0 => "0",
        1 => "1",
        2 => "2",
        3 => "3",
        4 => "4",
        5 => "5",
        6 => "6",
        7 => "7",
        8 => "8",
        _ => "9",
    };
    proof {
        assert(r@ =~= seq![digit_char(d as nat)]);
    }
    r
}

/// Appends the decimal digits of `n` to `s`.
pub fn push_dec_digits(s: &mut String, n: u64)
    ensures
        final(s)@ == old(s)@ + dec_digits(n as nat),
    decreases n,
{
    if n < 10 {
        s.append(digit_str(n as u8));
        proof {
            assert(s@ =~= old(s)@ + dec_digits(n as nat));
        }
    } else {
        push_dec_digits(s, n / 10);
        s.append(digit_str((n % 10) as u8));
        proof {
            assert(s@ =~= old(s)@ + dec_digits(n as nat));
        }
    }
}

/// Appends the zero-padded, at-least-two-digit decimal form of `v`.
pub fn push_pad2(s: &mut String, v: u8)
    ensures
        final(s)@ == old(s)@ + pad2(v as nat),
{
    if v < 10 {
        s.append("0");
    }
    push_dec_digits(s, v as u64);
    proof {
        reveal_strlit("0");
        assert(s@ =~= old(s)@ + pad2(v as nat));
    }
}

/// Renders a signed integer in decimal, as `i64` renders itself.
pub fn i64_to_string(v: i64) -> (r: String)
    ensures
        r@ == i64_dec_string(v as int),
{
    let mut s = String::new();
    if v < 0 {
        s.append("-");
        let m: u64 = (-(v as i128)) as u64;
        push_dec_digits(&mut s, m);
        proof {
            reveal_strlit("-");
            assert(s@ =~= i64_dec_string(v as int));
        }
    } else {
        push_dec_digits(&mut s, v as u64);
    }
    s
}

/// A digit string prefixed with zeros values the same as without them.
proof fn lemma_leading_zero(s: Seq<char>)
    requires
        s.len() > 0,
        s[0] == '0',
    ensures
        digits_value(s) == digits_value(s.skip(1)),
    decreases s.len(),
{
    if s.len() == 1 {
        assert(s.skip(1).len() == 0);
        assert(digits_value(s.drop_last()) == 0);
        assert(digit_val(s.last()) == 0);
    } else {
        lemma_leading_zero(s.drop_last());
        assert(s.skip(1).drop_last() =~= s.drop_last().skip(1));
        assert(s.skip(1).last() == s.last());
        assert(digits_value(s.skip(1)) == digits_value(s.skip(1).drop_last()) * 10
            + digit_val(s.skip(1).last()));
    }
}

/// A digit string with a non-zero leading digit values at least ten to
/// one less than its length.
proof fn lemma_digits_value_lower(s: Seq<char>)
    requires
        all_dec_digits(s),
        s.len() > 0,
        s[0] != '0',
    ensures
        digits_value(s) >= pow10((s.len() - 1) as nat),
    decreases s.len(),
{
    if s.len() == 1 {
        assert(digit_val(s[0]) >= 1);
    } else {
        assert(all_dec_digits(s.drop_last())) by {
            assert(forall|i: int|
                0 <= i < s.len() - 1 ==> s.drop_last()[i] == #[trigger] s[i]);
        }
        lemma_digits_value_lower(s.drop_last());
        assert(digit_val(s.last()) >= 0);
        assert(digits_value(s.drop_last()) * 10 >= pow10((s.len() - 2) as nat) * 10) by (nonlinear_arith)
            requires
                digits_value(s.drop_last()) >= pow10((s.len() - 2) as nat),
        ;
    }
}

/// Parses a decimal integer literal, exactly as `str::parse::<i64>` does:
/// an optional sign, then one or more digits, and the value must fit.
pub fn parse_i64(s: &str) -> (r: Option<i64>)
    ensures
        match r {
            Some(v) => is_i64_string(s@) && v as int == int_literal_value(s@),
            None => !is_i64_string(s@),
        },
{
    let len: usize = s.unicode_len();
    if len == 0 {
        return None;
    }
    let c0: char = s.get_char(0);
    let negative: bool = c0 == '-';
    let start: usize = if c0 == '-' || c0 == '+' {
        1
    } else {
        0
    };
    if start >= len {
        // a bare sign has no digits
        return None;
    }
    // skip leading zeros
    let mut i: usize = start;
    while i < len && s.get_char(i) == '0'
        invariant
            start <= i <= len,
            len == s@.len(),
            forall|k: int| start <= k < i ==> s@[k] == '0',
        decreases len - i,
    {
        i = i + 1;
    }
    // accumulate the significant digits
    let mut acc: u64 = 0;
    let mut j: usize = i;
    while j < len
        invariant
            i <= j <= len,
            start <= i <= len,
            len == s@.len(),
            start == 0 || start == 1,
            start == 1 <==> (s@[0] == '+' || s@[0] == '-'),
            negative <==> s@[0] == '-',
            forall|k: int| start <= k < j ==> is_dec_digit(#[trigger] s@[k]),
            forall|k: int| start <= k < i ==> s@[k] == '0',
            i < len ==> s@[i as int] != '0',
            j - i <= 19,
            acc == digits_value(s@.subrange(i as int, j as int)),
            acc < pow10((j - i) as nat),
        decreases len - j,
    {
        let c: char = s.get_char(j);
        let cv: u32 = c as u32;
        if cv < 48 || cv > 57 {
            // not a digit: the literal grammar is broken
            proof {
                let digits = s@.skip(start as int);
                assert(digits[j - start] == s@[j as int]);
                assert(!all_dec_digits(digits));
                if start == 0 {
                    assert(digits =~= s@);
                }
                assert(!is_int_literal(s@));
            }
            return None;
        }
        if j - i == 19 {
            // twenty or more significant digits: either a later character
            // breaks the grammar, or the value exceeds the i64 range
            proof {
                lemma_overflow_by_width(s@, start as int, i as int, (j + 1) as int);
            }
            return None;
        }
        proof {
            assert(s@.subrange(i as int, (j + 1) as int).drop_last()
                =~= s@.subrange(i as int, j as int));
            assert(s@.subrange(i as int, (j + 1) as int).last() == s@[j as int]);
            lemma_pow10_19();
            lemma_pow10_step((j - i) as nat);
            lemma_pow10_monotone((j - i) as nat, 18);
            lemma_pow10_step(18);
        }
        acc = acc * 10 + (cv - 48) as u64;
        j = j + 1;
    }
    let ghost digits = s@.skip(start as int);
    proof {
        assert(forall|k: int|
            0 <= k < digits.len() ==> #[trigger] digits[k] == s@[k + start]);
        assert(all_dec_digits(digits));
        assert(is_int_literal(s@));
        lemma_skip_zeros_value(s@, start as int, i as int, len as int);
        assert(s@.subrange(i as int, len as int) =~= s@.subrange(i as int, j as int));
        assert(acc == digits_value(digits));
        lemma_pow10_19();
        lemma_pow10_monotone((j - i) as nat, 19);
        assert(acc < pow10(19));
        if negative {
            assert(int_literal_value(s@) == -digits_value(digits));
        } else if start == 1 {
            assert(int_literal_value(s@) == digits_value(digits));
        } else {
            assert(digits =~= s@);
            assert(int_literal_value(s@) == digits_value(digits));
        }
    }
    if negative {
        if acc <= 0x8000_0000_0000_0000u64 {
            let v: i64 = (-(acc as i128)) as i64;
            Some(v)
        } else {
            None
        }
    } else {
        if acc <= 0x7fff_ffff_ffff_ffffu64 {
            Some(acc as i64)
        } else {
            None
        }
    }
}

/// Ten to a larger power is at least ten to a smaller one.
pub proof fn lemma_pow10_monotone(a: nat, b: nat)
    requires
        a <= b,
    ensures
        pow10(a) <= pow10(b),
        pow10(a) >= 1,
    decreases b,
{
    if b > 0 {
        if a == b {
            lemma_pow10_monotone((a - 1) as nat, (b - 1) as nat);
        } else {
            lemma_pow10_monotone(a, (b - 1) as nat);
        }
    }
}

/// The concrete value of ten to the nineteenth.
proof fn lemma_pow10_19()
    ensures
        pow10(19) == 10_000_000_000_000_000_000,
{
    reveal_with_fuel(pow10, 21);
}

/// Unfolds one multiplication step of `pow10`.
pub proof fn lemma_pow10_step(k: nat)
    ensures
        pow10(k + 1) == 10 * pow10(k),
{
}

/// The concrete value of ten to the sixth.
pub proof fn lemma_pow10_6()
    ensures
        pow10(6) == 1_000_000,
{
    reveal_with_fuel(pow10, 8);
}

/// Dropping a prefix of zero digits keeps a digit string's value.
proof fn lemma_skip_zeros(s: Seq<char>, k: int)
    requires
        0 <= k <= s.len(),
        forall|j: int| 0 <= j < k ==> s[j] == '0',
    ensures
        digits_value(s) == digits_value(s.skip(k)),
    decreases k,
{
    if k > 0 {
        lemma_leading_zero(s);
        assert(s.skip(1).skip(k - 1) =~= s.skip(k));
        assert(forall|j: int| 0 <= j < k - 1 ==> #[trigger] s.skip(1)[j] == s[j + 1]);
        lemma_skip_zeros(s.skip(1), k - 1);
    } else {
        assert(s.skip(0) =~= s);
    }
}

/// Connects the accumulated significant digits to the whole digit part.
proof fn lemma_skip_zeros_value(s: Seq<char>, start: int, i: int, len: int)
    requires
        0 <= start <= i <= len == s.len(),
        forall|k: int| start <= k < i ==> s[k] == '0',
    ensures
        digits_value(s.skip(start)) == digits_value(s.subrange(i, len)),
{
    let digits = s.skip(start);
    assert(forall|j: int| 0 <= j < i - start ==> #[trigger] digits[j] == '0');
    lemma_skip_zeros(digits, i - start);
    assert(digits.skip(i - start) =~= s.subrange(i, len));
}

/// Twenty or more significant digits cannot fit in an `i64`, and a
/// non-digit in their place breaks the literal grammar either way.
proof fn lemma_overflow_by_width(s: Seq<char>, start: int, i: int, j: int)
    requires
        0 <= start <= i < j <= s.len(),
        forall|k: int| start <= k < i ==> s[k] == '0',
        forall|k: int| start <= k < j ==> is_dec_digit(#[trigger] s[k]),
        s[i] != '0',
        j - i >= 20,
        start == 1 <==> (s[0] == '+' || s[0] == '-'),
        start == 0 || start == 1,
    ensures
        !is_i64_string(s),
{
    if is_int_literal(s) {
        let digits = s.skip(start);
        if start == 0 {
            assert(digits =~= s);
        }
        assert(all_dec_digits(digits));
        assert(forall|k: int|
            0 <= k < digits.len() ==> #[trigger] digits[k] == s[k + start]);
        lemma_skip_zeros_value(s, start, i, s.len() as int);
        let sig = s.subrange(i, s.len() as int);
        assert(all_dec_digits(sig)) by {
            assert(forall|k: int|
                0 <= k < sig.len() ==> #[trigger] sig[k] == digits[k + i - start]);
        }
        lemma_digits_value_lower(sig);
        lemma_pow10_monotone(19, (sig.len() - 1) as nat);
        lemma_pow10_19();
        assert(digits_value(digits) >= 10_000_000_000_000_000_000);
        if s[0] == '-' {
            assert(int_literal_value(s) == -digits_value(digits));
        } else if start == 1 {
            assert(int_literal_value(s) == digits_value(digits));
        } else {
            assert(int_literal_value(s) == digits_value(s));
            assert(digits_value(s) == digits_value(digits));
        }
    }
}

/// The value of two concatenated digit strings: the left part shifted by
/// the length of the right, plus the right part.
pub proof fn lemma_digits_value_concat(a: Seq<char>, b: Seq<char>)
    ensures
        digits_value(a + b) == digits_value(a) * pow10(b.len()) + digits_value(b),
    decreases b.len(),
{
    if b.len() == 0 {
        assert(a + b =~= a);
    } else {
        assert((a + b).drop_last() =~= a + b.drop_last());
        assert((a + b).last() == b.last());
        lemma_digits_value_concat(a, b.drop_last());
        assert(digits_value(a + b) == (digits_value(a) * pow10((b.len() - 1) as nat)
            + digits_value(b.drop_last())) * 10 + digit_val(b.last()));
        assert(digits_value(a) * pow10((b.len() - 1) as nat) * 10 == digits_value(a) * pow10(
            b.len(),
        )) by (nonlinear_arith)
            requires
                pow10(b.len()) == 10 * pow10((b.len() - 1) as nat),
        ;
    }
}

/// A digit character holds the digit it was made from.
pub proof fn lemma_digit_char_val(d: nat)
    requires
        d < 10,
    ensures
        is_dec_digit(digit_char(d)),
        digit_val(digit_char(d)) == d,
{
}

/// The value of a two-digit string.
pub proof fn lemma_digits_value_pair(c0: char, c1: char)
    ensures
        digits_value(seq![c0, c1]) == digit_val(c0) * 10 + digit_val(c1),
{
    let s = seq![c0, c1];
    assert(s.drop_last() =~= seq![c0]);
    assert(seq![c0].drop_last() =~= Seq::<char>::empty());
    assert(digits_value(Seq::<char>::empty()) == 0);
    assert(digits_value(seq![c0]) == digit_val(c0));
    assert(digits_value(s) == digits_value(seq![c0]) * 10 + digit_val(c1));
}

/// A component below one hundred renders as exactly two digits that
/// decode back to it.
pub proof fn lemma_pad2_digits(v: nat)
    requires
        v < 100,
    ensures
        pad2(v).len() == 2,
        all_dec_digits(pad2(v)),
        digits_value(pad2(v)) == v,
{
    if v < 10 {
        lemma_digit_char_val(v);
        assert(pad2(v) =~= seq!['0', digit_char(v)]);
        lemma_digits_value_pair('0', digit_char(v));
        assert(digit_val('0') == 0);
    } else {
        lemma_digit_char_val(v / 10);
        lemma_digit_char_val(v % 10);
        assert(dec_digits(v) == dec_digits(v / 10).push(digit_char(v % 10)));
        assert(dec_digits(v / 10) == seq![digit_char(v / 10)]);
        assert(pad2(v) =~= seq![digit_char(v / 10), digit_char(v % 10)]);
        lemma_digits_value_pair(digit_char(v / 10), digit_char(v % 10));
    }
}

/// Strict lexicographic order on character sequences, by codepoint.
pub open spec fn lex_lt(a: Seq<char>, b: Seq<char>) -> bool
    decreases a.len(),
{
    &&& b.len() > 0
    &&& {
        ||| a.len() == 0
        ||| (a[0] as int) < (b[0] as int)
        ||| (a[0] == b[0] && lex_lt(a.skip(1), b.skip(1)))
    }
}

/// Equal prefixes do not affect the lexicographic comparison.
proof fn lemma_lex_common_prefix(a: Seq<char>, b: Seq<char>, k: int)
    requires
        0 <= k <= a.len(),
        k <= b.len(),
        forall|i: int| 0 <= i < k ==> a[i] == b[i],
    ensures
        lex_lt(a, b) == lex_lt(a.skip(k), b.skip(k)),
    decreases k,
{
    if k > 0 {
        assert(forall|j: int| 0 <= j < k - 1 ==> #[trigger] a.skip(1)[j] == a[j + 1]);
        assert(forall|j: int| 0 <= j < k - 1 ==> #[trigger] b.skip(1)[j] == b[j + 1]);
        lemma_lex_common_prefix(a.skip(1), b.skip(1), k - 1);
        assert(a.skip(1).skip(k - 1) =~= a.skip(k));
        assert(b.skip(1).skip(k - 1) =~= b.skip(k));
        assert(a[0] == b[0]);
    } else {
        assert(a.skip(0) =~= a);
        assert(b.skip(0) =~= b);
    }
}

/// Two strings are lexicographically related or equal.
pub proof fn lemma_lex_trichotomy(a: Seq<char>, b: Seq<char>)
    ensures
        lex_lt(a, b) || lex_lt(b, a) || a == b,
    decreases a.len(),
{
    if a.len() == 0 {
        if b.len() == 0 {
            assert(a =~= b);
        }
    } else if b.len() > 0 {
        if a[0] == b[0] {
            lemma_lex_trichotomy(a.skip(1), b.skip(1));
            if a.skip(1) == b.skip(1) {
                assert(a.skip(1).len() == a.len() - 1);
                assert(b.skip(1).len() == b.len() - 1);
                assert(a.len() == b.len());
                assert forall|i: int| 0 <= i < a.len() implies a[i] == b[i] by {
                    if i >= 1 {
                        assert(a.skip(1)[i - 1] == a[i]);
                        assert(b.skip(1)[i - 1] == b[i]);
                    }
                }
                assert(a =~= b);
            }
        }
    }
}

/// The lexicographic order is irreflexive.
pub proof fn lemma_lex_irreflexive(a: Seq<char>)
    ensures
        !lex_lt(a, a),
    decreases a.len(),
{
    if a.len() > 0 {
        lemma_lex_irreflexive(a.skip(1));
    }
}

/// The lexicographic order is transitive.
pub proof fn lemma_lex_transitive(a: Seq<char>, b: Seq<char>, c: Seq<char>)
    requires
        lex_lt(a, b),
        lex_lt(b, c),
    ensures
        lex_lt(a, c),
    decreases a.len(),
{
    if a.len() > 0 && b.len() > 0 {
        if a[0] == b[0] && b[0] == c[0] {
            lemma_lex_transitive(a.skip(1), b.skip(1), c.skip(1));
        }
    }
}

/// Compares two strings in the lexicographic codepoint order.
pub fn str_lt(a: &str, b: &str) -> (r: bool)
    ensures
        r == lex_lt(a@, b@),
{
    let alen: usize = a.unicode_len();
    let blen: usize = b.unicode_len();
    let mut i: usize = 0;
    loop
        invariant
            0 <= i <= alen,
            i <= blen,
            alen == a@.len(),
            blen == b@.len(),
            forall|k: int| 0 <= k < i ==> a@[k] == b@[k],
        decreases alen - i,
    {
        proof {
            lemma_lex_common_prefix(a@, b@, i as int);
        }
        if i >= alen || i >= blen {
            return alen < blen;
        }
        let ca: u32 = a.get_char(i) as u32;
        let cb: u32 = b.get_char(i) as u32;
        if ca < cb {
            return true;
        }
        if ca > cb {
            return false;
        }
        i = i + 1;
    }
}

/// Whether two strings hold the same characters.
pub fn str_eq(a: &str, b: &str) -> (r: bool)
    ensures
        r == (a@ == b@),
{
    let alen: usize = a.unicode_len();
    let blen: usize = b.unicode_len();
    if alen != blen {
        proof {
            assert(a@ != b@);
        }
        return false;
    }
    let mut i: usize = 0;
    while i < alen
        invariant
            0 <= i <= alen,
            alen == a@.len(),
            alen == b@.len(),
            forall|k: int| 0 <= k < i ==> a@[k] == b@[k],
        decreases alen - i,
    {
        if a.get_char(i) != b.get_char(i) {
            return false;
        }
        i = i + 1;
    }
    proof {
        assert(a@ =~= b@);
    }
    true
}

} // verus!
