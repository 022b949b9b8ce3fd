//! Decimal rendering of integers, as Rust's `{}` and `{:0N}` formats write them.
use vstd::prelude::*;

verus! {

/// The ASCII character of decimal digit `d`.
pub open spec fn digit_char(d: int) -> char {
    (48 + d) as char
}

/// Decimal digits of `n`, most significant first, without leading zeros ("0" for zero).
pub open spec fn decimal(n: nat) -> Seq<char>
    decreases n,
{
    if n < 10 {
        seq![digit_char(n as int)]
    } else {
        decimal(n / 10).push(digit_char((n % 10) as int))
    }
}

/// `s` preceded by as many `'0'` as it takes to reach `width` characters.
pub open spec fn zero_padded(s: Seq<char>, width: nat) -> Seq<char> {
    if s.len() >= width {
        s
    } else {
        Seq::new((width - s.len()) as nat, |i: int| '0') + s
    }
}

/// `n` as Rust's `{:0width$}` writes an integer: a minus sign for negative
/// numbers, then the digits of the magnitude, zero-padded so that sign and
/// digits together take at least `width` characters.
pub open spec fn padded_decimal(n: int, width: nat) -> Seq<char> {
    if n < 0 {
        seq!['-'] + zero_padded(decimal((-n) as nat), if width >= 1 { (width - 1) as nat } else { 0 })
    } else {
        zero_padded(decimal(n as nat), width)
    }
}

/// `10^k`.
pub open spec fn pow10(k: nat) -> nat
    decreases k,
{
    if k == 0 {
        1
    } else {
        10 * pow10((k - 1) as nat)
    }
}

/// An ASCII decimal digit.
pub open spec fn is_ascii_digit(c: char) -> bool {
    '0' <= c <= '9'
}

/// Every character of `s` is an ASCII decimal digit.
pub open spec fn all_ascii_digits(s: Seq<char>) -> bool {
    forall|i: int| 0 <= i < s.len() ==> is_ascii_digit(#[trigger] s[i])
}

/// The number that the decimal digits `s` spell (leading zeros allowed).
pub open spec fn digits_value(s: Seq<char>) -> nat
    decreases s.len(),
{
    if s.len() == 0 {
        0
    } else {
        digits_value(s.drop_last()) * 10 + (s.last() as nat - 48) as nat
    }
}

/// More digits never make a smaller number: a prefix spells at most the value of the whole.
pub proof fn lemma_digits_value_prefix(s: Seq<char>, k: int)
    requires
        0 <= k <= s.len(),
        all_ascii_digits(s),
    ensures
        digits_value(s.take(k)) <= digits_value(s),
    decreases s.len() - k,
{
    if k < s.len() {
        let t = s.drop_last();
        assert(all_ascii_digits(t)) by {
            assert forall|i: int| 0 <= i < t.len() implies is_ascii_digit(#[trigger] t[i]) by {
                assert(t[i] == s[i]);
            }
        }
        lemma_digits_value_prefix(t, k);
        assert(t.take(k) =~= s.take(k));
        assert(is_ascii_digit(s[s.len() - 1]));
    } else {
        assert(s.take(k) =~= s);
    }
}

/// A number below `10^k` has at most `k` digits (and always at least one).
pub proof fn lemma_decimal_len_bound(n: nat, k: nat)
    requires
        k >= 1,
        n < pow10(k),
    ensures
        1 <= decimal(n).len() <= k,
    decreases n,
{
    if n >= 10 {
        if k == 1 {
            assert(pow10(1) == 10) by {
                reveal_with_fuel(pow10, 2);
            }
        }
        lemma_decimal_len_bound(n / 10, (k - 1) as nat);
    }
}

/// A `u64` has at most twenty digits.
proof fn lemma_u64_decimal_len(n: u64)
    ensures
        decimal(n as nat).len() <= 20,
{
    assert(pow10(20) == 100_000_000_000_000_000_000) by {
        reveal_with_fuel(pow10, 21);
    }
    lemma_decimal_len_bound(n as nat, 20);
}

/// The digits of a number are ASCII.
pub proof fn lemma_decimal_ascii(n: nat)
    ensures
        vstd::utf8::is_ascii_chars(decimal(n)),
    decreases n,
{
    if n >= 10 {
        lemma_decimal_ascii(n / 10);
        assert forall|i: int| 0 <= i < decimal(n).len() implies '\0' <= #[trigger] decimal(n)[i] <= '\u{7f}' by {
            if i < decimal(n / 10).len() {
                assert(decimal(n)[i] == decimal(n / 10)[i]);
            }
        }
    }
}

/// A padded decimal is ASCII, and `width` or at most one sign plus its digits long.
pub proof fn lemma_padded_decimal_ascii(n: int, width: nat)
    ensures
        vstd::utf8::is_ascii_chars(padded_decimal(n, width)),
        padded_decimal(n, width).len() <= width + 1 + decimal(
            (if n < 0 { -n } else { n }) as nat,
        ).len(),
{
    let m = (if n < 0 { -n } else { n }) as nat;
    lemma_decimal_ascii(m);
    let w = if n < 0 { if width >= 1 { (width - 1) as nat } else { 0 } } else { width };
    let z = zero_padded(decimal(m), w);
    assert forall|i: int| 0 <= i < z.len() implies '\0' <= #[trigger] z[i] <= '\u{7f}' by {
        if decimal(m).len() < w && i < w - decimal(m).len() {
            assert(z[i] == '0');
        } else if decimal(m).len() < w {
            assert(z[i] == decimal(m)[i - (w - decimal(m).len())]);
        }
    }
    let p = padded_decimal(n, width);
    assert forall|i: int| 0 <= i < p.len() implies '\0' <= #[trigger] p[i] <= '\u{7f}' by {
        if n < 0 && i > 0 {
            assert(p[i] == z[i - 1]);
        }
    }
}

/// A number below 100 padded to two places is its tens digit and its units digit.
pub proof fn lemma_two_digit_chars(n: int)
    requires
        0 <= n < 100,
    ensures
        padded_decimal(n, 2) == seq![(48 + n / 10) as char, (48 + n % 10) as char],
{
    reveal_with_fuel(decimal, 2);
    if n < 10 {
        assert(padded_decimal(n, 2) =~= seq![(48 + n / 10) as char, (48 + n % 10) as char]);
    } else {
        assert(decimal(n as nat) =~= seq![(48 + n / 10) as char, (48 + n % 10) as char]);
    }
}

/// A number below 10000 padded to four places is its four decimal digits.
pub proof fn lemma_four_digit_chars(n: int)
    requires
        0 <= n < 10000,
    ensures
        padded_decimal(n, 4) == seq![
            (48 + n / 1000) as char,
            (48 + n / 100 % 10) as char,
            (48 + n / 10 % 10) as char,
            (48 + n % 10) as char,
        ],
{
    reveal_with_fuel(decimal, 4);
    let want = seq![
        (48 + n / 1000) as char,
        (48 + n / 100 % 10) as char,
        (48 + n / 10 % 10) as char,
        (48 + n % 10) as char,
    ];
    let d = decimal(n as nat);
    if n < 10 {
        assert(d =~= seq![(48 + n) as char]);
    } else if n < 100 {
        assert(d =~= seq![(48 + n / 10) as char, (48 + n % 10) as char]);
    } else if n < 1000 {
        assert(decimal((n / 10) as nat) =~= seq![(48 + n / 100) as char, (48 + n / 10 % 10) as char]);
        assert(d =~= seq![(48 + n / 100) as char, (48 + n / 10 % 10) as char, (48 + n % 10) as char]);
    } else {
        assert(decimal((n / 100) as nat) =~= seq![(48 + n / 1000) as char, (48 + n / 100 % 10) as char]);
        assert(decimal((n / 10) as nat) =~= seq![
            (48 + n / 1000) as char,
            (48 + n / 100 % 10) as char,
            (48 + n / 10 % 10) as char,
        ]);
    }
    assert(padded_decimal(n, 4) =~= want);
}

/// Reading back the digits of a number gives the number: `digits_value`
/// inverts `decimal`, and the digits are all ASCII decimal digits.
pub proof fn lemma_digits_value_of_decimal(n: nat)
    ensures
        digits_value(decimal(n)) == n,
        all_ascii_digits(decimal(n)),
        decimal(n).len() > 0,
    decreases n,
{
    if n >= 10 {
        lemma_digits_value_of_decimal(n / 10);
        let d = decimal(n);
        assert(d.drop_last() =~= decimal(n / 10));
        assert(d.last() == digit_char((n % 10) as int));
        assert((digit_char((n % 10) as int) as nat) == 48 + n % 10);
        assert(digits_value(d) == digits_value(decimal(n / 10)) * 10 + n % 10);
        assert forall|i: int| 0 <= i < d.len() implies is_ascii_digit(#[trigger] d[i]) by {
            if i < d.len() - 1 {
                assert(d[i] == decimal(n / 10)[i]);
            }
        }
    } else {
        assert(decimal(n).drop_last() =~= Seq::<char>::empty());
        assert((digit_char(n as int) as nat) == 48 + n);
        assert(digits_value(Seq::<char>::empty()) == 0);
        assert(digits_value(decimal(n)) == n);
    }
}

/// A number above zero is written without leading zeros.
pub proof fn lemma_decimal_no_leading_zero(n: nat)
    requires
        n > 0,
    ensures
        decimal(n)[0] != '0',
    decreases n,
{
    if n >= 10 {
        lemma_digits_value_of_decimal(n / 10);
        lemma_decimal_no_leading_zero(n / 10);
        assert(decimal(n)[0] == decimal(n / 10)[0]);
    }
}

proof fn lemma_digits_value_zeros(k: nat)
    ensures
        digits_value(Seq::new(k, |i: int| '0')) == 0,
    decreases k,
{
    if k > 0 {
        assert(Seq::new(k, |i: int| '0').drop_last() =~= Seq::new((k - 1) as nat, |i: int| '0'));
        lemma_digits_value_zeros((k - 1) as nat);
    }
}

/// Leading zeros do not change the value of a row of digits.
proof fn lemma_digits_value_zeros_prefix(k: nat, s: Seq<char>)
    ensures
        digits_value(Seq::new(k, |i: int| '0') + s) == digits_value(s),
    decreases s.len(),
{
    let z = Seq::new(k, |i: int| '0');
    if s.len() == 0 {
        assert(z + s =~= z);
        lemma_digits_value_zeros(k);
    } else {
        assert((z + s).drop_last() =~= z + s.drop_last());
        assert((z + s).last() == s.last());
        lemma_digits_value_zeros_prefix(k, s.drop_last());
    }
}

/// What `{:0width$}` writes for an integer `n`: a `-` first when `n` is
/// negative, then only ASCII digits, as many as `n` has or as the width leaves
/// for them if that is more, and they spell the magnitude of `n`.
pub proof fn lemma_padded_decimal_value(n: int, width: nat)
    ensures
        ({
            let m: nat = (if n < 0 { -n } else { n }) as nat;
            let p = padded_decimal(n, width);
            let body = if n < 0 { p.drop_first() } else { p };
            let w: int = if n < 0 { if width >= 1 { width - 1 } else { 0 } } else { width as int };
            &&& n < 0 ==> p.len() > 0 && p[0] == '-'
            &&& all_ascii_digits(body)
            &&& digits_value(body) == m
            &&& body.len() == (if w > decimal(m).len() { w } else { decimal(m).len() as int })
        }),
{
    let m: nat = (if n < 0 { -n } else { n }) as nat;
    let w: nat = if n < 0 { if width >= 1 { (width - 1) as nat } else { 0 } } else { width };
    lemma_digits_value_of_decimal(m);
    let d = decimal(m);
    let z = zero_padded(d, w);
    if d.len() < w {
        let k = (w - d.len()) as nat;
        lemma_digits_value_zeros_prefix(k, d);
        assert forall|i: int| 0 <= i < z.len() implies is_ascii_digit(#[trigger] z[i]) by {
            if i >= k {
                assert(z[i] == d[i - k]);
            }
        }
    }
    let p = padded_decimal(n, width);
    if n < 0 {
        assert(p.drop_first() =~= z);
    }
}

/// The one-character string of decimal digit `d`.
fn digit_str(d: u64) -> (s: &'static str)
    requires
        d < 10,
    ensures
        s@ == seq![digit_char(d as int)],
{
    proof {
        reveal_strlit("0");
        reveal_strlit("1");
        reveal_strlit("2");
        reveal_strlit("3");
        reveal_strlit("4");
        reveal_strlit("5");
        reveal_strlit("6");
        reveal_strlit("7");
        reveal_strlit("8");
        reveal_strlit("9");
    }
    match d {
        0 => "0",
        1 => "1",
        2 => "2",
        3 => "3",
        4 => "4",
        5 => "5",
        6 => "6",
        7 => "7",
        8 => "8",
        _ => "9",
    }
}

/// Appends the decimal digits of `n`.
fn push_decimal(out: &mut String, n: u64)
    ensures
        final(out)@ == old(out)@ + decimal(n as nat),
    decreases n,
{
    if n >= 10 {
        push_decimal(out, n / 10);
    }
    out.append(digit_str(n % 10));
}

/// Number of decimal digits of `n`.
fn decimal_len(n: u64) -> (len: usize)
    ensures
        len == decimal(n as nat).len(),
    decreases n,
{
    proof {
        lemma_u64_decimal_len(n);
    }
    if n >= 10 {
        decimal_len(n / 10) + 1
    } else {
        1
    }
}

/// Appends `n` as `{:0width$}` writes it.
pub fn push_padded_decimal(out: &mut String, n: i64, width: usize)
    ensures
        final(out)@ == old(out)@ + padded_decimal(n as int, width as nat),
{
    let magnitude: u64 = if n < 0 {
        (-(n + 1)) as u64 + 1
    } else {
        n as u64
    };
    let digits_width: usize = if n < 0 {
        proof {
            reveal_strlit("-");
        }
        out.append("-");
        if width >= 1 { width - 1 } else { 0 }
    } else {
        width
    };
    let len = decimal_len(magnitude);
    let ghost before = out@;
    if len < digits_width {
        let mut i: usize = len;
        proof {
            reveal_strlit("0");
        }
        while i < digits_width
            invariant
                len <= i <= digits_width,
                out@ == before + Seq::new((i - len) as nat, |j: int| '0'),
            decreases digits_width - i,
        {
            proof {
                reveal_strlit("0");
            }
            out.append("0");
            i = i + 1;
            assert(out@ =~= before + Seq::new((i - len) as nat, |j: int| '0'));
        }
    }
    push_decimal(out, magnitude);
    assert(out@ =~= old(out)@ + padded_decimal(n as int, width as nat));
}

} // verus!
