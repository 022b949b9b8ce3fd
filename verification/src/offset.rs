//! Parsing of the configured display timezone, a UTC offset such as `UTC-6` or `+05:30`.
use vstd::prelude::*;

use crate::errors::OffsetError;
use crate::decimal::{all_ascii_digits, digits_value, is_ascii_digit};
use crate::text::collect_chars;

verus! {

/// Unicode `White_Space`: what `str::trim` removes (`char::is_whitespace`).
pub open spec fn is_whitespace(c: char) -> bool {
    let u = c as int;
    ||| 0x09 <= u <= 0x0D
    ||| u == 0x20
    ||| u == 0x85
    ||| u == 0xA0
    ||| u == 0x1680
    ||| 0x2000 <= u <= 0x200A
    ||| u == 0x2028
    ||| u == 0x2029
    ||| u == 0x202F
    ||| u == 0x205F
    ||| u == 0x3000
}

/// `s` without its leading whitespace.
pub open spec fn trim_start(s: Seq<char>) -> Seq<char>
    decreases s.len(),
{
    if s.len() > 0 && is_whitespace(s[0]) {
        trim_start(s.drop_first())
    } else {
        s
    }
}

/// `s` without its trailing whitespace.
pub open spec fn trim_end(s: Seq<char>) -> Seq<char>
    decreases s.len(),
{
    if s.len() > 0 && is_whitespace(s.last()) {
        trim_end(s.drop_last())
    } else {
        s
    }
}

/// `s` without leading and trailing whitespace, as `str::trim` gives it.
pub open spec fn trim(s: Seq<char>) -> Seq<char> {
    trim_end(trim_start(s))
}

/// `s` starts with `UTC` in any letter case.
pub open spec fn has_utc_prefix(s: Seq<char>) -> bool {
    &&& s.len() >= 3
    &&& (s[0] == 'U' || s[0] == 'u')
    &&& (s[1] == 'T' || s[1] == 't')
    &&& (s[2] == 'C' || s[2] == 'c')
}

/// Index of the first `:` in `s`, or `s.len()` when there is none.
pub open spec fn colon_index(s: Seq<char>) -> int
    decreases s.len(),
{
    if s.len() == 0 || s[0] == ':' {
        0
    } else {
        1 + colon_index(s.drop_first())
    }
}

/// The offset in seconds east of UTC of the sign `sign` followed by `digits`:
/// hours, optionally followed by `:` and one or two digits of minutes, at most
/// 14 hours and 59 minutes.
pub open spec fn signed_offset_secs(sign: int, digits: Seq<char>) -> Option<int> {
    let k = colon_index(digits);
    let hours = digits.take(k);
    if hours.len() == 0 || !all_ascii_digits(hours) {
        None
    } else if k < digits.len() {
        let minutes = digits.skip(k + 1);
        if minutes.len() == 0 || minutes.len() > 2 || !all_ascii_digits(minutes) {
            None
        } else if digits_value(hours) > 14 || digits_value(minutes) > 59 {
            None
        } else {
            Some(sign * (digits_value(hours) * 3600 + digits_value(minutes) * 60))
        }
    } else if digits_value(hours) > 14 {
        None
    } else {
        Some(sign * digits_value(hours) * 3600)
    }
}

/// The UTC offset in seconds east of UTC that `text` specifies, or `None` when it is malformed.
///
/// Accepted forms: `UTC`, `UTC-6`, `UTC+5`, `UTC+5:30`, `-6`, `+05:30`, with
/// surrounding whitespace; the `UTC` prefix is optional and case-insensitive.
/// Hours are limited to 14 and minutes to 59.
pub open spec fn utc_offset_secs(text: Seq<char>) -> Option<int> {
    let t = trim(text);
    let rest = if has_utc_prefix(t) { t.skip(3) } else { t };
    if t.len() == 0 {
        None
    } else if rest.len() == 0 {
        Some(0)
    } else if rest[0] == '+' {
        signed_offset_secs(1, rest.skip(1))
    } else if rest[0] == '-' {
        signed_offset_secs(-1, rest.skip(1))
    } else {
        None
    }
}

proof fn lemma_trim_start_skip(s: Seq<char>, lo: int)
    requires
        0 <= lo <= s.len(),
        forall|i: int| 0 <= i < lo ==> is_whitespace(#[trigger] s[i]),
        lo == s.len() || !is_whitespace(s[lo]),
    ensures
        trim_start(s) == s.skip(lo),
    decreases lo,
{
    if lo > 0 {
        let t = s.drop_first();
        assert forall|i: int| 0 <= i < lo - 1 implies is_whitespace(#[trigger] t[i]) by {
            assert(t[i] == s[i + 1]);
        }
        lemma_trim_start_skip(t, lo - 1);
        assert(t.skip(lo - 1) =~= s.skip(lo));
    } else {
        assert(s.skip(0) =~= s);
    }
}

proof fn lemma_trim_end_take(s: Seq<char>, hi: int)
    requires
        0 <= hi <= s.len(),
        forall|i: int| hi <= i < s.len() ==> is_whitespace(#[trigger] s[i]),
        hi == 0 || !is_whitespace(s[hi - 1]),
    ensures
        trim_end(s) == s.take(hi),
    decreases s.len() - hi,
{
    if hi < s.len() {
        let t = s.drop_last();
        assert(is_whitespace(s[s.len() - 1]));
        lemma_trim_end_take(t, hi);
        assert(t.take(hi) =~= s.take(hi));
    } else {
        assert(s.take(hi) =~= s);
    }
}

proof fn lemma_colon_index(s: Seq<char>, k: int)
    requires
        0 <= k <= s.len(),
        forall|i: int| 0 <= i < k ==> #[trigger] s[i] != ':',
        k == s.len() || s[k] == ':',
    ensures
        colon_index(s) == k,
    decreases k,
{
    if k > 0 {
        let t = s.drop_first();
        assert forall|i: int| 0 <= i < k - 1 implies #[trigger] t[i] != ':' by {
            assert(t[i] == s[i + 1]);
        }
        lemma_colon_index(t, k - 1);
    }
}

/// Every character of `s` is whitespace.
pub open spec fn all_whitespace(s: Seq<char>) -> bool {
    forall|i: int| 0 <= i < s.len() ==> is_whitespace(#[trigger] s[i])
}

proof fn lemma_trim_start_after_blank(u: Seq<char>, w: Seq<char>)
    requires
        trim_start(u).len() == 0,
    ensures
        trim_start(u + w) == trim_start(w),
    decreases u.len(),
{
    if u.len() == 0 {
        assert(u + w =~= w);
    } else {
        assert((u + w).drop_first() =~= u.drop_first() + w);
        lemma_trim_start_after_blank(u.drop_first(), w);
    }
}

proof fn lemma_trim_start_blank(w: Seq<char>)
    requires
        all_whitespace(w),
    ensures
        trim_start(w).len() == 0,
    decreases w.len(),
{
    if w.len() > 0 {
        assert(is_whitespace(w[0]));
        assert forall|i: int| 0 <= i < w.len() - 1 implies is_whitespace(#[trigger] w.drop_first()[i]) by {
            assert(w.drop_first()[i] == w[i + 1]);
        }
        lemma_trim_start_blank(w.drop_first());
    }
}

proof fn lemma_trim_start_append(u: Seq<char>, w: Seq<char>)
    requires
        trim_start(u).len() > 0,
    ensures
        trim_start(u + w) == trim_start(u) + w,
    decreases u.len(),
{
    assert((u + w)[0] == u[0]);
    if is_whitespace(u[0]) {
        assert((u + w).drop_first() =~= u.drop_first() + w);
        lemma_trim_start_append(u.drop_first(), w);
    }
}

proof fn lemma_trim_end_blank_suffix(u: Seq<char>, w: Seq<char>)
    requires
        all_whitespace(w),
    ensures
        trim_end(u + w) == trim_end(u),
    decreases w.len(),
{
    if w.len() == 0 {
        assert(u + w =~= u);
    } else {
        assert((u + w).last() == w.last());
        assert(is_whitespace(w[w.len() - 1]));
        assert((u + w).drop_last() =~= u + w.drop_last());
        assert forall|i: int| 0 <= i < w.len() - 1 implies is_whitespace(#[trigger] w.drop_last()[i]) by {
            assert(w.drop_last()[i] == w[i]);
        }
        lemma_trim_end_blank_suffix(u, w.drop_last());
    }
}

proof fn lemma_trim_end_after_solid(a: Seq<char>, d: Seq<char>)
    requires
        a.len() > 0,
        !is_whitespace(a.last()),
    ensures
        trim_end(a + d) == a + trim_end(d),
    decreases d.len(),
{
    if d.len() == 0 {
        assert(a + d =~= a);
        assert(a + trim_end(d) =~= a);
    } else {
        assert((a + d).last() == d.last());
        if is_whitespace(d.last()) {
            assert((a + d).drop_last() =~= a + d.drop_last());
            lemma_trim_end_after_solid(a, d.drop_last());
        }
    }
}

/// Whitespace before and after an offset does not change it.
pub proof fn lemma_surrounding_whitespace(before: Seq<char>, text: Seq<char>, after: Seq<char>)
    requires
        all_whitespace(before),
        all_whitespace(after),
    ensures
        utc_offset_secs(before + text + after) == utc_offset_secs(text),
{
    let whole = before + text + after;
    assert(whole =~= before + (text + after));
    lemma_trim_start_blank(before);
    lemma_trim_start_after_blank(before, text + after);
    if trim_start(text).len() > 0 {
        lemma_trim_start_append(text, after);
        lemma_trim_end_blank_suffix(trim_start(text), after);
    } else {
        lemma_trim_start_after_blank(text, after);
        lemma_trim_start_blank(after);
        assert(trim_start(after) =~= trim_start(text));
    }
    assert(trim(whole) == trim(text));
}

/// The offset opposite in sign: `-` gives the negation of what `+` gives.
pub proof fn lemma_opposite_sign(digits: Seq<char>)
    ensures
        utc_offset_secs(seq!['-'] + digits) == (match utc_offset_secs(seq!['+'] + digits) {
            Some(v) => Some(-v),
            None => None,
        }),
{
    let plus = seq!['+'] + digits;
    let minus = seq!['-'] + digits;
    assert(trim_start(plus) == plus);
    assert(trim_start(minus) == minus);
    lemma_trim_end_after_solid(seq!['+'], digits);
    lemma_trim_end_after_solid(seq!['-'], digits);
    assert(trim(plus).skip(1) =~= trim_end(digits));
    assert(trim(minus).skip(1) =~= trim_end(digits));
}

/// The `UTC` prefix, in any letter case, is optional before a signed offset.
pub proof fn lemma_utc_prefix_optional(prefix: Seq<char>, text: Seq<char>)
    requires
        prefix.len() == 3,
        has_utc_prefix(prefix),
        text.len() > 0,
        text[0] == '+' || text[0] == '-',
    ensures
        utc_offset_secs(prefix + text) == utc_offset_secs(text),
{
    let whole = prefix + text;
    assert(whole[0] == prefix[0]);
    assert(trim_start(whole) == whole);
    assert(trim_start(text) == text);
    lemma_trim_end_after_solid(prefix, text);
    let x0 = seq![text[0]];
    assert(x0 + text.drop_first() =~= text);
    lemma_trim_end_after_solid(x0, text.drop_first());
    assert(trim(whole).skip(3) =~= trim(text));
}

/// A whole-hour offset may be written with or without `:00`.
pub proof fn lemma_whole_hours(sign: char, hours: Seq<char>)
    requires
        sign == '+' || sign == '-',
        hours.len() > 0,
        all_ascii_digits(hours),
    ensures
        utc_offset_secs(seq![sign] + hours) == utc_offset_secs(seq![sign] + hours + seq![':', '0', '0']),
{
    let short = seq![sign] + hours;
    let long = seq![sign] + hours + seq![':', '0', '0'];
    assert(short[0] == sign && long[0] == sign);
    assert(is_ascii_digit(hours[hours.len() - 1]));
    assert(short[short.len() - 1] == hours[hours.len() - 1]);
    lemma_trim_start_skip(short, 0);
    lemma_trim_start_skip(long, 0);
    assert(short.skip(0) =~= short);
    assert(long.skip(0) =~= long);
    lemma_trim_end_take(short, short.len() as int);
    lemma_trim_end_take(long, long.len() as int);
    assert(short.take(short.len() as int) =~= short);
    assert(long.take(long.len() as int) =~= long);
    assert forall|i: int| 0 <= i < hours.len() implies #[trigger] hours[i] != ':' by {
        assert(is_ascii_digit(hours[i]));
    }
    lemma_colon_index(hours, hours.len() as int);
    let with_minutes = hours + seq![':', '0', '0'];
    assert forall|i: int| 0 <= i < hours.len() implies #[trigger] with_minutes[i] != ':' by {
        assert(with_minutes[i] == hours[i]);
        assert(is_ascii_digit(hours[i]));
    }
    lemma_colon_index(with_minutes, hours.len() as int);
    assert(short.skip(1) =~= hours);
    assert(long.skip(1) =~= with_minutes);
    assert(with_minutes.take(hours.len() as int) =~= hours);
    assert(hours.take(hours.len() as int) =~= hours);
    let minutes = with_minutes.skip(hours.len() as int + 1);
    assert(minutes =~= seq!['0', '0']);
    assert(seq!['0', '0'].drop_last() =~= seq!['0']);
    assert(seq!['0'].drop_last() =~= Seq::<char>::empty());
    assert(digits_value(minutes) == 0) by {
        reveal_with_fuel(digits_value, 3);
    }
    assert(all_ascii_digits(minutes));
}

/// A signed offset without and with minutes: `±H` is `±3600·h` seconds and
/// `±H:M` is `±(3600·h + 60·m)` seconds, where `h` is the value of the hour
/// digits (at most 14) and `m` that of the one or two minute digits (at most
/// 59); a larger hour or minute value is an error.
pub proof fn lemma_offset_value(sign: char, hours: Seq<char>, minutes: Seq<char>)
    requires
        sign == '+' || sign == '-',
        hours.len() > 0,
        all_ascii_digits(hours),
        1 <= minutes.len() <= 2,
        all_ascii_digits(minutes),
    ensures
        ({
            let s: int = if sign == '+' { 1 } else { -1 };
            let h = digits_value(hours);
            let m: int = if minutes.len() == 1 {
                minutes[0] as int - 48
            } else {
                10 * (minutes[0] as int - 48) + (minutes[1] as int - 48)
            };
            &&& utc_offset_secs(seq![sign] + hours) == (if h <= 14 {
                Some(s * 3600 * h)
            } else {
                None
            })
            &&& utc_offset_secs(seq![sign] + hours + seq![':'] + minutes) == (if h <= 14 && m <= 59 {
                Some(s * (3600 * h + 60 * m))
            } else {
                None
            })
        }),
{
    let short = seq![sign] + hours;
    let long = seq![sign] + hours + seq![':'] + minutes;
    assert(short[0] == sign && long[0] == sign);
    assert(is_ascii_digit(hours[hours.len() - 1]));
    assert(is_ascii_digit(minutes[minutes.len() - 1]));
    assert(short[short.len() - 1] == hours[hours.len() - 1]);
    assert(long[long.len() - 1] == minutes[minutes.len() - 1]);
    lemma_trim_start_skip(short, 0);
    lemma_trim_start_skip(long, 0);
    assert(short.skip(0) =~= short);
    assert(long.skip(0) =~= long);
    lemma_trim_end_take(short, short.len() as int);
    lemma_trim_end_take(long, long.len() as int);
    assert(short.take(short.len() as int) =~= short);
    assert(long.take(long.len() as int) =~= long);
    assert forall|i: int| 0 <= i < hours.len() implies #[trigger] hours[i] != ':' by {
        assert(is_ascii_digit(hours[i]));
    }
    lemma_colon_index(hours, hours.len() as int);
    let with_minutes = hours + seq![':'] + minutes;
    assert forall|i: int| 0 <= i < hours.len() implies #[trigger] with_minutes[i] != ':' by {
        assert(with_minutes[i] == hours[i]);
        assert(is_ascii_digit(hours[i]));
    }
    lemma_colon_index(with_minutes, hours.len() as int);
    assert(short.skip(1) =~= hours);
    assert(long.skip(1) =~= with_minutes);
    assert(with_minutes.take(hours.len() as int) =~= hours);
    assert(hours.take(hours.len() as int) =~= hours);
    assert(with_minutes.skip(hours.len() as int + 1) =~= minutes);
    let m: int = if minutes.len() == 1 {
        minutes[0] as int - 48
    } else {
        10 * (minutes[0] as int - 48) + (minutes[1] as int - 48)
    };
    assert(is_ascii_digit(minutes[0]));
    if minutes.len() == 1 {
        assert(minutes.drop_last() =~= Seq::<char>::empty());
    } else {
        assert(is_ascii_digit(minutes[1]));
        assert(minutes.drop_last() =~= seq![minutes[0]]);
        assert(seq![minutes[0]].drop_last() =~= Seq::<char>::empty());
    }
    assert(digits_value(minutes) == m) by {
        reveal_with_fuel(digits_value, 3);
    }
    let s: int = if sign == '+' { 1 } else { -1 };
    let h = digits_value(hours);
    assert(s * h * 3600 == s * 3600 * h) by (nonlinear_arith);
}

/// A colon must have hours before it and one or two digits of minutes after
/// it: `±:M`, `±H:` and `±H:MMM` are errors.
pub proof fn lemma_offset_malformed_minutes(sign: char, hours: Seq<char>, minutes: Seq<char>)
    requires
        sign == '+' || sign == '-',
        all_ascii_digits(hours),
        all_ascii_digits(minutes),
        hours.len() == 0 || minutes.len() == 0 || minutes.len() > 2,
    ensures
        utc_offset_secs(seq![sign] + hours + seq![':'] + minutes) is None,
{
    let long = seq![sign] + hours + seq![':'] + minutes;
    assert(long[0] == sign);
    if minutes.len() > 0 {
        assert(is_ascii_digit(minutes[minutes.len() - 1]));
        assert(long[long.len() - 1] == minutes[minutes.len() - 1]);
    } else {
        assert(long[long.len() - 1] == ':');
    }
    lemma_trim_start_skip(long, 0);
    assert(long.skip(0) =~= long);
    lemma_trim_end_take(long, long.len() as int);
    assert(long.take(long.len() as int) =~= long);
    let with_minutes = hours + seq![':'] + minutes;
    assert forall|i: int| 0 <= i < hours.len() implies #[trigger] with_minutes[i] != ':' by {
        assert(with_minutes[i] == hours[i]);
        assert(is_ascii_digit(hours[i]));
    }
    lemma_colon_index(with_minutes, hours.len() as int);
    assert(long.skip(1) =~= with_minutes);
    assert(with_minutes.take(hours.len() as int) =~= hours);
    assert(with_minutes.skip(hours.len() as int + 1) =~= minutes);
}

/// An offset needs its sign: text that, once trimmed, starts with a digit is an error.
pub proof fn lemma_offset_needs_sign(text: Seq<char>)
    requires
        trim(text).len() > 0,
        is_ascii_digit(trim(text)[0]),
    ensures
        utc_offset_secs(text) is None,
{
}

fn is_whitespace_char(c: char) -> (b: bool)
    ensures
        b == is_whitespace(c),
{
    let u = c as u32;
    (0x09 <= u && u <= 0x0D) || u == 0x20 || u == 0x85 || u == 0xA0 || u == 0x1680 || (0x2000 <= u
        && u <= 0x200A) || u == 0x2028 || u == 0x2029 || u == 0x202F || u == 0x205F || u == 0x3000
}

/// Start and end of `cs` with the surrounding whitespace left out.
fn trim_bounds(cs: &Vec<char>) -> (r: (usize, usize))
    ensures
        r.0 <= r.1 <= cs.len(),
        trim(cs@) == cs@.subrange(r.0 as int, r.1 as int),
{
    let mut lo: usize = 0;
    while lo < cs.len() && is_whitespace_char(cs[lo])
        invariant
            lo <= cs.len(),
            forall|i: int| 0 <= i < lo ==> is_whitespace(#[trigger] cs@[i]),
        decreases cs.len() - lo,
    {
        lo = lo + 1;
    }
    let mut hi: usize = cs.len();
    while hi > lo && is_whitespace_char(cs[hi - 1])
        invariant
            lo <= hi <= cs.len(),
            forall|i: int| hi <= i < cs.len() ==> is_whitespace(#[trigger] cs@[i]),
        decreases hi - lo,
    {
        hi = hi - 1;
    }
    proof {
        lemma_trim_start_skip(cs@, lo as int);
        let t = cs@.skip(lo as int);
        assert forall|i: int| hi - lo <= i < t.len() implies is_whitespace(#[trigger] t[i]) by {
            assert(t[i] == cs@[i + lo]);
        }
        if hi > lo {
            assert(t[hi - lo - 1] == cs@[hi - 1]);
        }
        lemma_trim_end_take(t, hi - lo);
        assert(t.take(hi - lo) =~= cs@.subrange(lo as int, hi as int));
    }
    (lo, hi)
}

/// The value of the decimal digits `cs[from..to]`, capped at 100; `None` when
/// that stretch is empty or holds anything but ASCII digits.
fn capped_digits_value(cs: &Vec<char>, from: usize, to: usize) -> (r: Option<u32>)
    requires
        from <= to <= cs.len(),
    ensures
        r is Some <==> (from < to && all_ascii_digits(cs@.subrange(from as int, to as int))),
        r matches Some(v) ==> v == (if digits_value(cs@.subrange(from as int, to as int)) < 100 {
            digits_value(cs@.subrange(from as int, to as int))
        } else {
            100
        }),
{
    if from == to {
        return None;
    }
    let mut v: u32 = 0;
    let mut i: usize = from;
    while i < to
        invariant
            from <= i <= to <= cs.len(),
            all_ascii_digits(cs@.subrange(from as int, i as int)),
            v == (if digits_value(cs@.subrange(from as int, i as int)) < 100 {
                digits_value(cs@.subrange(from as int, i as int))
            } else {
                100
            }),
        decreases to - i,
    {
        let c = cs[i];
        if !('0' <= c && c <= '9') {
            proof {
                assert(cs@.subrange(from as int, to as int)[i - from] == c);
            }
            return None;
        }
        let d = (c as u32) - 48;
        let next = v * 10 + d;
        v = if next > 100 { 100 } else { next };
        proof {
            let pre = cs@.subrange(from as int, i as int);
            let cur = cs@.subrange(from as int, i + 1);
            assert(cur.drop_last() =~= pre);
            assert(cur.last() == c);
            assert forall|j: int| 0 <= j < cur.len() implies is_ascii_digit(#[trigger] cur[j]) by {
                if j < pre.len() {
                    assert(cur[j] == pre[j]);
                }
            }
        }
        i = i + 1;
    }
    Some(v)
}

/// The offset that the sign `sign` and the hours and minutes `cs[start..end]` give.
fn parse_signed_offset(cs: &Vec<char>, start: usize, end: usize, sign: i32) -> (r: Result<
    i32,
    OffsetError,
>)
    requires
        start <= end <= cs.len(),
        sign == 1 || sign == -1,
    ensures
        match signed_offset_secs(sign as int, cs@.subrange(start as int, end as int)) {
            Some(v) => r == Ok::<i32, OffsetError>(v as i32),
            None => r == Err::<i32, OffsetError>(OffsetError),
        },
        r matches Ok(v) ==> -53_940 <= v <= 53_940 && v % 60 == 0,
{
    let ghost digits = cs@.subrange(start as int, end as int);
    let mut k: usize = start;
    while k < end && cs[k] != ':'
        invariant
            start <= k <= end <= cs.len(),
            forall|i: int| start <= i < k ==> #[trigger] cs@[i] != ':',
        decreases end - k,
    {
        k = k + 1;
    }
    proof {
        assert forall|i: int| 0 <= i < k - start implies #[trigger] digits[i] != ':' by {
            assert(digits[i] == cs@[start + i]);
        }
        lemma_colon_index(digits, k - start);
        assert(digits.take(k - start) =~= cs@.subrange(start as int, k as int));
    }
    let hours = match capped_digits_value(cs, start, k) {
        Some(h) => h,
        None => return Err(OffsetError),
    };
    let minutes: u32 = if k < end {
        assert(digits.skip(k - start + 1) =~= cs@.subrange(k + 1, end as int));
        if end - (k + 1) == 0 || end - (k + 1) > 2 {
            return Err(OffsetError);
        }
        match capped_digits_value(cs, k + 1, end) {
            Some(m) => m,
            None => return Err(OffsetError),
        }
    } else {
        0
    };
    if hours > 14 || minutes > 59 {
        return Err(OffsetError);
    }
    Ok(sign * (hours as i32 * 3_600 + minutes as i32 * 60))
}

/// Parse a UTC offset specification into seconds east of UTC.
///
/// Accepted forms: `UTC`, `UTC-6`, `UTC+5`, `UTC+5:30`, `-6`, `+05:30`
/// (the `UTC` prefix is optional and case-insensitive). Hours are limited to
/// 14 and minutes to 59; anything else is an error.
pub fn parse_utc_offset(spec: &str) -> (r: Result<i32, OffsetError>)
    ensures
        match utc_offset_secs(spec@) {
            Some(v) => r == Ok::<i32, OffsetError>(v as i32),
            None => r == Err::<i32, OffsetError>(OffsetError),
        },
        r matches Ok(v) ==> -53_940 <= v <= 53_940 && v % 60 == 0,
{
    let cs = collect_chars(spec);
    let (lo, hi) = trim_bounds(&cs);
    let ghost t = cs@.subrange(lo as int, hi as int);
    if lo == hi {
        return Err(OffsetError);
    }
    let p: usize = if hi - lo >= 3 && (cs[lo] == 'U' || cs[lo] == 'u') && (cs[lo + 1] == 'T' || cs[
        lo + 1] == 't') && (cs[lo + 2] == 'C' || cs[lo + 2] == 'c') {
        lo + 3
    } else {
        lo
    };
    let ghost rest = if has_utc_prefix(t) { t.skip(3) } else { t };
    assert(rest =~= cs@.subrange(p as int, hi as int));
    if p == hi {
        return Ok(0);
    }
    let sign: i32 = if cs[p] == '+' {
        1
    } else if cs[p] == '-' {
        -1
    } else {
        return Err(OffsetError);
    };
    assert(rest.skip(1) =~= cs@.subrange(p + 1, hi as int));
    parse_signed_offset(&cs, p + 1, hi, sign)
}

} // verus!
