//! `dd-MMM-yyyy HH:mm` timestamps of epoch seconds.
use vstd::prelude::*;

use crate::calendar::{civil_from_days, civil_of, lemma_civil_of_is_date, lemma_civil_year_bound};
use crate::decimal::{
    decimal, lemma_decimal_len_bound, lemma_four_digit_chars, lemma_padded_decimal_ascii,
    lemma_two_digit_chars, padded_decimal, pow10, push_padded_decimal,
};

verus! {

/// English three-letter abbreviation of `month` (1 = January).
pub open spec fn month_abbreviation_text(month: int) -> Seq<char> {
    if month == 1 {
        seq!['J', 'a', 'n']
    } else if month == 2 {
        seq!['F', 'e', 'b']
    } else if month == 3 {
        seq!['M', 'a', 'r']
    } else if month == 4 {
        seq!['A', 'p', 'r']
    } else if month == 5 {
        seq!['M', 'a', 'y']
    } else if month == 6 {
        seq!['J', 'u', 'n']
    } else if month == 7 {
        seq!['J', 'u', 'l']
    } else if month == 8 {
        seq!['A', 'u', 'g']
    } else if month == 9 {
        seq!['S', 'e', 'p']
    } else if month == 10 {
        seq!['O', 'c', 't']
    } else if month == 11 {
        seq!['N', 'o', 'v']
    } else {
        seq!['D', 'e', 'c']
    }
}

/// The text `dd-MMM-yyyy HH:mm` of a date and a time of day.
pub open spec fn date_time_text(year: int, month: int, day: int, hour: int, minute: int) -> Seq<char> {
    padded_decimal(day, 2) + seq!['-'] + month_abbreviation_text(month) + seq!['-']
        + padded_decimal(year, 4) + seq![' '] + padded_decimal(hour, 2) + seq![':']
        + padded_decimal(minute, 2)
}

/// `epoch` seconds after 1970-01-01T00:00:00Z as `dd-MMM-yyyy HH:mm` in UTC.
pub open spec fn timestamp_text(epoch: int) -> Seq<char> {
    let date = civil_of(epoch / 86400);
    let secs_of_day = epoch % 86400;
    date_time_text(date.0, date.1, date.2, secs_of_day / 3600, secs_of_day % 3600 / 60)
}

proof fn lemma_two_digits(n: int)
    requires
        0 <= n < 100,
    ensures
        padded_decimal(n, 2).len() == 2,
{
    assert(pow10(2) == 100) by {
        reveal_with_fuel(pow10, 3);
    }
    lemma_decimal_len_bound(n as nat, 2);
}

/// The month abbreviations of January to December, one after another.
pub open spec fn month_table() -> Seq<char> {
    seq![
        'J', 'a', 'n', 'F', 'e', 'b', 'M', 'a', 'r', 'A', 'p', 'r', 'M', 'a', 'y', 'J', 'u', 'n',
        'J', 'u', 'l', 'A', 'u', 'g', 'S', 'e', 'p', 'O', 'c', 't', 'N', 'o', 'v', 'D', 'e', 'c',
    ]
}

/// What each field of the timestamp is, for every epoch: with `days` the epoch
/// second's day (rounded down) and `secs` the seconds into that day, the text
/// starts with the two digits of the day of the month of `civil_of(days)`, `-`,
/// the three letters of its month and `-`, and ends with a space, the two
/// digits of `secs / 3600`, `:` and the two digits of `secs % 3600 / 60`.
pub proof fn lemma_timestamp_fields(epoch: int)
    ensures
        ({
            let t = timestamp_text(epoch);
            let days = if epoch >= 0 { epoch / 86400 } else { -((-epoch + 86399) / 86400) };
            let secs = epoch - days * 86400;
            let date = civil_of(days);
            let hour = secs / 3600;
            let minute = (secs - hour * 3600) / 60;
            &&& 0 <= secs < 86400
            &&& t.len() >= 17
            &&& t.take(7) == seq![(48 + date.2 / 10) as char, (48 + date.2 % 10) as char, '-']
                + month_table().subrange(3 * (date.1 - 1), 3 * date.1) + seq!['-']
            &&& t.skip(t.len() - 6) == seq![
                ' ',
                (48 + hour / 10) as char,
                (48 + hour % 10) as char,
                ':',
                (48 + minute / 10) as char,
                (48 + minute % 10) as char,
            ]
        }),
{
    let days = if epoch >= 0 { epoch / 86400 } else { -((-epoch + 86399) / 86400) };
    assert(days == epoch / 86400);
    let date = civil_of(days);
    lemma_civil_of_is_date(days);
    let secs = epoch % 86400;
    let hour = secs / 3600;
    let minute = secs % 3600 / 60;
    lemma_two_digit_chars(date.2);
    lemma_two_digit_chars(hour);
    lemma_two_digit_chars(minute);
    let t = timestamp_text(epoch);
    let head = padded_decimal(date.2, 2) + seq!['-'] + month_abbreviation_text(date.1) + seq!['-'];
    let year = padded_decimal(date.0, 4);
    let tail = seq![' '] + padded_decimal(hour, 2) + seq![':'] + padded_decimal(minute, 2);
    assert(t =~= head + year + tail);
    assert(month_abbreviation_text(date.1) =~= month_table().subrange(3 * (date.1 - 1), 3 * date.1));
    assert(year.len() >= 4);
    assert(t.take(7) =~= head);
    assert(t.skip(t.len() - 6) =~= tail);
}

/// For the years 0 to 9999, the four characters after the month are the four
/// digits of the year.
pub proof fn lemma_timestamp_year_digits(epoch: int)
    requires
        0 <= civil_of(epoch / 86400).0 <= 9999,
    ensures
        ({
            let t = timestamp_text(epoch);
            let y = civil_of(epoch / 86400).0;
            t.subrange(7, 11) == seq![
                (48 + y / 1000) as char,
                (48 + y / 100 % 10) as char,
                (48 + y / 10 % 10) as char,
                (48 + y % 10) as char,
            ]
        }),
{
    let date = civil_of(epoch / 86400);
    lemma_civil_of_is_date(epoch / 86400);
    lemma_two_digits(date.2);
    lemma_four_digit_chars(date.0);
    let t = timestamp_text(epoch);
    assert(month_abbreviation_text(date.1).len() == 3);
    assert(t.subrange(7, 11) =~= padded_decimal(date.0, 4));
}

/// For the years 0 to 9999 the text has the fixed shape `dd-MMM-yyyy HH:mm`:
/// seventeen characters with the separators in their places.
pub proof fn lemma_timestamp_text_shape(epoch: int)
    requires
        0 <= civil_of(epoch / 86400).0 <= 9999,
    ensures
        timestamp_text(epoch).len() == 17,
        timestamp_text(epoch)[2] == '-',
        timestamp_text(epoch)[6] == '-',
        timestamp_text(epoch)[11] == ' ',
        timestamp_text(epoch)[14] == ':',
{
    let date = civil_of(epoch / 86400);
    lemma_civil_of_is_date(epoch / 86400);
    lemma_two_digits(date.2);
    let secs_of_day = epoch % 86400;
    lemma_two_digits(secs_of_day / 3600);
    lemma_two_digits(secs_of_day % 3600 / 60);
    assert(pow10(4) == 10000) by {
        reveal_with_fuel(pow10, 5);
    }
    lemma_decimal_len_bound(date.0 as nat, 4);
    assert(month_abbreviation_text(date.1).len() == 3);
}

/// Every timestamp of an `i64` epoch is ASCII text of at most 26 characters.
pub proof fn lemma_timestamp_text_ascii(epoch: int)
    requires
        i64::MIN <= epoch <= i64::MAX,
    ensures
        vstd::utf8::is_ascii_chars(timestamp_text(epoch)),
        timestamp_text(epoch).len() <= 26,
{
    let days = epoch / 86400;
    lemma_civil_year_bound(days);
    lemma_civil_of_is_date(days);
    let date = civil_of(days);
    let secs_of_day = epoch % 86400;
    let hour = secs_of_day / 3600;
    let minute = secs_of_day % 3600 / 60;
    lemma_two_digits(date.2);
    lemma_two_digits(hour);
    lemma_two_digits(minute);
    lemma_padded_decimal_ascii(date.2, 2);
    lemma_padded_decimal_ascii(hour, 2);
    lemma_padded_decimal_ascii(minute, 2);
    lemma_padded_decimal_ascii(date.0, 4);
    assert(pow10(12) == 1_000_000_000_000) by {
        reveal_with_fuel(pow10, 13);
    }
    lemma_decimal_len_bound((if date.0 < 0 { -date.0 } else { date.0 }) as nat, 12);
    let t = timestamp_text(epoch);
    let month = month_abbreviation_text(date.1);
    assert(vstd::utf8::is_ascii_chars(month));
    assert forall|i: int| 0 <= i < t.len() implies '\0' <= #[trigger] t[i] <= '\u{7f}' by {
        let a = padded_decimal(date.2, 2) + seq!['-'] + month + seq!['-'];
        let b = a + padded_decimal(date.0, 4) + seq![' '];
        let c = b + padded_decimal(hour, 2) + seq![':'];
        if i < a.len() {
            if i < 2 {
                assert(t[i] == padded_decimal(date.2, 2)[i]);
            } else if 3 <= i < 6 {
                assert(t[i] == month[i - 3]);
            }
        } else if i < b.len() {
            if i < a.len() + padded_decimal(date.0, 4).len() {
                assert(t[i] == padded_decimal(date.0, 4)[i - a.len()]);
            }
        } else if i < c.len() {
            if i < b.len() + 2 {
                assert(t[i] == padded_decimal(hour, 2)[i - b.len()]);
            }
        } else {
            assert(t[i] == padded_decimal(minute, 2)[i - c.len()]);
        }
    }
}

/// The English three-letter abbreviation of `month`.
fn month_abbreviation(month: u32) -> (s: &'static str)
    requires
        1 <= month <= 12,
    ensures
        s@ == month_abbreviation_text(month as int),
{
    proof {
        reveal_strlit("Jan");
        reveal_strlit("Feb");
        reveal_strlit("Mar");
        reveal_strlit("Apr");
        reveal_strlit("May");
        reveal_strlit("Jun");
        reveal_strlit("Jul");
        reveal_strlit("Aug");
        reveal_strlit("Sep");
        reveal_strlit("Oct");
        reveal_strlit("Nov");
        reveal_strlit("Dec");
    }
    match month {
        1 => "Jan",
        2 => "Feb",
        3 => "Mar",
        4 => "Apr",
        5 => "May",
        6 => "Jun",
        7 => "Jul",
        8 => "Aug",
        9 => "Sep",
        10 => "Oct",
        11 => "Nov",
        _ => "Dec",
    }
}

/// Format an epoch timestamp (seconds since 1970-01-01T00:00:00Z) as
/// `dd-MMM-yyyy HH:mm` in UTC, e.g. `1790021160` -> `21-Sep-2026 20:06`.
pub fn format_timestamp(epoch_secs: i64) -> (s: String)
    ensures
        s@ == timestamp_text(epoch_secs as int),
{
    let days = epoch_secs.checked_div_euclid(86_400).unwrap();
    let secs_of_day = epoch_secs.checked_rem_euclid(86_400).unwrap();
    let (year, month, day) = civil_from_days(days);
    let hour = secs_of_day / 3_600;
    let minute = (secs_of_day % 3_600) / 60;
    let mut out = String::new();
    proof {
        reveal_strlit("-");
        reveal_strlit(" ");
        reveal_strlit(":");
    }
    push_padded_decimal(&mut out, day as i64, 2);
    out.append("-");
    out.append(month_abbreviation(month));
    out.append("-");
    push_padded_decimal(&mut out, year, 4);
    out.append(" ");
    push_padded_decimal(&mut out, hour, 2);
    out.append(":");
    push_padded_decimal(&mut out, minute, 2);
    assert(out@ =~= timestamp_text(epoch_secs as int));
    out
}

} // verus!
