use vstd::prelude::*;

use crate::json::{all_digits, dec_pad, digits_val, parse_digits, push_pad};

verus! {

/// Milliseconds per day.
pub const MS_PER_DAY: u64 = 86400000;

/// Milliseconds per hour.
pub const MS_PER_HOUR: u64 = 3600000;

/// Milliseconds per minute.
pub const MS_PER_MIN: u64 = 60000;

/// Milliseconds per second.
pub const MS_PER_SEC: u64 = 1000;

/// Largest supported timestamp, in milliseconds since the Unix epoch:
/// one less than 2930950 days, which keeps every supported year at
/// four digits.
pub const MAX_EPOCH_MS: u64 = 253234079999999;

/// Whether `y` is a leap year in the proleptic Gregorian calendar.
pub open spec fn is_leap_year(y: int) -> bool {
    y % 4 == 0 && (y % 100 != 0 || y % 400 == 0)
}

/// Days in year `y`.
pub open spec fn days_in_year(y: int) -> int {
    if is_leap_year(y) {
        366
    } else {
        365
    }
}

/// Days in month `m` (1-based) of year `y`.
pub open spec fn days_in_month(y: int, m: int) -> int {
    if m == 2 {
        if is_leap_year(y) {
            29
        } else {
            28
        }
    } else if m == 4 || m == 6 || m == 9 || m == 11 {
        30
    } else {
        31
    }
}

/// Days from 1970-01-01 to the first day of year `y`.
pub open spec fn days_to_year(y: int) -> int
    decreases y - 1970,
    when y >= 1970
{
    if y == 1970 {
        0
    } else {
        days_to_year(y - 1) + days_in_year(y - 1)
    }
}

/// Days from the first day of year `y` to the first day of its month
/// `m` (1-based).
pub open spec fn days_to_month(y: int, m: int) -> int
    decreases m,
    when m >= 1
{
    if m == 1 {
        0
    } else {
        days_to_month(y, m - 1) + days_in_month(y, m - 1)
    }
}

/// Days from 1970-01-01 to the calendar date `y`-`m`-`d`.
pub open spec fn days_from_civil(y: int, m: int, d: int) -> int {
    days_to_year(y) + days_to_month(y, m) + d - 1
}

/// A calendar date the library supports: between 1970 and the last
/// four-digit year, with a month and day that exist.
pub open spec fn valid_ymd(y: int, m: int, d: int) -> bool {
    &&& 1970 <= y <= 9999
    &&& 1 <= m <= 12
    &&& 1 <= d <= days_in_month(y, m)
}

/// The year and the days left over after walking whole years from
/// `y`, starting with `rem` days.
pub open spec fn year_rec(y: int, rem: int) -> (int, int)
    decreases rem,
    when rem >= 0
{
    if rem < days_in_year(y) {
        (y, rem)
    } else {
        year_rec(y + 1, rem - days_in_year(y))
    }
}

/// The month and the days left over after walking whole months of
/// year `y` from month `m`, starting with `rem` days.
pub open spec fn month_rec(y: int, m: int, rem: int) -> (int, int)
    decreases 12 - m,
    when 1 <= m <= 12
{
    if rem < days_in_month(y, m) || m == 12 {
        (m, rem)
    } else {
        month_rec(y, m + 1, rem - days_in_month(y, m))
    }
}

/// The calendar date `days` days after 1970-01-01.
pub open spec fn ymd_of_days(days: int) -> (int, int, int) {
    let yr = year_rec(1970, days);
    let mr = month_rec(yr.0, 1, yr.1);
    (yr.0, mr.0, mr.1 + 1)
}

/// The months of a year hold exactly its days.
pub proof fn lemma_months_sum(y: int)
    ensures
        days_to_month(y, 13) == days_in_year(y),
{
    reveal_with_fuel(days_to_month, 13);
}

/// At least 365 days pass per year.
pub proof fn lemma_days_to_year_lower(y: int)
    requires
        y >= 1970,
    ensures
        days_to_year(y) >= (y - 1970) * 365,
    decreases y - 1970,
{
    if y > 1970 {
        lemma_days_to_year_lower(y - 1);
    }
}

/// Walking whole years keeps the total and ends inside a year.
pub proof fn lemma_year_rec(y0: int, rem0: int)
    requires
        y0 >= 1970,
        rem0 >= 0,
    ensures
        ({
            let r = year_rec(y0, rem0);
            &&& r.0 >= y0
            &&& 0 <= r.1 < days_in_year(r.0)
            &&& days_to_year(r.0) + r.1 == days_to_year(y0) + rem0
        }),
    decreases rem0,
{
    if rem0 >= days_in_year(y0) {
        lemma_year_rec(y0 + 1, rem0 - days_in_year(y0));
    }
}

/// Walking whole months keeps the total and ends inside a month.
pub proof fn lemma_month_rec(y: int, m0: int, rem0: int)
    requires
        1 <= m0 <= 12,
        rem0 >= 0,
        days_to_month(y, m0) + rem0 < days_in_year(y),
    ensures
        ({
            let r = month_rec(y, m0, rem0);
            &&& 1 <= r.0 <= 12
            &&& 0 <= r.1 < days_in_month(y, r.0)
            &&& days_to_month(y, r.0) + r.1 == days_to_month(y, m0) + rem0
        }),
    decreases 12 - m0,
{
    lemma_months_sum(y);
    if !(rem0 < days_in_month(y, m0) || m0 == 12) {
        lemma_month_rec(y, m0 + 1, rem0 - days_in_month(y, m0));
    } else if m0 == 12 && rem0 >= days_in_month(y, m0) {
        assert(days_to_month(y, 13) == days_to_month(y, 12) + days_in_month(y, 12));
        assert(false);
    }
}

/// Splitting `days` into a calendar date and recombining gives `days`
/// back, and the date is valid.
pub proof fn lemma_ymd_of_days_inverse(days: int)
    requires
        0 <= days < 2930950,
    ensures
        ({
            let ymd = ymd_of_days(days);
            &&& valid_ymd(ymd.0, ymd.1, ymd.2)
            &&& days_from_civil(ymd.0, ymd.1, ymd.2) == days
        }),
{
    lemma_year_rec(1970, days);
    let yr = year_rec(1970, days);
    assert(days_to_year(1970) == 0);
    if yr.0 > 9999 {
        lemma_days_to_year_lower(yr.0);
        assert(days_to_year(yr.0) >= (yr.0 - 1970) * 365);
        assert((yr.0 - 1970) * 365 >= 8030 * 365) by (nonlinear_arith)
            requires
                yr.0 >= 10000,
        ;
        assert(false);
    }
    assert(days_to_month(yr.0, 1) == 0);
    lemma_month_rec(yr.0, 1, yr.1);
}


/// Ten to the `w`.
pub open spec fn pow10(w: nat) -> int
    decreases w,
{
    if w == 0 {
        1
    } else {
        10 * pow10((w - 1) as nat)
    }
}

/// Whether `y` is a leap year.
pub fn is_leap_year_exec(y: u64) -> (r: bool)
    ensures
        r == is_leap_year(y as int),
{
    y % 4 == 0 && (y % 100 != 0 || y % 400 == 0)
}

/// Days in year `y`.
pub fn days_in_year_exec(y: u64) -> (r: u64)
    ensures
        r as int == days_in_year(y as int),
{
    if is_leap_year_exec(y) {
        366
    } else {
        365
    }
}

/// Days in month `m` of year `y`.
pub fn days_in_month_exec(y: u64, m: u64) -> (r: u64)
    ensures
        r as int == days_in_month(y as int, m as int),
{
    if m == 2 {
        if is_leap_year_exec(y) {
            29
        } else {
            28
        }
    } else if m == 4 || m == 6 || m == 9 || m == 11 {
        30
    } else {
        31
    }
}

/// The calendar date `days` days after 1970-01-01.
pub fn civil_from_days(days: u64) -> (r: (u64, u64, u64))
    requires
        days < 2930950,
    ensures
        (r.0 as int, r.1 as int, r.2 as int) == ymd_of_days(days as int),
        valid_ymd(r.0 as int, r.1 as int, r.2 as int),
        days_from_civil(r.0 as int, r.1 as int, r.2 as int) == days as int,
{
    let mut y: u64 = 1970;
    let mut rem: u64 = days;
    let mut dy = days_in_year_exec(y);
    while rem >= dy
        invariant
            1970 <= y,
            dy as int == days_in_year(y as int),
            days_to_year(y as int) + rem == days,
            year_rec(1970, days as int) == year_rec(y as int, rem as int),
        decreases rem,
    {
        proof {
            lemma_days_to_year_lower(y as int);
        }
        rem = rem - dy;
        y = y + 1;
        dy = days_in_year_exec(y);
    }
    let ghost rem0 = rem as int;
    let mut m: u64 = 1;
    let mut dm = days_in_month_exec(y, m);
    while 12 > m && rem >= dm
        invariant
            1 <= m <= 12,
            rem <= rem0,
            dm as int == days_in_month(y as int, m as int),
            days_to_month(y as int, m as int) + rem == rem0,
            month_rec(y as int, 1, rem0) == month_rec(y as int, m as int, rem as int),
        decreases 12 - m,
    {
        rem = rem - dm;
        m = m + 1;
        dm = days_in_month_exec(y, m);
    }
    proof {
        lemma_ymd_of_days_inverse(days as int);
        if m == 12 && rem >= dm {
            lemma_year_rec(1970, days as int);
            lemma_months_sum(y as int);
            reveal_with_fuel(days_to_month, 13);
            assert(false);
        }
    }
    (y, m, rem + 1)
}

/// Days from 1970-01-01 to the calendar date `y`-`m`-`d`.
pub fn days_from_civil_exec(y: u64, m: u64, d: u64) -> (r: u64)
    requires
        valid_ymd(y as int, m as int, d as int),
    ensures
        r as int == days_from_civil(y as int, m as int, d as int),
        r < 2940000int,
{
    let mut acc: u64 = 0;
    let mut cy: u64 = 1970;
    while cy < y
        invariant
            1970 <= cy <= y,
            y <= 9999,
            acc as int == days_to_year(cy as int),
            acc <= (cy - 1970) * 366,
        decreases y - cy,
    {
        acc = acc + days_in_year_exec(cy);
        cy = cy + 1;
    }
    let mut cm: u64 = 1;
    while cm < m
        invariant
            1 <= cm <= m,
            m <= 12,
            y <= 9999,
            acc as int == days_to_year(y as int) + days_to_month(y as int, cm as int),
            acc <= (y - 1970) * 366 + (cm - 1) * 31,
        decreases m - cm,
    {
        acc = acc + days_in_month_exec(y, cm);
        cm = cm + 1;
    }
    acc + (d - 1)
}

/// ISO-8601 date-time with millisecond precision in UTC, for example
/// `2021-03-04T05:06:07.890Z`: exactly 24 bytes.
pub open spec fn iso_bytes(ms: int) -> Seq<u8> {
    let days = ms / 86400000;
    let rem = ms % 86400000;
    let ymd = ymd_of_days(days);
    dec_pad(ymd.0, 4) + seq!['-' as u8] + dec_pad(ymd.1, 2) + seq!['-' as u8] + dec_pad(ymd.2, 2)
        + seq!['T' as u8] + dec_pad(rem / 3600000, 2) + seq![':' as u8] + dec_pad(
        rem / 60000 % 60,
        2,
    ) + seq![':' as u8] + dec_pad(rem / 1000 % 60, 2) + seq!['.' as u8] + dec_pad(rem % 1000, 3)
        + seq!['Z' as u8]
}

/// Appends the ISO-8601 rendering of the timestamp `ms` to `out`.
pub fn push_iso(out: &mut Vec<u8>, ms: u64)
    requires
        ms <= MAX_EPOCH_MS,
    ensures
        final(out)@ == old(out)@ + iso_bytes(ms as int),
{
    let days = ms / MS_PER_DAY;
    let rem = ms % MS_PER_DAY;
    proof {
        vstd::arithmetic::div_mod::lemma_fundamental_div_mod(ms as int, 86400000);
        vstd::arithmetic::div_mod::lemma_mod_division_less_than_divisor(ms as int, 86400000);
        assert((days as int) < 2930950) by (nonlinear_arith)
            requires
                ms as int == 86400000 * (days as int) + (rem as int),
                0 <= (rem as int),
                ms <= 253234079999999,
        ;
    }
    let ymd = civil_from_days(days);
    push_pad(out, ymd.0, 4);
    out.push('-' as u8);
    push_pad(out, ymd.1, 2);
    out.push('-' as u8);
    push_pad(out, ymd.2, 2);
    out.push('T' as u8);
    push_pad(out, rem / MS_PER_HOUR, 2);
    out.push(':' as u8);
    push_pad(out, rem / MS_PER_MIN % 60, 2);
    out.push(':' as u8);
    push_pad(out, rem / MS_PER_SEC % 60, 2);
    out.push('.' as u8);
    push_pad(out, rem % 1000, 3);
    out.push('Z' as u8);
    proof {
        assert(out@ =~= old(out)@ + iso_bytes(ms as int));
    }
}

/// The timestamp whose ISO-8601 rendering is `s`, when `s` is exactly
/// such a rendering of a supported date; `None` otherwise.
pub open spec fn spec_parse_iso(s: Seq<u8>) -> Option<int> {
    if s.len() == 24 && s[4] == '-' as u8 && s[7] == '-' as u8 && s[10] == 'T' as u8 && s[13]
        == ':' as u8 && s[16] == ':' as u8 && s[19] == '.' as u8 && s[23] == 'Z' as u8
        && all_digits(s.subrange(0, 4)) && all_digits(s.subrange(5, 7)) && all_digits(
        s.subrange(8, 10),
    ) && all_digits(s.subrange(11, 13)) && all_digits(s.subrange(14, 16)) && all_digits(
        s.subrange(17, 19),
    ) && all_digits(s.subrange(20, 23)) {
        let y = digits_val(s.subrange(0, 4));
        let m = digits_val(s.subrange(5, 7));
        let d = digits_val(s.subrange(8, 10));
        let h = digits_val(s.subrange(11, 13));
        let mi = digits_val(s.subrange(14, 16));
        let sec = digits_val(s.subrange(17, 19));
        let msf = digits_val(s.subrange(20, 23));
        if valid_ymd(y, m, d) && h < 24 && mi < 60 && sec < 60 {
            Some(
                days_from_civil(y, m, d) * 86400000 + h * 3600000 + mi * 60000 + sec * 1000 + msf,
            )
        } else {
            None
        }
    } else {
        None
    }
}

/// Reads an ISO-8601 date-time with millisecond precision back into a
/// timestamp.
pub fn parse_iso(s: &[u8]) -> (r: Option<u64>)
    ensures
        match r {
            Some(v) => spec_parse_iso(s@) == Some(v as int),
            None => spec_parse_iso(s@) is None,
        },
{
    if s.len() != 24 {
        return None;
    }
    if !(s[4] == '-' as u8 && s[7] == '-' as u8 && s[10] == 'T' as u8 && s[13] == ':' as u8 && s[16]
        == ':' as u8 && s[19] == '.' as u8 && s[23] == 'Z' as u8) {
        return None;
    }
    let y = match parse_digits(s, 0, 4) {
        Some(v) => v,
        None => {
            return None;
        },
    };
    let m = match parse_digits(s, 5, 7) {
        Some(v) => v,
        None => {
            return None;
        },
    };
    let d = match parse_digits(s, 8, 10) {
        Some(v) => v,
        None => {
            return None;
        },
    };
    let h = match parse_digits(s, 11, 13) {
        Some(v) => v,
        None => {
            return None;
        },
    };
    let mi = match parse_digits(s, 14, 16) {
        Some(v) => v,
        None => {
            return None;
        },
    };
    let sec = match parse_digits(s, 17, 19) {
        Some(v) => v,
        None => {
            return None;
        },
    };
    let msf = match parse_digits(s, 20, 23) {
        Some(v) => v,
        None => {
            return None;
        },
    };
    if !(1970 <= y && y <= 9999 && 1 <= m && m <= 12 && 1 <= d && h < 24 && mi < 60 && sec < 60) {
        return None;
    }
    if d > days_in_month_exec(y, m) {
        return None;
    }
    let days = days_from_civil_exec(y, m, d);
    proof {
        reveal_with_fuel(pow10, 4);
    }
    Some(days * MS_PER_DAY + h * MS_PER_HOUR + mi * MS_PER_MIN + sec * MS_PER_SEC + msf)
}

/// The ISO-8601 rendering is always exactly 24 bytes.
pub proof fn lemma_iso_bytes_len(ms: int)
    ensures
        iso_bytes(ms).len() == 24,
{
    let days = ms / 86400000;
    let rem = ms % 86400000;
    let ymd = ymd_of_days(days);
    crate::json::lemma_dec_pad_len(ymd.0, 4);
    crate::json::lemma_dec_pad_len(ymd.1, 2);
    crate::json::lemma_dec_pad_len(ymd.2, 2);
    crate::json::lemma_dec_pad_len(rem / 3600000, 2);
    crate::json::lemma_dec_pad_len(rem / 60000 % 60, 2);
    crate::json::lemma_dec_pad_len(rem / 1000 % 60, 2);
    crate::json::lemma_dec_pad_len(rem % 1000, 3);
}

/// Rendering a supported timestamp and reading it back gives the
/// timestamp: the wire form keeps millisecond precision.
pub proof fn lemma_iso_round_trip(ms: int)
    requires
        0 <= ms <= MAX_EPOCH_MS,
    ensures
        spec_parse_iso(iso_bytes(ms)) == Some(ms),
{
    let days = ms / 86400000;
    let rem = ms % 86400000;
    vstd::arithmetic::div_mod::lemma_fundamental_div_mod(ms, 86400000);
    vstd::arithmetic::div_mod::lemma_mod_division_less_than_divisor(ms, 86400000);
    vstd::arithmetic::div_mod::lemma_div_pos_is_pos(ms, 86400000);
    assert(days < 2930950) by (nonlinear_arith)
        requires
            ms == 86400000 * days + rem,
            0 <= rem,
            ms <= 253234079999999,
    ;
    lemma_ymd_of_days_inverse(days);
    let ymd = ymd_of_days(days);
    let y = ymd.0;
    let m = ymd.1;
    let d = ymd.2;
    let h = rem / 3600000;
    let mi = rem / 60000 % 60;
    let sec = rem / 1000 % 60;
    let msf = rem % 1000;

    // bounds of the pieces
    vstd::arithmetic::div_mod::lemma_fundamental_div_mod(rem, 3600000);
    vstd::arithmetic::div_mod::lemma_mod_division_less_than_divisor(rem, 3600000);
    vstd::arithmetic::div_mod::lemma_div_pos_is_pos(rem, 3600000);
    assert(h < 24) by (nonlinear_arith)
        requires
            rem == 3600000 * h + rem % 3600000,
            0 <= rem % 3600000,
            rem < 86400000,
    ;
    vstd::arithmetic::div_mod::lemma_div_pos_is_pos(rem, 60000);
    vstd::arithmetic::div_mod::lemma_mod_division_less_than_divisor(rem / 60000, 60);
    vstd::arithmetic::div_mod::lemma_div_pos_is_pos(rem, 1000);
    vstd::arithmetic::div_mod::lemma_mod_division_less_than_divisor(rem / 1000, 60);
    vstd::arithmetic::div_mod::lemma_mod_division_less_than_divisor(rem, 1000);

    // the rendered pieces hold their values
    reveal_with_fuel(pow10, 5);
    crate::json::lemma_dec_pad_len(y, 4);
    crate::json::lemma_dec_pad_len(m, 2);
    crate::json::lemma_dec_pad_len(d, 2);
    crate::json::lemma_dec_pad_len(h, 2);
    crate::json::lemma_dec_pad_len(mi, 2);
    crate::json::lemma_dec_pad_len(sec, 2);
    crate::json::lemma_dec_pad_len(msf, 3);
    crate::json::lemma_dec_pad_val(y, 4);
    crate::json::lemma_dec_pad_val(m, 2);
    crate::json::lemma_dec_pad_val(d, 2);
    crate::json::lemma_dec_pad_val(h, 2);
    crate::json::lemma_dec_pad_val(mi, 2);
    crate::json::lemma_dec_pad_val(sec, 2);
    crate::json::lemma_dec_pad_val(msf, 3);

    let s = iso_bytes(ms);
    assert(s.len() == 24);
    assert(s.subrange(0, 4) =~= dec_pad(y, 4));
    assert(s.subrange(5, 7) =~= dec_pad(m, 2));
    assert(s.subrange(8, 10) =~= dec_pad(d, 2));
    assert(s.subrange(11, 13) =~= dec_pad(h, 2));
    assert(s.subrange(14, 16) =~= dec_pad(mi, 2));
    assert(s.subrange(17, 19) =~= dec_pad(sec, 2));
    assert(s.subrange(20, 23) =~= dec_pad(msf, 3));
    assert(s[4] == '-' as u8);
    assert(s[7] == '-' as u8);
    assert(s[10] == 'T' as u8);
    assert(s[13] == ':' as u8);
    assert(s[16] == ':' as u8);
    assert(s[19] == '.' as u8);
    assert(s[23] == 'Z' as u8);

    // recombining the pieces gives the timestamp back
    vstd::arithmetic::div_mod::lemma_breakdown(rem, 60000, 60);
    vstd::arithmetic::div_mod::lemma_breakdown(rem, 1000, 60);
    assert(rem % 3600000 == 60000 * mi + rem % 60000);
    assert(rem % 60000 == 1000 * sec + rem % 1000);
    assert(h * 3600000 + mi * 60000 + sec * 1000 + msf == rem);
    assert(days_from_civil(y, m, d) * 86400000 + h * 3600000 + mi * 60000 + sec * 1000 + msf
        == ms) by (nonlinear_arith)
        requires
            days_from_civil(y, m, d) == days,
            ms == 86400000 * days + rem,
            h * 3600000 + mi * 60000 + sec * 1000 + msf == rem,
    ;
}
} // verus!
