//! Proleptic Gregorian dates and RFC 3339 UTC timestamps from Unix seconds.

use vstd::prelude::*;

use crate::text::{decimal, push_char, push_padded_decimal, zero_padded};
use crate::account::month_days;

verus! {

/// The civil date `(year, month, day)` of the day `days` after 1970-01-01.
///
/// Days are counted in 400-year eras of 146097 days starting on 0000-03-01,
/// with the year starting in March so that the leap day ends it.
#[verifier::opaque]
pub open spec fn civil(days: int) -> (int, int, int) {
    let z = days + 719468;
    let era = z / 146097;
    let doe = z - era * 146097;
    let yoe = (doe - doe / 1460 + doe / 36524 - doe / 146096) / 365;
    let doy = doe - (365 * yoe + yoe / 4 - yoe / 100);
    let mp = (5 * doy + 2) / 153;
    let day = doy - (153 * mp + 2) / 5 + 1;
    let month = if mp < 10 { mp + 3 } else { mp - 9 };
    let year = yoe + era * 400 + if month <= 2 { 1int } else { 0int };
    (year, month, day)
}

/// The largest magnitude of a day count the date arithmetic accepts.
pub open spec fn day_limit() -> int {
    0x8000_0000_0000
}

proof fn lemma_floor_div(z: int, era: int)
    requires
        z >= 0 ==> era == z / 146097,
        z < 0 ==> era == -((146096 - z) / 146097),
    ensures
        era == z / 146097,
        0 <= z - era * 146097 < 146097,
{
    if z < 0 {
        let q = (146096 - z) / 146097;
        let r = (146096 - z) % 146097;
        assert(146096 - z == q * 146097 + r && 0 <= r < 146097);
        assert(z == -q * 146097 + (146096 - r));
        assert(0 <= 146096 - r < 146097);
        vstd::arithmetic::div_mod::lemma_fundamental_div_mod_converse(z, 146097, -q, 146096 - r);
    }
}

/// The year of era and the day of that year for a day of an era.
proof fn lemma_day_of_era(doe: u32)
    requires
        doe < 146097,
    ensures
        0 <= (doe - doe / 1460 + doe / 36524 - doe / 146096) / 365 <= 399,
        ({
            let yoe = (doe - doe / 1460 + doe / 36524 - doe / 146096) / 365;
            &&& 365 * yoe + yoe / 4 - yoe / 100 <= doe
            &&& doe - (365 * yoe + yoe / 4 - yoe / 100) <= 365
        }),
{
    assert(doe < 146097 ==> (doe - doe / 1460 + doe / 36524 - doe / 146096) / 365 <= 399)
        by (bit_vector);
    let yoe: u32 = ((doe - doe / 1460 + doe / 36524 - doe / 146096) / 365) as u32;
    assert(doe < 146097 && yoe == (doe - doe / 1460 + doe / 36524 - doe / 146096) / 365 ==> 365
        * yoe + yoe / 4 - yoe / 100 <= doe && doe - (365 * yoe + yoe / 4 - yoe / 100) <= 365)
        by (bit_vector);
}

/// Converts a day count since 1970-01-01 into a civil date.
pub fn civil_from_days(days: i64) -> (r: (i64, i64, i64))
    requires
        -day_limit() <= days <= day_limit(),
    ensures
        (r.0 as int, r.1 as int, r.2 as int) == civil(days as int),
        -0x1_0000_0000_0000 <= r.0 <= 0x1_0000_0000_0000,
        1 <= r.1 <= 12,
        1 <= r.2 <= 31,
{
    let z = days + 719_468;
    let era = if z >= 0 { z / 146_097 } else { -((146_096 - z) / 146_097) };
    proof {
        lemma_floor_div(z as int, era as int);
    }
    let doe = z - era * 146_097;
    proof {
        lemma_day_of_era(doe as u32);
    }
    let yoe = (doe - doe / 1460 + doe / 36_524 - doe / 146_096) / 365;
    let mut year = yoe + era * 400;
    let doy = doe - (365 * yoe + yoe / 4 - yoe / 100);
    let mp = (5 * doy + 2) / 153;
    let day = doy - (153 * mp + 2) / 5 + 1;
    let month = mp + if mp < 10 { 3 } else { -9 };
    if month <= 2 {
        year = year + 1;
    }
    proof {
        reveal(civil);
        law_civil_date_is_in_range(days as int);
    }
    (year, month, day)
}

/// Every date this calendar produces has a month of the year and a day that
/// some month has.
pub proof fn law_civil_date_is_in_range(days: int)
    ensures
        1 <= civil(days).1 <= 12,
        1 <= civil(days).2 <= 31,
{
    reveal(civil);
    let z = days + 719468;
    let era = z / 146097;
    let doe = z - era * 146097;
    assert(0 <= doe < 146097);
    lemma_day_of_era(doe as u32);
    let yoe = (doe - doe / 1460 + doe / 36524 - doe / 146096) / 365;
    let doy = doe - (365 * yoe + yoe / 4 - yoe / 100);
    assert(0 <= doy <= 365);
    let d: u32 = doy as u32;
    assert(d <= 365 ==> (5 * d + 2) / 153 <= 11 && (153 * ((5 * d + 2) / 153) + 2) / 5 <= d && d
        - (153 * ((5 * d + 2) / 153) + 2) / 5 + 1 <= 31) by (bit_vector);
}

/// Within one era, a day falls inside its month: thirty days at most in
/// April, June, September and November, and a twenty-ninth of February only
/// in a leap year of the era's count.
proof fn lemma_era_day_fits(doe: u32)
    requires
        doe < 146097,
    ensures
        ({
            let yoe = (doe - doe / 1460 + doe / 36524 - doe / 146096) / 365;
            let doy = doe - (365 * yoe + yoe / 4 - yoe / 100);
            let mp = (5 * doy + 2) / 153;
            let day = doy - (153 * mp + 2) / 5 + 1;
            &&& (mp == 1 || mp == 3 || mp == 6 || mp == 8) ==> day <= 30
            &&& mp == 11 ==> day <= 28 || (day == 29 && (yoe + 1) % 4 == 0 && ((yoe + 1) % 100 != 0 || (yoe + 1)
                % 400 == 0))
        }),
{
    lemma_day_of_era(doe);
    let yoe: u32 = ((doe - doe / 1460 + doe / 36524 - doe / 146096) / 365) as u32;
    let doy: u32 = (doe - (365 * yoe + yoe / 4 - yoe / 100)) as u32;
    assert(doy <= 365 ==> ((5 * doy + 2) / 153 == 1 || (5 * doy + 2) / 153 == 3 || (5 * doy + 2) / 153 == 6 || (5
        * doy + 2) / 153 == 8) ==> doy - (153 * ((5 * doy + 2) / 153) + 2) / 5 + 1 <= 30) by (bit_vector);
    assert(doy <= 365 ==> (5 * doy + 2) / 153 == 11 ==> doy - (153 * ((5 * doy + 2) / 153) + 2) / 5 + 1 <= 28 || doy
        == 365) by (bit_vector);
    let next: u32 = (yoe + 1) as u32;
    assert(doe < 146097 && yoe == (doe - doe / 1460 + doe / 36524 - doe / 146096) / 365 && doy == doe - (365 * yoe
        + yoe / 4 - yoe / 100) && next == yoe + 1 && doy == 365 ==> next % 4 == 0 && (next % 100 != 0 || next % 400
        == 0)) by (bit_vector);
    assert(doy <= 365 ==> (5 * doy + 2) / 153 == 11 && doy == 365 ==> doy - (153 * ((5 * doy + 2) / 153) + 2) / 5
        + 1 == 29) by (bit_vector);
}

/// The last era this calendar names in four digits ends with the year 9999.
proof fn lemma_last_era_years(doe: u32)
    requires
        doe <= 146036,
    ensures
        ({
            let yoe = (doe - doe / 1460 + doe / 36524 - doe / 146096) / 365;
            let doy = doe - (365 * yoe + yoe / 4 - yoe / 100);
            let mp = (5 * doy + 2) / 153;
            yoe + (if mp >= 10 { 1int } else { 0int }) <= 399
        }),
{
    lemma_day_of_era(doe);
    let yoe: u32 = ((doe - doe / 1460 + doe / 36524 - doe / 146096) / 365) as u32;
    let doy: u32 = (doe - (365 * yoe + yoe / 4 - yoe / 100)) as u32;
    assert(doe <= 146036 && yoe == (doe - doe / 1460 + doe / 36524 - doe / 146096) / 365 && doy == doe - (365 * yoe
        + yoe / 4 - yoe / 100) && yoe == 399 ==> (5 * doy + 2) / 153 < 10) by (bit_vector);
}

/// A day from 1970-01-01 through 9999-12-31 has a four-digit year, and its
/// day exists in its month.
pub proof fn law_civil_date_exists(days: int)
    requires
        0 <= days <= 2932896,
    ensures
        0 <= civil(days).0 <= 9999,
        1 <= civil(days).2 <= month_days(civil(days).0, civil(days).1),
{
    law_civil_date_is_in_range(days);
    reveal(civil);
    let z = days + 719468;
    let era = z / 146097;
    let doe = z - era * 146097;
    assert(0 <= doe < 146097);
    assert(4 <= era <= 24);
    lemma_day_of_era(doe as u32);
    lemma_era_day_fits(doe as u32);
    let yoe = (doe - doe / 1460 + doe / 36524 - doe / 146096) / 365;
    let doy = doe - (365 * yoe + yoe / 4 - yoe / 100);
    let mp = (5 * doy + 2) / 153;
    let month = if mp < 10 { mp + 3 } else { mp - 9 };
    let year = yoe + era * 400 + if month <= 2 { 1int } else { 0int };
    assert(civil(days).0 == year);
    assert(civil(days).1 == month);
    if era == 24 {
        assert(doe <= 146036);
        lemma_last_era_years(doe as u32);
    }
    if month == 2 {
        let y = yoe + 1;
        assert(year == y + 400 * era);
        vstd::arithmetic::div_mod::lemma_mod_multiples_vanish(100 * era, y, 4);
        vstd::arithmetic::div_mod::lemma_mod_multiples_vanish(4 * era, y, 100);
        vstd::arithmetic::div_mod::lemma_mod_multiples_vanish(era, y, 400);
        assert(4 * (100 * era) + y == year);
        assert(100 * (4 * era) + y == year);
        assert(400 * era + y == year);
    }
}

/// A number in decimal, zero-padded to `width` characters after its sign.
pub open spec fn signed_padded(v: int, width: nat) -> Seq<char> {
    if v < 0 {
        seq!['-'] + zero_padded(decimal((-v) as nat), (width - 1) as nat)
    } else {
        zero_padded(decimal(v as nat), width)
    }
}

/// `YYYY-MM-DD` for a civil date.
pub open spec fn date_text(date: (int, int, int)) -> Seq<char> {
    signed_padded(date.0, 4) + seq!['-'] + zero_padded(decimal(date.1 as nat), 2) + seq!['-']
        + zero_padded(decimal(date.2 as nat), 2)
}

/// `HH:MM:SS` for a count of seconds into a day.
pub open spec fn clock_text(ds: int) -> Seq<char> {
    zero_padded(decimal((ds / 3600) as nat), 2) + seq![':'] + zero_padded(decimal((ds / 60 % 60) as nat), 2)
        + seq![':'] + zero_padded(decimal((ds % 60) as nat), 2)
}

/// `YYYY-MM-DDTHH:MM:SS` for a count of seconds since the Unix epoch.
pub open spec fn date_time_text(s: int) -> Seq<char> {
    date_text(civil(s / 86400)) + seq!['T'] + clock_text(s % 86400)
}

/// The instant `seconds` after the epoch as RFC 3339 UTC seconds; counts past
/// the signed 64-bit range wrap as two's complement.
pub open spec fn rfc3339_text(seconds: u64) -> Seq<char> {
    date_time_text((seconds as i64) as int) + seq!['Z']
}

/// Appends a signed number, zero-padded to `width` characters after its sign.
fn push_signed_padded(out: &mut String, v: i64, width: u64)
    requires
        1 <= width <= 20,
        v > i64::MIN,
    ensures
        final(out)@ == old(out)@ + signed_padded(v as int, width as nat),
{
    if v < 0 {
        push_char(out, '-');
        push_padded_decimal(out, (-v) as u64, width - 1);
        proof {
            assert(final(out)@ =~= old(out)@ + signed_padded(v as int, width as nat));
        }
    } else {
        push_padded_decimal(out, v as u64, width);
    }
}

/// Splits seconds into whole days and the seconds into the last day, flooring.
fn split_day(s: i64) -> (r: (i64, i64))
    ensures
        r.0 == s / 86400,
        r.1 == s % 86400,
        -day_limit() <= r.0 <= day_limit(),
{
    let mut days = s / 86_400;
    let mut rem = s % 86_400;
    if rem < 0 {
        days = days - 1;
        rem = rem + 86_400;
    }
    (days, rem)
}

fn push_date(out: &mut String, date: (i64, i64, i64))
    requires
        -0x1_0000_0000_0000 <= date.0 <= 0x1_0000_0000_0000,
        1 <= date.1 <= 12,
        1 <= date.2 <= 31,
    ensures
        final(out)@ == old(out)@ + date_text((date.0 as int, date.1 as int, date.2 as int)),
{
    push_signed_padded(out, date.0, 4);
    push_char(out, '-');
    push_padded_decimal(out, date.1 as u64, 2);
    push_char(out, '-');
    push_padded_decimal(out, date.2 as u64, 2);
    proof {
        assert(final(out)@ =~= old(out)@ + date_text((date.0 as int, date.1 as int, date.2 as int)));
    }
}

fn push_clock(out: &mut String, rem: i64)
    requires
        0 <= rem < 86400,
    ensures
        final(out)@ == old(out)@ + clock_text(rem as int),
{
    push_padded_decimal(out, (rem / 3600) as u64, 2);
    push_char(out, ':');
    push_padded_decimal(out, (rem / 60 % 60) as u64, 2);
    push_char(out, ':');
    push_padded_decimal(out, (rem % 60) as u64, 2);
    proof {
        assert(final(out)@ =~= old(out)@ + clock_text(rem as int));
    }
}

/// Appends `YYYY-MM-DDTHH:MM:SS` for a count of seconds since the epoch.
fn push_date_time(out: &mut String, s: i64)
    ensures
        final(out)@ == old(out)@ + date_time_text(s as int),
{
    let (days, rem) = split_day(s);
    let date = civil_from_days(days);
    let ghost before = out@;
    push_date(out, date);
    push_char(out, 'T');
    push_clock(out, rem);
    proof {
        assert(civil(s as int / 86400) == (date.0 as int, date.1 as int, date.2 as int));
        assert(out@ =~= before + date_time_text(s as int));
    }
}

/// Formats an instant, given as whole seconds since the Unix epoch, as RFC 3339
/// UTC seconds.
pub fn rfc3339_utc(seconds: u64) -> (r: String)
    ensures
        r@ == rfc3339_text(seconds),
{
    let mut out = String::new();
    push_date_time(&mut out, seconds as i64);
    push_char(&mut out, 'Z');
    out
}

/// The log record timestamp: RFC 3339 UTC with milliseconds; a count of seconds
/// past the signed 64-bit range saturates.
pub open spec fn log_timestamp_text(seconds: u64, millis: u32) -> Seq<char> {
    let s: int = if seconds > i64::MAX { i64::MAX as int } else { seconds as int };
    date_time_text(s) + seq!['.'] + zero_padded(decimal(millis as nat), 3) + seq!['Z']
}

/// Formats a log record's timestamp from the seconds and milliseconds since the epoch.
pub fn log_timestamp(seconds: u64, millis: u32) -> (r: String)
    ensures
        r@ == log_timestamp_text(seconds, millis),
{
    let s: i64 = if seconds > 0x7fff_ffff_ffff_ffff { 0x7fff_ffff_ffff_ffff } else { seconds as i64 };
    let mut out = String::new();
    push_date_time(&mut out, s);
    push_char(&mut out, '.');
    push_padded_decimal(&mut out, millis as u64, 3);
    push_char(&mut out, 'Z');
    out
}

} // verus!
