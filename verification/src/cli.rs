//! Non-interactive command-line subcommands: `backup` and `restore`.
//!
//! Pure argument parsing lives here; running the parsed command is the
//! program's business.
use vstd::prelude::*;
use crate::num::{pad_left, pad_left_exec, radix_digits, radix_digits_exec};
use crate::clock::{unix_now, MAX_CLOCK_SECS};
use crate::profile::texts;
use crate::text::{
    append_vec, chars_of, eq_str, owned, split_char, split_char_vec, starts_with,
    starts_with_str, string_of, trim, trim_vec, utf8_len, utf8_len_exec, views,
};

verus! {

/// Parsed command-line invocation.
#[derive(Debug, Clone, PartialEq)]
pub enum Command {
    /// Interactive TUI mode (default when no subcommand is given).
    Tui { destination: String },
    /// Non-interactive backup run.
    Backup { profiles: Option<Vec<String>>, with_appdata: bool, destination: String },
    /// Non-interactive restore run.
    Restore { with_appdata: Option<String>, backup_dir: String },
}

/// Result of parsing: either a `Command`, help requested, or an error.
#[derive(Debug, Clone, PartialEq)]
pub enum ParseOutcome {
    Run(Command),
    Help,
    Error(String),
}

/// Mathematical model of a [`Command`].
pub enum CommandModel {
    Tui { destination: Seq<char> },
    Backup { profiles: Option<Seq<Seq<char>>>, with_appdata: bool, destination: Seq<char> },
    Restore { with_appdata: Option<Seq<char>>, backup_dir: Seq<char> },
}

/// Mathematical model of a [`ParseOutcome`].
pub enum OutcomeModel {
    Run(CommandModel),
    Help,
    Error(Seq<char>),
}

impl View for Command {
    type V = CommandModel;

    open spec fn view(&self) -> CommandModel {
        match self {
            Command::Tui { destination } => CommandModel::Tui { destination: destination@ },
            Command::Backup { profiles, with_appdata, destination } => CommandModel::Backup {
                profiles: match profiles {
                    Some(p) => Some(texts(p@)),
                    None => None,
                },
                with_appdata: *with_appdata,
                destination: destination@,
            },
            Command::Restore { with_appdata, backup_dir } => CommandModel::Restore {
                with_appdata: match with_appdata {
                    Some(t) => Some(t@),
                    None => None,
                },
                backup_dir: backup_dir@,
            },
        }
    }
}

impl View for ParseOutcome {
    type V = OutcomeModel;

    open spec fn view(&self) -> OutcomeModel {
        match self {
            ParseOutcome::Run(c) => OutcomeModel::Run(c@),
            ParseOutcome::Help => OutcomeModel::Help,
            ParseOutcome::Error(m) => OutcomeModel::Error(m@),
        }
    }
}

// ---------------------------------------------------------------------------
// Calendar
// ---------------------------------------------------------------------------

/// The UTC civil date and time of a unix timestamp as
/// (year, month, day, hour, minute, second), by the days-to-civil algorithm
/// of Howard Hinnant (Euclidean division throughout).
pub open spec fn spec_civil_from_unix(secs: int) -> (int, int, int, int, int, int) {
    let days = secs / 86400;
    let rem = secs % 86400;
    let z = days + 719468;
    let era = z / 146097;
    let doe = z % 146097;
    let yoe = (doe - doe / 1460 + doe / 36524 - doe / 146096) / 365;
    let y = yoe + era * 400;
    let doy = doe - (365 * yoe + yoe / 4 - yoe / 100);
    let mp = (5 * doy + 2) / 153;
    let d = doy - (153 * mp + 2) / 5 + 1;
    let m = if mp < 10 {
        mp + 3
    } else {
        mp - 9
    };
    let y2 = if m <= 2 {
        y + 1
    } else {
        y
    };
    (y2, m, d, rem / 3600, (rem % 3600) / 60, rem % 60)
}

proof fn lemma_civil_ranges(secs: int)
    ensures
        ({
            let (y, m, d, h, mi, s) = spec_civil_from_unix(secs);
            &&& 1 <= m <= 12
            &&& 1 <= d <= 31
            &&& 0 <= h < 24
            &&& 0 <= mi < 60
            &&& 0 <= s < 60
        }),
{
    let days = secs / 86400;
    let rem = secs % 86400;
    let z = days + 719468;
    let doe = z % 146097;
    assert(0 <= doe < 146097);
    let a = doe / 1460;
    let b = doe / 36524;
    let c = doe / 146096;
    assert(0 <= a <= doe / 1460);
    assert(a * 1460 <= doe) by (nonlinear_arith)
        requires
            a == doe / 1460,
            doe >= 0,
    ;
    assert(b <= 4 && c <= 1 && b >= 0 && c >= 0 && a >= 0) by (nonlinear_arith)
        requires
            0 <= doe < 146097,
            a == doe / 1460,
            b == doe / 36524,
            c == doe / 146096,
    ;
    let yoe = (doe - a + b - c) / 365;
    assert(0 <= yoe <= 399) by (nonlinear_arith)
        requires
            0 <= doe < 146097,
            a == doe / 1460,
            b == doe / 36524,
            c == doe / 146096,
            yoe == (doe - a + b - c) / 365,
    ;
    let doy = doe - (365 * yoe + yoe / 4 - yoe / 100);
    assert(0 <= doy <= 365) by (nonlinear_arith)
        requires
            0 <= doe < 146097,
            a == doe / 1460,
            b == doe / 36524,
            c == doe / 146096,
            yoe == (doe - a + b - c) / 365,
            doy == doe - (365 * yoe + yoe / 4 - yoe / 100),
    ;
    let mp = (5 * doy + 2) / 153;
    assert(0 <= mp <= 11) by (nonlinear_arith)
        requires
            0 <= doy <= 365,
            mp == (5 * doy + 2) / 153,
    ;
    let d = doy - (153 * mp + 2) / 5 + 1;
    assert(1 <= d <= 31) by (nonlinear_arith)
        requires
            0 <= doy <= 365,
            mp == (5 * doy + 2) / 153,
            d == doy - (153 * mp + 2) / 5 + 1,
    ;
    assert(0 <= rem < 86400);
    assert(0 <= rem / 3600 < 24);
    assert(0 <= (rem % 3600) / 60 < 60);
}

/// Whether `y` is a leap year of the proleptic Gregorian calendar.
pub open spec fn is_leap_year(y: int) -> bool {
    (y % 4 == 0 && y % 100 != 0) || y % 400 == 0
}

/// The number of days of month `m` (1 to 12) of year `y`.
pub open spec fn days_in_month(y: int, m: int) -> int {
    if m == 2 {
        if is_leap_year(y) {
            29
        } else {
            28
        }
    } else if m == 4 || m == 6 || m == 9 || m == 11 {
        30
    } else {
        31
    }
}

/// The days of year `y` before the first of month `m`.
pub open spec fn days_before_month(y: int, m: int) -> int
    decreases m,
{
    if m <= 1 {
        0
    } else {
        days_before_month(y, m - 1) + days_in_month(y, m - 1)
    }
}

/// The leap years among the years `1..=y` (for `y` below 1, minus those
/// among `y + 1..=0`).
pub open spec fn leap_years_through(y: int) -> int {
    y / 4 - y / 100 + y / 400
}

/// The days from 1970-01-01 to the first of January of year `y` (negative
/// before 1970): 365 for each year between, one more for each leap year.
pub open spec fn days_before_year(y: int) -> int {
    365 * (y - 1970) + leap_years_through(y - 1) - leap_years_through(1969)
}

/// The days from 1970-01-01 to the date `y`-`m`-`d`.
pub open spec fn days_from_civil(y: int, m: int, d: int) -> int {
    days_before_year(y) + days_before_month(y, m) + d - 1
}

proof fn lemma_leap_step(y: int)
    ensures
        leap_years_through(y) == leap_years_through(y - 1) + if is_leap_year(y) {
            1int
        } else {
            0int
        },
{
}

proof fn lemma_leaps_in_era(yoe: int, era: int)
    requires
        0 <= yoe < 400,
    ensures
        leap_years_through(yoe + era * 400) == yoe / 4 - yoe / 100 + 97 * era,
{
    assert((yoe + era * 400) / 4 == yoe / 4 + era * 100);
    assert((yoe + era * 400) / 100 == yoe / 100 + era * 4);
    assert((yoe + era * 400) / 400 == era);
}

/// The day of an era (of 400 years from a first of March) that its year
/// `k` starts on.
spec fn year_start(k: int) -> int {
    365 * k + k / 4 - k / 100
}

/// The year of an era that the day `doe` of it falls in.
spec fn year_of_era(doe: int) -> int {
    (doe - doe / 1460 + doe / 36524 - doe / 146096) / 365
}

proof fn lemma_year_start_found(k: int)
    requires
        0 <= k <= 399,
    ensures
        year_of_era(year_start(k)) == k,
{
    let q = k / 4;
    let p = k / 100;
    let x = year_start(k);
    assert(k == 4 * q + k % 4);
    assert(k == 100 * p + k % 100);
    assert(0 <= x <= 145731) by (nonlinear_arith)
        requires
            0 <= k <= 399,
            x == 365 * k + k / 4 - k / 100,
    ;
    assert(x / 1460 == q) by (nonlinear_arith)
        requires
            x == 365 * k + q - p,
            k == 4 * q + k % 4,
            0 <= k % 4 < 4,
            0 <= p <= q,
            p <= 3,
            q <= 99,
    ;
    assert(q == 25 * p + (k % 100) / 4) by (nonlinear_arith)
        requires
            k == 100 * p + k % 100,
            q == k / 4,
            0 <= k % 100 < 100,
    ;
    assert(x / 36524 == p) by (nonlinear_arith)
        requires
            x == 365 * k + q - p,
            k == 100 * p + k % 100,
            0 <= k % 100 < 100,
            q == 25 * p + (k % 100) / 4,
            0 <= (k % 100) / 4 <= 24,
    ;
    assert(x / 146096 == 0);
}

/// The first of March of year `yoe` of era `era` falls `start` days after
/// 1970-01-01.
proof fn lemma_march_first(yoe: int, era: int)
    requires
        0 <= yoe <= 399,
    ensures
        days_before_year(yoe + era * 400) + 59 + (if is_leap_year(yoe + era * 400) {
            1int
        } else {
            0int
        }) == era * 146097 + 365 * yoe + yoe / 4 - yoe / 100 - 719468,
{
    let y = yoe + era * 400;
    lemma_leaps_in_era(yoe, era);
    lemma_leap_step(y);
}

/// Day `doy` (from 0) of the year that starts on the first of March of
/// year `y` is the day `d` of month `m` of the year `y2`, counted from
/// January, with `d` inside the month (a 29th of February only as the
/// 366th day).
proof fn lemma_day_of_march_year(y: int, doy: int)
    requires
        0 <= doy <= 365,
    ensures
        ({
            let mp = (5 * doy + 2) / 153;
            let d = doy - (153 * mp + 2) / 5 + 1;
            let m = if mp < 10 {
                mp + 3
            } else {
                mp - 9
            };
            let y2 = if m <= 2 {
                y + 1
            } else {
                y
            };
            &&& 1 <= m <= 12
            &&& 1 <= d
            &&& m != 2 ==> d <= days_in_month(y2, m)
            &&& m == 2 ==> d <= 29 && (d == 29 ==> doy == 365)
            &&& days_before_year(y2) + days_before_month(y2, m) + d - 1 == days_before_year(y) + 59
                + (if is_leap_year(y) {
                1int
            } else {
                0int
            }) + doy
        }),
{
    let mp = (5 * doy + 2) / 153;
    assert(0 <= mp <= 11 && 153 * mp <= 5 * doy + 2 < 153 * mp + 153) by (nonlinear_arith)
        requires
            mp == (5 * doy + 2) / 153,
            0 <= doy <= 365,
    ;
    lemma_leap_step(y);
    reveal_with_fuel(days_before_month, 13);
    let leap = if is_leap_year(y) {
        1int
    } else {
        0int
    };
    if mp == 0 {
        assert(days_before_month(y, 3) == 59 + leap);
    } else if mp == 1 {
        assert(days_before_month(y, 4) == 90 + leap);
    } else if mp == 2 {
        assert(days_before_month(y, 5) == 120 + leap);
    } else if mp == 3 {
        assert(days_before_month(y, 6) == 151 + leap);
    } else if mp == 4 {
        assert(days_before_month(y, 7) == 181 + leap);
    } else if mp == 5 {
        assert(days_before_month(y, 8) == 212 + leap);
    } else if mp == 6 {
        assert(days_before_month(y, 9) == 243 + leap);
    } else if mp == 7 {
        assert(days_before_month(y, 10) == 273 + leap);
    } else if mp == 8 {
        assert(days_before_month(y, 11) == 304 + leap);
    } else if mp == 9 {
        assert(days_before_month(y, 12) == 334 + leap);
    } else {
        assert(days_before_year(y + 1) == days_before_year(y) + 365 + leap);
        assert(days_before_month(y + 1, 2) == 31);
    }
}

/// A 366th day of year `yoe` of an era is a 29th of February: the year of
/// the calendar that it falls in is a leap year.
proof fn lemma_long_year(yoe: int, era: int, doe: int)
    requires
        0 <= yoe <= 399,
        doe == year_start(yoe) + 365,
        yoe == year_of_era(doe),
    ensures
        is_leap_year(yoe + era * 400 + 1),
{
    assert(((yoe + 1) + era * 400) % 4 == (yoe + 1) % 4);
    assert(((yoe + 1) + era * 400) % 100 == (yoe + 1) % 100);
    assert(((yoe + 1) + era * 400) % 400 == (yoe + 1) % 400);
    if yoe < 399 && !((yoe + 1) % 4 == 0 && (yoe + 1) % 100 != 0) {
        assert(year_start(yoe + 1) == year_start(yoe) + 365);
        lemma_year_start_found(yoe + 1);
    }
}

/// The civil date of a unix timestamp is a date of the Gregorian calendar,
/// and counting the days and seconds up to it gives the timestamp back.
pub proof fn lemma_civil_from_unix_round_trip(secs: int)
    ensures
        ({
            let (y, m, d, h, mi, s) = spec_civil_from_unix(secs);
            &&& 1 <= m <= 12
            &&& 1 <= d <= days_in_month(y, m)
            &&& 0 <= h < 24
            &&& 0 <= mi < 60
            &&& 0 <= s < 60
            &&& days_from_civil(y, m, d) * 86400 + h * 3600 + mi * 60 + s == secs
        }),
{
    lemma_civil_ranges(secs);
    let days = secs / 86400;
    let rem = secs % 86400;
    let z = days + 719468;
    let era = z / 146097;
    let doe = z % 146097;
    let yoe = year_of_era(doe);
    let doy = doe - (365 * yoe + yoe / 4 - yoe / 100);
    assert(0 <= yoe <= 399 && 0 <= doy <= 365) by (nonlinear_arith)
        requires
            0 <= doe < 146097,
            yoe == (doe - doe / 1460 + doe / 36524 - doe / 146096) / 365,
            doy == doe - (365 * yoe + yoe / 4 - yoe / 100),
    ;
    assert(rem == (rem / 3600) * 3600 + ((rem % 3600) / 60) * 60 + rem % 60) by (nonlinear_arith)
        requires
            0 <= rem < 86400,
    ;
    assert(secs == days * 86400 + rem);
    assert(z == era * 146097 + doe);
    lemma_march_first(yoe, era);
    lemma_day_of_march_year(yoe + era * 400, doy);
    let (y2, m, d, h, mi, s) = spec_civil_from_unix(secs);
    if m == 2 && d == 29 {
        lemma_long_year(yoe, era, doe);
    }
}

/// Convert a unix timestamp into (year, month, day, hour, min, sec) in UTC.
pub fn civil_from_unix(secs: i64) -> (r: (i64, u32, u32, u32, u32, u32))
    ensures
        (r.0 as int, r.1 as int, r.2 as int, r.3 as int, r.4 as int, r.5 as int)
            == spec_civil_from_unix(secs as int),
        1 <= r.1 <= 12,
        1 <= r.2 <= days_in_month(r.0 as int, r.1 as int),
        r.3 < 24,
        r.4 < 60,
        r.5 < 60,
        days_from_civil(r.0 as int, r.1 as int, r.2 as int) * 86400 + r.3 * 3600 + r.4 * 60 + r.5
            == secs,
{
    proof {
        lemma_civil_ranges(secs as int);
        lemma_civil_from_unix_round_trip(secs as int);
    }
    let days = secs.checked_div_euclid(86400).unwrap();
    let rem = secs.checked_rem_euclid(86400).unwrap();
    assert(-106751991167301 <= days <= 106751991167300) by (nonlinear_arith)
        requires
            days == secs as int / 86400,
            i64::MIN <= secs <= i64::MAX,
    ;
    let z = days + 719468;
    let era = z.checked_div_euclid(146097).unwrap();
    let doe = z.checked_rem_euclid(146097).unwrap();
    assert(-800000000 <= era <= 800000000) by (nonlinear_arith)
        requires
            era == z as int / 146097,
            -106751991167301 + 719468 <= z <= 106751991167300 + 719468,
    ;
    let yoe = (doe - doe.checked_div_euclid(1460).unwrap() + doe.checked_div_euclid(
        36524,
    ).unwrap() - doe.checked_div_euclid(146096).unwrap()).checked_div_euclid(365).unwrap();
    assert(0 <= yoe <= 399) by (nonlinear_arith)
        requires
            0 <= doe < 146097,
            yoe == (doe - doe / 1460 + doe / 36524 - doe / 146096) / 365,
    ;
    let y = yoe + era * 400;
    let doy = doe - (365 * yoe + yoe.checked_div_euclid(4).unwrap() - yoe.checked_div_euclid(
        100,
    ).unwrap());
    assert(0 <= doy <= 365) by (nonlinear_arith)
        requires
            0 <= doe < 146097,
            yoe == (doe - doe / 1460 + doe / 36524 - doe / 146096) / 365,
            doy == doe - (365 * yoe + yoe / 4 - yoe / 100),
    ;
    let mp = (5 * doy + 2).checked_div_euclid(153).unwrap();
    let d = doy - (153 * mp + 2).checked_div_euclid(5).unwrap() + 1;
    let m = if mp < 10 {
        mp + 3
    } else {
        mp - 9
    };
    let y2 = if m <= 2 {
        y + 1
    } else {
        y
    };
    let h = rem.checked_div_euclid(3600).unwrap();
    let mi = rem.checked_rem_euclid(3600).unwrap().checked_div_euclid(60).unwrap();
    let s = rem.checked_rem_euclid(60).unwrap();
    (y2, m as u32, d as u32, h as u32, mi as u32, s as u32)
}

// ---------------------------------------------------------------------------
// Timestamps
// ---------------------------------------------------------------------------

/// Decimal text of `v` padded with zeros to `width` characters (sign included),
/// as `format!("{:0width$}")` writes it.
pub open spec fn zero_padded(v: int, width: int) -> Seq<char> {
    if v < 0 {
        seq!['-'] + pad_left(radix_digits((-v) as nat, 10), width - 1, '0')
    } else {
        pad_left(radix_digits(v as nat, 10), width, '0')
    }
}

fn zero_padded_exec(v: i64, width: usize) -> (r: Vec<char>)
    requires
        width >= 1,
    ensures
        r@ == zero_padded(v as int, width as int),
{
    if v < 0 {
        let mag: u128 = (0i128 - v as i128) as u128;
        let digits = radix_digits_exec(mag, 10);
        let padded = pad_left_exec(digits, width - 1, '0');
        let mut r: Vec<char> = Vec::new();
        r.push('-');
        append_vec(&mut r, &padded);
        assert(r@ =~= zero_padded(v as int, width as int));
        r
    } else {
        let digits = radix_digits_exec(v as u128, 10);
        pad_left_exec(digits, width, '0')
    }
}

/// `YYYYmmdd_HHMMSS` of the wall-clock time `secs` seconds after 1970-01-01
/// 00:00:00 (UTC when `secs` is a unix time, local once shifted by the zone's
/// offset).
pub open spec fn timestamp_text(secs: int) -> Seq<char> {
    let (y, mo, d, h, mi, s) = spec_civil_from_unix(secs);
    zero_padded(y, 4) + zero_padded(mo, 2) + zero_padded(d, 2) + seq!['_'] + zero_padded(h, 2)
        + zero_padded(mi, 2) + zero_padded(s, 2)
}

/// `YYYYmmdd_HHMMSS` of the wall-clock time `secs` seconds after 1970-01-01
/// 00:00:00.
pub fn timestamp_at(secs: i64) -> (r: String)
    ensures
        r@ == timestamp_text(secs as int),
{
    let (y, mo, d, h, mi, s) = civil_from_unix(secs);
    let mut t = zero_padded_exec(y, 4);
    append_vec(&mut t, &zero_padded_exec(mo as i64, 2));
    append_vec(&mut t, &zero_padded_exec(d as i64, 2));
    t.push('_');
    append_vec(&mut t, &zero_padded_exec(h as i64, 2));
    append_vec(&mut t, &zero_padded_exec(mi as i64, 2));
    append_vec(&mut t, &zero_padded_exec(s as i64, 2));
    assert(t@ =~= timestamp_text(secs as int));
    string_of(&t)
}

/// The wall-clock text of the clock reading `t` in a zone `utc_offset`
/// seconds off UTC.
pub open spec fn local_text(t: int, utc_offset: int) -> Seq<char> {
    timestamp_text(t + utc_offset)
}

/// The default backup destination for the clock reading `t` in a zone
/// `utc_offset` seconds off UTC.
pub open spec fn local_dest(t: int, utc_offset: int) -> Seq<char> {
    backup_dest_at(t + utc_offset)
}

/// The local wall-clock time now, `YYYYmmdd_HHMMSS`: the clock's reading
/// (in seconds after the epoch) shifted by the local time zone's offset
/// from UTC, `utc_offset` seconds.
pub fn chrono_now(utc_offset: i32) -> (r: String)
    requires
        -86_400 < utc_offset < 86_400,
    ensures
        exists|t: int| 0 <= t <= MAX_CLOCK_SECS && r@ == #[trigger] local_text(t, utc_offset as int),
{
    let (secs, _) = unix_now();
    let local = secs + utc_offset as i64;
    let r = timestamp_at(local);
    assert(r@ == local_text(secs as int, utc_offset as int));
    r
}

/// The default backup destination for the unix time `secs`.
pub open spec fn backup_dest_at(secs: int) -> Seq<char> {
    "andpull_backup_"@ + timestamp_text(secs)
}

/// `andpull_backup_<timestamp>` for the current time.
pub fn default_backup_destination(utc_offset: i32) -> (r: String)
    requires
        -86_400 < utc_offset < 86_400,
    ensures
        exists|t: int| 0 <= t <= MAX_CLOCK_SECS && r@ == #[trigger] local_dest(t, utc_offset as int),
{
    let now = chrono_now(utc_offset);
    let mut v = chars_of("andpull_backup_");
    append_vec(&mut v, &chars_of(now.as_str()));
    let r = string_of(&v);
    proof {
        let t = choose|t: int| 0 <= t <= MAX_CLOCK_SECS && now@ == #[trigger] local_text(t, utc_offset as int);
        assert(r@ =~= local_dest(t, utc_offset as int));
    }
    r
}

// ---------------------------------------------------------------------------
// Argument parsing
// ---------------------------------------------------------------------------

/// The usage text.
pub open spec fn usage_text() -> Seq<char> {
    "\u{26a1} andpull \u{2014} Android backup tool

USAGE:
    andpull                                  Launch the interactive TUI
    andpull backup [OPTIONS] [DEST]          Non-interactive backup
    andpull restore [OPTIONS] [BACKUP_DIR]   Non-interactive restore
    andpull --help                           Show this help

BACKUP OPTIONS:
    --profiles <a,b,c>   Comma-separated profile names to back up
                         (default: all builtin profiles)
    --with-appdata       Also back up app data (requires root) to
                         DEST/<profile>_appdata.tar
    DEST                 Output directory (default: ./andpull_backup_<timestamp>)

RESTORE OPTIONS:
    --with-appdata <tar> Also restore app data from the given tar file
                         (requires root)
    BACKUP_DIR           Backup directory to push from
                         (default: newest ./andpull_backup_*)

EXAMPLES:
    andpull backup
    andpull backup --profiles whatsapp --with-appdata /mnt/flash/backup
    andpull restore /mnt/flash/backup
"@
}

/// The usage text.
pub fn usage() -> (r: &'static str)
    ensures
        r@ == usage_text(),
{
    "\u{26a1} andpull \u{2014} Android backup tool

USAGE:
    andpull                                  Launch the interactive TUI
    andpull backup [OPTIONS] [DEST]          Non-interactive backup
    andpull restore [OPTIONS] [BACKUP_DIR]   Non-interactive restore
    andpull --help                           Show this help

BACKUP OPTIONS:
    --profiles <a,b,c>   Comma-separated profile names to back up
                         (default: all builtin profiles)
    --with-appdata       Also back up app data (requires root) to
                         DEST/<profile>_appdata.tar
    DEST                 Output directory (default: ./andpull_backup_<timestamp>)

RESTORE OPTIONS:
    --with-appdata <tar> Also restore app data from the given tar file
                         (requires root)
    BACKUP_DIR           Backup directory to push from
                         (default: newest ./andpull_backup_*)

EXAMPLES:
    andpull backup
    andpull backup --profiles whatsapp --with-appdata /mnt/flash/backup
    andpull restore /mnt/flash/backup
"
}

/// Whether an argument is a flag: it starts with `-` and is longer than that.
pub open spec fn is_flag(s: Seq<char>) -> bool {
    starts_with(s, "-"@) && utf8_len(s) > 1
}

fn is_flag_exec(v: &Vec<char>) -> (b: bool)
    ensures
        b == is_flag(v@),
{
    starts_with_str(v, "-") && utf8_len_exec(v) > 1
}

/// The non-empty trimmed names among the first `n` comma-separated pieces.
pub open spec fn names_of(pieces: Seq<Seq<char>>, n: int) -> Seq<Seq<char>>
    decreases n,
{
    if n <= 0 || n > pieces.len() {
        seq![]
    } else if trim(pieces[n - 1]).len() == 0 {
        names_of(pieces, n - 1)
    } else {
        names_of(pieces, n - 1).push(trim(pieces[n - 1]))
    }
}

/// The profile names of a `--profiles` value.
pub open spec fn profile_list(v: Seq<char>) -> Seq<Seq<char>> {
    names_of(split_char(v, ','), split_char(v, ',').len() as int)
}

fn profile_list_exec(v: &Vec<char>) -> (r: Vec<String>)
    ensures
        texts(r@) == profile_list(v@),
{
    let pieces = split_char_vec(v, ',');
    let ghost pv = views(pieces@);
    let mut r: Vec<String> = Vec::new();
    let mut i: usize = 0;
    while i < pieces.len()
        invariant
            i <= pieces@.len(),
            pv == views(pieces@),
            pv == split_char(v@, ','),
            texts(r@) == names_of(pv, i as int),
        decreases pieces@.len() - i,
    {
        assert(pv[i as int] == pieces@[i as int]@);
        let t = trim_vec(&pieces[i]);
        let ghost before = r@;
        if t.len() > 0 {
            r.push(string_of(&t));
            assert(texts(r@) =~= texts(before).push(t@));
        }
        i = i + 1;
    }
    r
}

/// `backup` parsing from argument `i` on, with what the arguments before it set.
pub open spec fn backup_from(
    a: Seq<Seq<char>>,
    i: int,
    profiles: Option<Seq<Seq<char>>>,
    with_appdata: bool,
    dest: Option<Seq<char>>,
    default_dest: Seq<char>,
) -> OutcomeModel
    decreases a.len() - i,
{
    if i < 0 || i >= a.len() {
        OutcomeModel::Run(
            CommandModel::Backup {
                profiles,
                with_appdata,
                destination: match dest {
                    Some(d) => d,
                    None => default_dest,
                },
            },
        )
    } else if a[i] == "--profiles"@ {
        if i + 1 >= a.len() {
            OutcomeModel::Error("--profiles requires a value"@)
        } else if profile_list(a[i + 1]).len() == 0 {
            OutcomeModel::Error("--profiles requires at least one name"@)
        } else {
            backup_from(a, i + 2, Some(profile_list(a[i + 1])), with_appdata, dest, default_dest)
        }
    } else if a[i] == "--with-appdata"@ {
        backup_from(a, i + 1, profiles, true, dest, default_dest)
    } else if is_flag(a[i]) {
        OutcomeModel::Error("unknown flag for backup: "@ + a[i])
    } else if dest is Some {
        OutcomeModel::Error("unexpected extra argument for backup: "@ + a[i])
    } else {
        backup_from(a, i + 1, profiles, with_appdata, Some(a[i]), default_dest)
    }
}

/// `restore` parsing from argument `i` on, with what the arguments before it set.
pub open spec fn restore_from(
    a: Seq<Seq<char>>,
    i: int,
    tar: Option<Seq<char>>,
    dir: Option<Seq<char>>,
) -> OutcomeModel
    decreases a.len() - i,
{
    if i < 0 || i >= a.len() {
        OutcomeModel::Run(
            CommandModel::Restore {
                with_appdata: tar,
                backup_dir: match dir {
                    Some(d) => d,
                    None => "."@,
                },
            },
        )
    } else if a[i] == "--with-appdata"@ {
        if i + 1 >= a.len() {
            OutcomeModel::Error("--with-appdata requires a tar path"@)
        } else {
            restore_from(a, i + 2, Some(a[i + 1]), dir)
        }
    } else if is_flag(a[i]) {
        OutcomeModel::Error("unknown flag for restore: "@ + a[i])
    } else if dir is Some {
        OutcomeModel::Error("unexpected extra argument for restore: "@ + a[i])
    } else {
        restore_from(a, i + 1, tar, Some(a[i]))
    }
}

/// The outcome of the whole command line, given the default backup destination.
pub open spec fn spec_parse_args(a: Seq<Seq<char>>, default_dest: Seq<char>) -> OutcomeModel {
    if a.len() == 0 {
        OutcomeModel::Run(CommandModel::Tui { destination: "andpull_output"@ })
    } else if a[0] == "-h"@ || a[0] == "--help"@ || a[0] == "help"@ {
        OutcomeModel::Help
    } else if a[0] == "backup"@ {
        backup_from(a.skip(1), 0, None, false, None, default_dest)
    } else if a[0] == "restore"@ {
        restore_from(a.skip(1), 0, None, None)
    } else if !starts_with(a[0], "-"@) {
        OutcomeModel::Run(CommandModel::Tui { destination: a[0] })
    } else {
        OutcomeModel::Error("unknown option or subcommand: "@ + a[0])
    }
}

/// How the command line is routed, for one and the same default backup
/// destination (so one and the same clock reading): `backup` parses the rest
/// as the backup arguments do, `restore` as the restore arguments do, the
/// help words ask for help, another word not starting with `-` opens the
/// browser at that destination, and any other word is refused by name.
pub proof fn lemma_parse_args_routes(a: Seq<Seq<char>>, default_dest: Seq<char>)
    requires
        a.len() >= 1,
    ensures
        a[0] == "backup"@ ==> spec_parse_args(a, default_dest) == backup_from(
            a.skip(1),
            0,
            None,
            false,
            None,
            default_dest,
        ),
        a[0] == "restore"@ ==> spec_parse_args(a, default_dest) == restore_from(
            a.skip(1),
            0,
            None,
            None,
        ),
        (a[0] == "-h"@ || a[0] == "--help"@ || a[0] == "help"@) ==> spec_parse_args(
            a,
            default_dest,
        ) == OutcomeModel::Help,
        (a[0] != "-h"@ && a[0] != "--help"@ && a[0] != "help"@ && a[0] != "backup"@ && a[0]
            != "restore"@ && !starts_with(a[0], "-"@)) ==> spec_parse_args(a, default_dest)
            == OutcomeModel::Run(CommandModel::Tui { destination: a[0] }),
        (a[0] != "-h"@ && a[0] != "--help"@ && a[0] != "help"@ && starts_with(a[0], "-"@))
            ==> spec_parse_args(a, default_dest) == OutcomeModel::Error(
            "unknown option or subcommand: "@ + a[0],
        ),
{
    reveal_strlit("backup");
    reveal_strlit("restore");
    reveal_strlit("-h");
    reveal_strlit("--help");
    reveal_strlit("help");
    reveal_strlit("-");
    if a[0] == "backup"@ {
        assert(a[0][0] != "--help"@[0]);
        assert(a[0].len() != "-h"@.len() && a[0].len() != "help"@.len());
    }
    if a[0] == "restore"@ {
        assert(a[0].len() != "-h"@.len() && a[0].len() != "help"@.len() && a[0].len()
            != "--help"@.len() && a[0].len() != "backup"@.len());
    }
    if (a[0] == "backup"@ || a[0] == "restore"@) && starts_with(a[0], "-"@) {
        assert(a[0].take(1)[0] == a[0][0]);
        assert(a[0][0] != '-');
    }
}

fn message(prefix: &str, v: &Vec<char>) -> (r: String)
    ensures
        r@ == prefix@ + v@,
{
    let mut m = chars_of(prefix);
    append_vec(&mut m, v);
    string_of(&m)
}

/// Parses the arguments after `backup` with the given default destination.
pub fn parse_backup_with(args: &[String], default_dest: &str) -> (r: ParseOutcome)
    ensures
        r@ == backup_from(texts(args@), 0, None, false, None, default_dest@),
{
    let ghost a = texts(args@);
    let mut profiles: Option<Vec<String>> = None;
    let mut with_appdata = false;
    let mut dest: Option<String> = None;
    let mut i: usize = 0;
    while i < args.len()
        invariant
            i <= args@.len(),
            a == texts(args@),
            backup_from(a, 0, None, false, None, default_dest@) == backup_from(
                a,
                i as int,
                match profiles {
                    Some(p) => Some(texts(p@)),
                    None => None,
                },
                with_appdata,
                match dest {
                    Some(d) => Some(d@),
                    None => None,
                },
                default_dest@,
            ),
        decreases args@.len() - i,
    {
        let s = chars_of(args[i].as_str());
        assert(a[i as int] == s@);
        if eq_str(&s, "--profiles") {
            if i + 1 >= args.len() {
                return ParseOutcome::Error(owned("--profiles requires a value"));
            }
            let v = chars_of(args[i + 1].as_str());
            assert(a[i + 1] == v@);
            let list = profile_list_exec(&v);
            if list.len() == 0 {
                return ParseOutcome::Error(owned("--profiles requires at least one name"));
            }
            profiles = Some(list);
            i = i + 2;
        } else if eq_str(&s, "--with-appdata") {
            with_appdata = true;
            i = i + 1;
        } else if is_flag_exec(&s) {
            return ParseOutcome::Error(message("unknown flag for backup: ", &s));
        } else if dest.is_some() {
            return ParseOutcome::Error(message("unexpected extra argument for backup: ", &s));
        } else {
            dest = Some(string_of(&s));
            i = i + 1;
        }
    }
    let destination = match dest {
        Some(d) => d,
        None => owned(default_dest),
    };
    ParseOutcome::Run(Command::Backup { profiles, with_appdata, destination })
}

/// Parses the arguments after `restore`.
pub fn parse_restore(args: &[String]) -> (r: ParseOutcome)
    ensures
        r@ == restore_from(texts(args@), 0, None, None),
{
    let ghost a = texts(args@);
    let mut tar: Option<String> = None;
    let mut dir: Option<String> = None;
    let mut i: usize = 0;
    while i < args.len()
        invariant
            i <= args@.len(),
            a == texts(args@),
            restore_from(a, 0, None, None) == restore_from(
                a,
                i as int,
                match tar {
                    Some(t) => Some(t@),
                    None => None,
                },
                match dir {
                    Some(d) => Some(d@),
                    None => None,
                },
            ),
        decreases args@.len() - i,
    {
        let s = chars_of(args[i].as_str());
        assert(a[i as int] == s@);
        if eq_str(&s, "--with-appdata") {
            if i + 1 >= args.len() {
                return ParseOutcome::Error(owned("--with-appdata requires a tar path"));
            }
            assert(a[i + 1] == args@[i + 1]@);
            tar = Some(owned(args[i + 1].as_str()));
            i = i + 2;
        } else if is_flag_exec(&s) {
            return ParseOutcome::Error(message("unknown flag for restore: ", &s));
        } else if dir.is_some() {
            return ParseOutcome::Error(message("unexpected extra argument for restore: ", &s));
        } else {
            dir = Some(string_of(&s));
            i = i + 1;
        }
    }
    let backup_dir = match dir {
        Some(d) => d,
        None => owned("."),
    };
    ParseOutcome::Run(Command::Restore { with_appdata: tar, backup_dir })
}

/// Parses the arguments after `backup`; the default destination is stamped
/// with the current local time, `utc_offset` seconds off UTC.
pub fn parse_backup(args: &[String], utc_offset: i32) -> (r: ParseOutcome)
    requires
        -86_400 < utc_offset < 86_400,
    ensures
        exists|t: int|
            0 <= t <= MAX_CLOCK_SECS && r@ == backup_from(
                texts(args@),
                0,
                None,
                false,
                None,
                #[trigger] local_dest(t, utc_offset as int),
            ),
{
    let d = default_backup_destination(utc_offset);
    let r = parse_backup_with(args, d.as_str());
    proof {
        let t = choose|t: int| 0 <= t <= MAX_CLOCK_SECS && d@ == #[trigger] local_dest(t, utc_offset as int);
        assert(r@ == backup_from(texts(args@), 0, None, false, None, local_dest(t, utc_offset as int)));
    }
    r
}

/// Parses the command line (without the program name) with the given
/// default backup destination.
pub fn parse_args_with(args: &[String], default_dest: &str) -> (r: ParseOutcome)
    ensures
        r@ == spec_parse_args(texts(args@), default_dest@),
{
    let ghost a = texts(args@);
    if args.len() == 0 {
        return ParseOutcome::Run(Command::Tui { destination: owned("andpull_output") });
    }
    let first = chars_of(args[0].as_str());
    assert(a[0] == first@);
    let rest = vstd::slice::slice_subrange(args, 1, args.len());
    assert(texts(rest@) =~= a.skip(1));
    if eq_str(&first, "-h") || eq_str(&first, "--help") || eq_str(&first, "help") {
        ParseOutcome::Help
    } else if eq_str(&first, "backup") {
        parse_backup_with(rest, default_dest)
    } else if eq_str(&first, "restore") {
        parse_restore(rest)
    } else if !starts_with_str(&first, "-") {
        ParseOutcome::Run(Command::Tui { destination: string_of(&first) })
    } else {
        ParseOutcome::Error(message("unknown option or subcommand: ", &first))
    }
}

/// Parse raw argv (without the binary name) into a [`ParseOutcome`]; a
/// backup's default destination is stamped with the current local time,
/// `utc_offset` seconds off UTC.
pub fn parse_args(args: &[String], utc_offset: i32) -> (r: ParseOutcome)
    requires
        -86_400 < utc_offset < 86_400,
    ensures
        exists|t: int|
            0 <= t <= MAX_CLOCK_SECS && r@ == spec_parse_args(
                texts(args@),
                #[trigger] local_dest(t, utc_offset as int),
            ),
{
    let d = default_backup_destination(utc_offset);
    let r = parse_args_with(args, d.as_str());
    proof {
        let t = choose|t: int| 0 <= t <= MAX_CLOCK_SECS && d@ == #[trigger] local_dest(t, utc_offset as int);
        assert(r@ == spec_parse_args(texts(args@), local_dest(t, utc_offset as int)));
    }
    r
}

} // verus!
