//! Timestamps as civil local time: the minute-rounding display rule, the
//! `YYYY/MM/DD HH:MM` rendering, and the conversion of such a rendering
//! into an ISO-8601 string for the fixed UTC+9 display offset.

use vstd::prelude::*;
use chrono::{Datelike, Timelike, TimeZone};
use crate::chars::{chars_of, string_of_chars, push_seq, copy_range};
use crate::digits::{pad2, pad4, pad2_chars, pad4_chars, all_digits, digits_val, parse_u32};
use crate::period::{valid_date, days_in_month, days_in_month_exec};

verus! {

/// The sentinel shown when a timestamp is unavailable.
pub open spec fn na_string() -> Seq<char> {
    seq!['N', '/', 'A']
}

/// A timestamp broken into local civil fields.
#[derive(Clone, Copy, PartialEq, Eq, Structural, Debug)]
pub struct CivilTime {
    pub year: i32,
    pub month: u32,
    pub day: u32,
    pub hour: u32,
    pub minute: u32,
    pub second: u32,
}

impl CivilTime {
    /// A real calendar date within chrono's year range (widened by one
    /// year on each side, which a local offset can reach), with clock
    /// fields in range.
    pub open spec fn wf(self) -> bool {
        -262144 <= self.year <= 262143 && valid_date(
            self.year as int,
            self.month as int,
            self.day as int,
        ) && self.hour <= 23 && self.minute <= 59 && self.second <= 59
    }
}

#[verifier::external_type_specification]
#[verifier::external_body]
pub struct ExSystemTime(std::time::SystemTime);

/// Relies on `SystemTime::duration_since` and on chrono's
/// `TimeZone::timestamp_opt` for `Local` with the `Datelike`/`Timelike`
/// accessors: the instant as civil local time, or `None` for an instant
/// chrono cannot represent (roughly ±262,000 years from the common era,
/// which no real filesystem timestamp leaves); unlike chrono's `From`
/// conversion this path never panics.  chrono's dates are real calendar
/// dates, the year at most one step past its nominal range when the
/// local offset crosses a year boundary, the clock fields within their
/// ranges.  Which civil time an instant maps to depends on the
/// machine's time zone, so nothing ties the fields to the argument.
#[verifier::external_body]
pub(crate) fn local_civil_time(t: &std::time::SystemTime) -> (r: Option<CivilTime>)
    ensures
        r matches Some(c) ==> c.wf(),
{
    let (sec, nsec) = match t.duration_since(std::time::UNIX_EPOCH) {
        Ok(d) => (d.as_secs() as i64, d.subsec_nanos()),
        Err(e) if e.duration().subsec_nanos() == 0 => (-(e.duration().as_secs() as i64), 0),
        Err(e) => (-(e.duration().as_secs() as i64) - 1, 1_000_000_000 - e.duration().subsec_nanos()),
    };
    match chrono::Local.timestamp_opt(sec, nsec) {
        chrono::LocalResult::Single(dt) => Some(CivilTime {
            year: dt.year(), month: dt.month(), day: dt.day(),
            hour: dt.hour(), minute: dt.minute(), second: dt.second(),
        }),
        _ => None,
    }
}

/// The file-manager display rule: a timestamp whose seconds are 30 or
/// more is pushed forward to the next whole minute, rolling over the
/// hour, day, month and year as the calendar requires.
pub open spec fn round_up_spec(t: CivilTime) -> CivilTime {
    if t.second < 30 {
        t
    } else if t.minute < 59 {
        CivilTime { minute: (t.minute + 1) as u32, ..t }
    } else if t.hour < 23 {
        CivilTime { minute: 0, hour: (t.hour + 1) as u32, ..t }
    } else if t.day < days_in_month(t.year as int, t.month as int) {
        CivilTime { minute: 0, hour: 0, day: (t.day + 1) as u32, ..t }
    } else if t.month < 12 {
        CivilTime { minute: 0, hour: 0, day: 1, month: (t.month + 1) as u32, ..t }
    } else {
        CivilTime { minute: 0, hour: 0, day: 1, month: 1, year: (t.year + 1) as i32, ..t }
    }
}

/// Applies the minute-rounding rule.
pub fn round_up_minute(t: &CivilTime) -> (r: CivilTime)
    requires
        t.wf(),
        t.year >= 0,
    ensures
        r == round_up_spec(*t),
        r.minute <= 59 && r.hour <= 23 && 1 <= r.month <= 12,
        r.year >= 0,
{
    if t.second < 30 {
        *t
    } else if t.minute < 59 {
        CivilTime { minute: t.minute + 1, ..*t }
    } else if t.hour < 23 {
        CivilTime { minute: 0, hour: t.hour + 1, ..*t }
    } else if t.day < days_in_month_exec(t.year, t.month) {
        CivilTime { minute: 0, hour: 0, day: t.day + 1, ..*t }
    } else {
        if t.month < 12 {
            CivilTime { minute: 0, hour: 0, day: 1, month: t.month + 1, ..*t }
        } else {
            CivilTime { minute: 0, hour: 0, day: 1, month: 1, year: t.year + 1, ..*t }
        }
    }
}

/// What a timestamp display string can be: the unavailable sentinel, or
/// the minute rendering of the rounding of some well-formed common-era
/// civil time.
pub open spec fn stamp_display_ok(s: Seq<char>) -> bool {
    s == na_string() || exists|c: CivilTime|
        c.wf() && c.year >= 0 && s == #[trigger] minute_stamp_spec(round_up_spec(c))
}

/// The `YYYY/MM/DD HH:MM` rendering of a civil time, year zero-padded to
/// four digits, the rest to two.
pub open spec fn minute_stamp_spec(t: CivilTime) -> Seq<char> {
    pad4(t.year as nat) + seq!['/'] + pad2(t.month as nat) + seq!['/'] + pad2(t.day as nat) + seq![
        ' ',
    ] + pad2(t.hour as nat) + seq![':'] + pad2(t.minute as nat)
}

/// Renders a civil time to minute precision.
pub fn format_minute(t: &CivilTime) -> (r: String)
    requires
        t.year >= 0,
    ensures
        r@ == minute_stamp_spec(*t),
{
    let mut v = pad4_chars(t.year as u32);
    v.push('/');
    let piece = pad2_chars(t.month);
    push_seq(&mut v, &piece);
    v.push('/');
    let piece = pad2_chars(t.day);
    push_seq(&mut v, &piece);
    v.push(' ');
    let piece = pad2_chars(t.hour);
    push_seq(&mut v, &piece);
    v.push(':');
    let piece = pad2_chars(t.minute);
    push_seq(&mut v, &piece);
    proof {
        assert(v@ =~= minute_stamp_spec(*t));
    }
    string_of_chars(&v)
}

/// The string is a well-formed `YYYY/MM/DD HH:MM` rendering of a real
/// calendar date and a real clock time.
pub open spec fn minute_stamp_ok(s: Seq<char>) -> bool {
    s.len() == 16 && s[4] == '/' && s[7] == '/' && s[10] == ' ' && s[13] == ':' && all_digits(
        s.subrange(0, 4),
    ) && all_digits(s.subrange(5, 7)) && all_digits(s.subrange(8, 10)) && all_digits(
        s.subrange(11, 13),
    ) && all_digits(s.subrange(14, 16)) && valid_date(
        digits_val(s.subrange(0, 4)) as int,
        digits_val(s.subrange(5, 7)) as int,
        digits_val(s.subrange(8, 10)) as int,
    ) && digits_val(s.subrange(11, 13)) <= 23 && digits_val(s.subrange(14, 16)) <= 59
}

/// The ISO-8601 rendering of a well-formed minute stamp, seconds zero;
/// the sentinel `null` for anything else.  The stamp is read as civil
/// time in the fixed UTC+9 display offset, under which every civil time
/// exists once, so the offset never changes the rendered fields.
pub open spec fn iso_jst_spec(s: Seq<char>) -> Seq<char> {
    if minute_stamp_ok(s) {
        s.subrange(0, 4) + seq!['-'] + s.subrange(5, 7) + seq!['-'] + s.subrange(8, 10) + seq![
            'T',
        ] + s.subrange(11, 13) + seq![':'] + s.subrange(14, 16) + seq![':', '0', '0']
    } else {
        seq!['n', 'u', 'l', 'l']
    }
}

/// Converts a `YYYY/MM/DD HH:MM` display string into an ISO-8601 string
/// for the fixed UTC+9 display offset; `null` when the input is not a
/// well-formed stamp.
pub fn datetime_str_to_iso8601_jst(s: &str) -> (r: String)
    ensures
        r@ == iso_jst_spec(s@),
{
    let v = chars_of(s);
    let ok = parse_minute_stamp(&v);
    match ok {
        Some(_) => {
            let mut out = copy_range(&v, 0, 4);
            out.push('-');
            let piece = copy_range(&v, 5, 7);
            push_seq(&mut out, &piece);
            out.push('-');
            let piece = copy_range(&v, 8, 10);
            push_seq(&mut out, &piece);
            out.push('T');
            let piece = copy_range(&v, 11, 13);
            push_seq(&mut out, &piece);
            out.push(':');
            let piece = copy_range(&v, 14, 16);
            push_seq(&mut out, &piece);
            out.push(':');
            out.push('0');
            out.push('0');
            proof {
                assert(out@ =~= iso_jst_spec(s@));
            }
            string_of_chars(&out)
        },
        None => {
            let mut out: Vec<char> = Vec::new();
            out.push('n');
            out.push('u');
            out.push('l');
            out.push('l');
            proof {
                assert(out@ =~= iso_jst_spec(s@));
            }
            string_of_chars(&out)
        },
    }
}

/// Reads a minute stamp; `Some` exactly on well-formed ones.
fn parse_minute_stamp(v: &Vec<char>) -> (r: Option<CivilTime>)
    ensures
        r.is_some() == minute_stamp_ok(v@),
{
    if v.len() != 16 {
        return None;
    }
    if !(v[4] == '/' && v[7] == '/' && v[10] == ' ' && v[13] == ':') {
        return None;
    }
    let ys = copy_range(v, 0, 4);
    let ms = copy_range(v, 5, 7);
    let ds = copy_range(v, 8, 10);
    let hs = copy_range(v, 11, 13);
    let mins = copy_range(v, 14, 16);
    proof {
        if all_digits(ys@) {
            crate::digits::lemma_digits_val_bound(ys@);
        }
        if all_digits(ms@) {
            crate::digits::lemma_digits_val_bound(ms@);
        }
        if all_digits(ds@) {
            crate::digits::lemma_digits_val_bound(ds@);
        }
        if all_digits(hs@) {
            crate::digits::lemma_digits_val_bound(hs@);
        }
        if all_digits(mins@) {
            crate::digits::lemma_digits_val_bound(mins@);
        }
    }
    let y = match parse_u32(&ys) {
        Some(k) => k,
        None => {
            return None;
        },
    };
    let mo = match parse_u32(&ms) {
        Some(k) => k,
        None => {
            return None;
        },
    };
    let d = match parse_u32(&ds) {
        Some(k) => k,
        None => {
            return None;
        },
    };
    let h = match parse_u32(&hs) {
        Some(k) => k,
        None => {
            return None;
        },
    };
    let mi = match parse_u32(&mins) {
        Some(k) => k,
        None => {
            return None;
        },
    };
    if !(1 <= mo && mo <= 12 && 1 <= d && d <= days_in_month_exec(y as i32, mo) && h <= 23 && mi
        <= 59) {
        return None;
    }
    Some(CivilTime { year: y as i32, month: mo, day: d, hour: h, minute: mi, second: 0 })
}

} // verus!
