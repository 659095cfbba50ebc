//! Calendar periods: a validated (year, month, day) value, its label, its
//! ordering, and sorting of discovered periods into ascending order.

use vstd::prelude::*;
use vstd::seq_lib::{group_to_multiset_ensures, to_multiset_insert};
use crate::chars::{chars_of, string_of_chars, copy_range};
use crate::digits::{pad2, pad4, pad2_chars, pad4_chars, all_digits, digits_val, parse_u32};

verus! {

/// A year is a leap year in the proleptic Gregorian calendar.
pub open spec fn is_leap_year(y: int) -> bool {
    (y % 4 == 0 && y % 100 != 0) || y % 400 == 0
}

/// Days in a month of a given year.
pub open spec fn days_in_month(y: int, m: int) -> int {
    if m == 2 {
        if is_leap_year(y) {
            29
        } else {
            28
        }
    } else if m == 4 || m == 6 || m == 9 || m == 11 {
        30
    } else {
        31
    }
}

/// The triple forms a real calendar date.
pub open spec fn valid_date(y: int, m: int, d: int) -> bool {
    1 <= m <= 12 && 1 <= d <= days_in_month(y, m)
}

pub fn is_leap_year_exec(y: i32) -> (r: bool)
    requires
        y >= 0,
    ensures
        r == is_leap_year(y as int),
{
    (y % 4 == 0 && y % 100 != 0) || y % 400 == 0
}

pub fn days_in_month_exec(y: i32, m: u32) -> (r: u32)
    requires
        y >= 0,
        1 <= m <= 12,
    ensures
        r as int == days_in_month(y as int, m as int),
{
    if m == 2 {
        if is_leap_year_exec(y) {
            29
        } else {
            28
        }
    } else if m == 4 || m == 6 || m == 9 || m == 11 {
        30
    } else {
        31
    }
}

/// One calendar period being scanned: a concrete date, day 1 for the
/// monthly workflow unless a literal day was supplied.
#[derive(Clone, Copy, PartialEq, Eq, Structural, Debug)]
pub struct Period {
    pub year: i32,
    pub month: u32,
    pub day: u32,
}

impl Period {
    /// The value is a real calendar date with a non-negative year.
    pub open spec fn wf(self) -> bool {
        0 <= self.year && valid_date(self.year as int, self.month as int, self.day as int)
    }

    /// A period from a (year, month, day) triple; `None` exactly when the
    /// triple is not a real calendar date of the common era.
    pub fn from_ymd(year: i32, month: u32, day: u32) -> (r: Option<Period>)
        ensures
            r.is_some() <==> (year >= 0 && valid_date(year as int, month as int, day as int)),
            r matches Some(p) ==> p == (Period { year, month, day }) && p.wf(),
    {
        if year >= 0 && 1 <= month && month <= 12 && 1 <= day && day <= days_in_month_exec(
            year,
            month,
        ) {
            Some(Period { year, month, day })
        } else {
            None
        }
    }

    /// The label of the period, `YYYY-MM`.
    pub open spec fn label_spec(self) -> Seq<char> {
        pad4(self.year as nat) + seq!['-'] + pad2(self.month as nat)
    }

    /// Formats the label, year zero-padded to four digits, month to two.
    pub fn label(&self) -> (r: String)
        requires
            self.year >= 0,
        ensures
            r@ == self.label_spec(),
    {
        let mut v = pad4_chars(self.year as u32);
        v.push('-');
        let month = pad2_chars(self.month);
        let ghost head = v@;
        let mut i: usize = 0;
        while i < month.len()
            invariant
                i <= month@.len(),
                v@ == head + month@.take(i as int),
            decreases month@.len() - i,
        {
            v.push(month[i]);
            proof {
                assert(v@ =~= head + month@.take(i + 1));
            }
            i = i + 1;
        }
        proof {
            assert(month@.take(month@.len() as int) =~= month@);
            assert(v@ =~= self.label_spec());
        }
        string_of_chars(&v)
    }
}

/// The string is a strict ISO `YYYY-MM-DD` date naming a real calendar
/// day.
pub open spec fn iso_date_ok(s: Seq<char>) -> bool {
    s.len() == 10 && s[4] == '-' && s[7] == '-' && all_digits(s.subrange(0, 4)) && all_digits(
        s.subrange(5, 7),
    ) && all_digits(s.subrange(8, 10)) && valid_date(
        digits_val(s.subrange(0, 4)) as int,
        digits_val(s.subrange(5, 7)) as int,
        digits_val(s.subrange(8, 10)) as int,
    )
}

/// Parses a strict ISO `YYYY-MM-DD` date; `None` exactly on strings that
/// are not one.  A malformed entry of a date list is dropped through
/// this `None`.
pub fn parse_iso_date(s: &str) -> (r: Option<Period>)
    ensures
        r.is_some() == iso_date_ok(s@),
        r matches Some(p) ==> p.wf() && p.year as nat == digits_val(s@.subrange(0, 4))
            && p.month as nat == digits_val(s@.subrange(5, 7)) && p.day as nat == digits_val(
            s@.subrange(8, 10),
        ),
{
    let v = chars_of(s);
    if v.len() != 10 {
        return None;
    }
    if !(v[4] == '-' && v[7] == '-') {
        return None;
    }
    let ys = copy_range(&v, 0, 4);
    let ms = copy_range(&v, 5, 7);
    let ds = copy_range(&v, 8, 10);
    proof {
        if all_digits(ys@) {
            crate::digits::lemma_digits_val_bound(ys@);
        }
        if all_digits(ms@) {
            crate::digits::lemma_digits_val_bound(ms@);
        }
        if all_digits(ds@) {
            crate::digits::lemma_digits_val_bound(ds@);
        }
    }
    let y = match parse_u32(&ys) {
        Some(k) => k,
        None => {
            return None;
        },
    };
    let mo = match parse_u32(&ms) {
        Some(k) => k,
        None => {
            return None;
        },
    };
    let d = match parse_u32(&ds) {
        Some(k) => k,
        None => {
            return None;
        },
    };
    Period::from_ymd(y as i32, mo, d)
}

/// Chronological order on periods.
pub open spec fn period_le(a: Period, b: Period) -> bool {
    a.year < b.year || (a.year == b.year && (a.month < b.month || (a.month == b.month
        && a.day <= b.day)))
}

/// The sequence is in ascending chronological order.
pub open spec fn periods_sorted(s: Seq<Period>) -> bool {
    forall|i: int, j: int| 0 <= i < j < s.len() ==> period_le(s[i], s[j])
}

pub fn period_le_exec(a: &Period, b: &Period) -> (r: bool)
    ensures
        r == period_le(*a, *b),
{
    a.year < b.year || (a.year == b.year && (a.month < b.month || (a.month == b.month
        && a.day <= b.day)))
}

/// The position where `x` belongs in the sorted vector `v`.
fn insert_pos(v: &Vec<Period>, x: &Period) -> (j: usize)
    ensures
        j <= v@.len(),
        forall|k: int| 0 <= k < j ==> period_le(v@[k], *x),
        j < v@.len() ==> !period_le(v@[j as int], *x),
{
    let n = v.len();
    let mut j: usize = 0;
    while j < n
        invariant
            j <= n,
            n == v@.len(),
            forall|k: int| 0 <= k < j ==> period_le(v@[k], *x),
        decreases n - j,
    {
        if !period_le_exec(&v[j], x) {
            return j;
        }
        j = j + 1;
    }
    j
}

/// Sorts periods ascending; the result is a reordering of the input.
pub fn sort_periods(v: &Vec<Period>) -> (r: Vec<Period>)
    ensures
        periods_sorted(r@),
        r@.to_multiset() == v@.to_multiset(),
{
    let n = v.len();
    let mut out: Vec<Period> = Vec::new();
    proof {
        assert(v@.take(0) =~= out@);
    }
    let mut i: usize = 0;
    while i < n
        invariant
            i <= n,
            n == v@.len(),
            periods_sorted(out@),
            out@.to_multiset() == v@.take(i as int).to_multiset(),
        decreases n - i,
    {
        let x = v[i];
        let j = insert_pos(&out, &x);
        let ghost prev = out@;
        out.insert(j, x);
        proof {
            broadcast use group_to_multiset_ensures;

            to_multiset_insert(prev, j as int, x);
            assert(v@.take(i + 1) =~= v@.take(i as int).push(v@[i as int]));
            prev.insert_ensures(j as int, x);
            assert forall|a: int, b: int| 0 <= a < b < out@.len() implies period_le(
                out@[a],
                out@[b],
            ) by {
                if a == j as int {
                    assert(out@[a] == x);
                    assert(out@[b] == prev[b - 1]);
                    assert(!period_le(prev[j as int], x));
                    if b - 1 > j as int {
                        assert(period_le(prev[j as int], prev[b - 1]));
                    }
                } else if b == j as int {
                    assert(out@[a] == prev[a]);
                    assert(out@[b] == x);
                    assert(period_le(prev[a], x));
                } else if a < j as int && b > j as int {
                    assert(out@[a] == prev[a]);
                    assert(out@[b] == prev[b - 1]);
                    if b - 1 == a {
                        assert(period_le(prev[a], x));
                    }
                } else if b < j as int {
                    assert(out@[a] == prev[a] && out@[b] == prev[b]);
                } else {
                    assert(out@[a] == prev[a - 1] && out@[b] == prev[b - 1]);
                }
            }
        }
        i = i + 1;
    }
    proof {
        assert(v@.take(n as int) =~= v@);
    }
    out
}

} // verus!
