//! Period discovery: directory names are matched in full against the
//! pattern built from the template's pattern segment, and every match
//! that forms a real calendar date becomes a period.

use vstd::prelude::*;
use vstd::multiset::Multiset;
use crate::chars::chars_of;
use crate::digits::{all_digits, digits_val, parse_u32};
use crate::pattern::{build_period_pattern, pattern_spec};
use crate::period::{Period, valid_date, periods_sorted, sort_periods};
use vstd::seq_lib::group_to_multiset_ensures;

verus! {

#[verifier::external_type_specification]
#[verifier::external_body]
pub struct ExRegex(regex::Regex);

/// Whether the regex crate accepts a pattern: `Regex::new` succeeds on
/// it rather than refusing it (invalid syntax or the crate's
/// compile-time limits) — an outcome that depends on the pattern alone.
pub uninterp spec fn compiles(pattern: Seq<char>) -> bool;

/// What the `yyyy`, `mm` and `dd` capture groups hold in the pattern's
/// first match within a name: `None` when the pattern does not match or
/// a year or month group is missing — a function of the pattern and the
/// name alone.
pub uninterp spec fn captures_ymd(pattern: Seq<char>, name: Seq<char>) -> Option<
    (Seq<char>, Seq<char>, Option<Seq<char>>),
>;

/// A compiled matcher paired with the pattern it was compiled from.
/// The fields are private and only `matcher_new` builds a value, so the
/// pairing lets capture results be stated as a function of the pattern.
pub struct PeriodMatcher {
    re: regex::Regex,
    pattern: String,
}

/// Relies on `regex::Regex::new`: compiles the pattern, `None` exactly
/// when the regex crate refuses it; the error's content is not used.
#[verifier::external_body]
fn matcher_new(pattern: &str) -> (r: Option<PeriodMatcher>)
    ensures
        r is Some <==> compiles(pattern@),
        r matches Some(m) ==> m.pattern@ == pattern@,
{
    let re = regex::Regex::new(pattern).ok()?;
    Some(PeriodMatcher { re, pattern: pattern.to_string() })
}

/// The returned capture texts are the named ones, viewed as sequences.
pub open spec fn captures_match(
    r: Option<(String, String, Option<String>)>,
    s: Option<(Seq<char>, Seq<char>, Option<Seq<char>>)>,
) -> bool {
    match (r, s) {
        (None, None) => true,
        (Some(c), Some(sc)) => c.0@ == sc.0 && c.1@ == sc.1 && (match (c.2, sc.2) {
            (None, None) => true,
            (Some(d), Some(sd)) => d@ == sd,
            _ => false,
        }),
        _ => false,
    }
}

/// Relies on `regex::Regex::captures` and `regex::Captures::name`: the
/// text of the `yyyy`, `mm` and `dd` groups of the pattern's first
/// match in `name`, `None` when there is no match or a year or month
/// group is missing.
#[verifier::external_body]
fn matcher_captures(m: &PeriodMatcher, name: &str) -> (r: Option<
    (String, String, Option<String>),
>)
    ensures
        captures_match(r, captures_ymd(m.pattern@, name@)),
{
    let caps = m.re.captures(name)?;
    let y = caps.name("yyyy")?.as_str().to_string();
    let mo = caps.name("mm")?.as_str().to_string();
    let d = caps.name("dd").map(|x| x.as_str().to_string());
    Some((y, mo, d))
}

/// The discovery failure that is surfaced rather than absorbed: the
/// pattern built from the template's pattern segment did not compile.
#[derive(Clone, Copy, Debug, PartialEq, Eq, Structural)]
pub enum DiscoverError {
    MalformedPattern,
}

/// A digit string that a 32-bit parse accepts.
pub open spec fn digits_u32_ok(s: Seq<char>) -> bool {
    s.len() > 0 && all_digits(s) && digits_val(s) <= u32::MAX
}

/// The period that a set of capture texts denotes: a year of at most four
/// digits, a month, a day defaulting to 1 when the pattern had no day
/// group, all digits, forming a real calendar date; `None` otherwise.
pub open spec fn capture_period_spec(y: Seq<char>, m: Seq<char>, d: Option<Seq<char>>) -> Option<
    Period,
> {
    let dval: int = match d {
        Some(ds) => digits_val(ds) as int,
        None => 1,
    };
    let d_ok: bool = match d {
        Some(ds) => digits_u32_ok(ds),
        None => true,
    };
    if digits_u32_ok(y) && digits_val(y) <= 9999 && digits_u32_ok(m) && d_ok && valid_date(
        digits_val(y) as int,
        digits_val(m) as int,
        dval,
    ) {
        Some(
            Period {
                year: digits_val(y) as i32,
                month: digits_val(m) as u32,
                day: dval as u32,
            },
        )
    } else {
        None
    }
}

/// The period one directory name yields against a pattern: its capture
/// texts parsed and validated, or nothing.
pub open spec fn entry_period(pattern: Seq<char>, name: Seq<char>) -> Option<Period> {
    match captures_ymd(pattern, name) {
        Some(c) => capture_period_spec(c.0, c.1, c.2),
        None => None,
    }
}

/// The periods a directory listing yields against a pattern, one per
/// name whose match forms a real date.  Two distinct names may yield
/// the same period, so this is a multiset.
pub open spec fn discovered_spec(pattern: Seq<char>, entries: Seq<String>) -> Multiset<Period>
    decreases entries.len(),
{
    if entries.len() == 0 {
        Multiset::<Period>::empty()
    } else {
        let rest = discovered_spec(pattern, entries.drop_last());
        match entry_period(pattern, entries.last()@) {
            Some(p) => rest.insert(p),
            None => rest,
        }
    }
}

/// Turns capture texts into a period; `None` exactly when they do not
/// denote one.
pub fn period_from_captures(y: &str, m: &str, d: Option<&str>) -> (r: Option<Period>)
    ensures
        r == capture_period_spec(
            y@,
            m@,
            match d {
                Some(ds) => Some(ds@),
                None => None,
            },
        ),
        r matches Some(p) ==> p.wf(),
{
    let yv = chars_of(y);
    let year_val = match parse_u32(&yv) {
        Some(k) => k,
        None => {
            return None;
        },
    };
    if year_val > 9999 {
        return None;
    }
    let mv = chars_of(m);
    let month_val = match parse_u32(&mv) {
        Some(k) => k,
        None => {
            return None;
        },
    };
    let day_val: u32 = match d {
        Some(ds) => {
            let dv = chars_of(ds);
            match parse_u32(&dv) {
                Some(k) => k,
                None => {
                    return None;
                },
            }
        },
        None => 1,
    };
    Period::from_ymd(year_val as i32, month_val, day_val)
}

/// Matches each directory name in full against the pattern segment's
/// pattern and collects every match that forms a real calendar date,
/// sorted ascending: exactly the periods `discovered_spec` names.
/// Fails exactly when the built pattern does not compile.
pub fn discover_periods(pattern_segment: &str, entries: &Vec<String>) -> (r: Result<
    Vec<Period>,
    DiscoverError,
>)
    ensures
        r is Err <==> !compiles(pattern_spec(pattern_segment@)),
        r matches Ok(ps) ==> periods_sorted(ps@) && ps@.to_multiset() == discovered_spec(
            pattern_spec(pattern_segment@),
            entries@,
        ) && ps@.len() <= entries@.len() && (forall|i: int|
            0 <= i < ps@.len() ==> #[trigger] ps@[i].wf()),
{
    let pat = build_period_pattern(pattern_segment);
    let matcher = match matcher_new(pat.as_str()) {
        Some(m) => m,
        None => {
            return Err(DiscoverError::MalformedPattern);
        },
    };
    let ghost pattern = pattern_spec(pattern_segment@);
    let n = entries.len();
    let mut found: Vec<Period> = Vec::new();
    proof {
        broadcast use group_to_multiset_ensures;

        assert(entries@.take(0) =~= Seq::<String>::empty());
        assert(found@.to_multiset() =~= Multiset::<Period>::empty()) by {
            broadcast use group_to_multiset_ensures;

            assert forall|p: Period| found@.to_multiset().count(p) == 0 by {
                assert(!found@.contains(p));
            }
        }
    }
    let mut i: usize = 0;
    while i < n
        invariant
            i <= n,
            n == entries@.len(),
            found@.len() <= i,
            matcher.pattern@ == pattern,
            pattern == pattern_spec(pattern_segment@),
            found@.to_multiset() == discovered_spec(pattern, entries@.take(i as int)),
            forall|j: int| 0 <= j < found@.len() ==> #[trigger] found@[j].wf(),
        decreases n - i,
    {
        let ghost name = entries@[i as int]@;
        let ghost sc = captures_ymd(pattern, name);
        proof {
            broadcast use group_to_multiset_ensures;

            assert(entries@.take(i + 1).drop_last() =~= entries@.take(i as int));
            assert(entries@.take(i + 1).last() == entries@[i as int]);
        }
        match matcher_captures(&matcher, entries[i].as_str()) {
            Some(caps) => {
                let (ys, ms, ds) = caps;
                let dref: Option<&str> = match &ds {
                    Some(x) => Some(x.as_str()),
                    None => None,
                };
                proof {
                    assert(sc matches Some(t) && ys@ == t.0 && ms@ == t.1);
                }
                match period_from_captures(ys.as_str(), ms.as_str(), dref) {
                    Some(p) => {
                        found.push(p);
                        proof {
                            broadcast use group_to_multiset_ensures;

                            assert(entry_period(pattern, name) == Some(p));
                        }
                    },
                    None => {
                        proof {
                            assert(entry_period(pattern, name) is None);
                        }
                    },
                }
            },
            None => {
                proof {
                    assert(sc is None);
                    assert(entry_period(pattern, name) is None);
                }
            },
        }
        i = i + 1;
    }
    proof {
        assert(entries@.take(n as int) =~= entries@);
    }
    let sorted = sort_periods(&found);
    proof {
        broadcast use group_to_multiset_ensures;

        assert(sorted@.to_multiset().len() == sorted@.len());
        assert(found@.to_multiset().len() == found@.len());
        assert forall|k: int| 0 <= k < sorted@.len() implies #[trigger] sorted@[k].wf() by {
            assert(sorted@.contains(sorted@[k]));
            assert(found@.to_multiset().count(sorted@[k]) > 0);
            assert(found@.contains(sorted@[k]));
            let j = choose|j: int| 0 <= j < found@.len() && found@[j] == sorted@[k];
        }
    }
    Ok(sorted)
}

} // verus!
