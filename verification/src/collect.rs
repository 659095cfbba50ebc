//! From raw directory-walk entries to file records: the depth bound, the
//! relative-path canonicalization, the timestamp display strings and the
//! normalized identity are all applied here.

use vstd::prelude::*;
use crate::chars::{chars_of, string_of_chars, copy_range};
use crate::normalize::{is_sep, canon_seps, normalize_path_spec, normalize_rel_path, split_point,
    find_split};
use crate::period::Period;
use crate::stamp::{local_civil_time, round_up_minute, format_minute, na_string, stamp_display_ok,
    minute_stamp_spec, round_up_spec};

verus! {

/// One real file observed during one scan of one period's root.
#[derive(Clone, Debug)]
pub struct FileInfo {
    /// The name on disk, unmodified.
    pub actual_name: String,
    /// Size in bytes.
    pub size: u64,
    /// Creation time as `YYYY/MM/DD HH:MM`, or `N/A`.
    pub created: String,
    /// Modification time as `YYYY/MM/DD HH:MM`, or `N/A`.
    pub modified: String,
    /// The label of the period the scan belongs to, `YYYY-MM`.
    pub date_str: String,
    /// Path relative to the scan root, `/`-separated.
    pub rel_path: String,
    /// The relative path with the filename's date substrings replaced by
    /// placeholders: the cross-period identity key.
    pub normalized_rel_path: String,
}

/// One regular file as the directory walk reports it: its path relative
/// to the scan root and whatever metadata could be read.  The file's
/// name is the path's final segment.
pub struct RawEntry {
    pub rel_path: String,
    pub size: u64,
    pub created: Option<std::time::SystemTime>,
    pub modified: Option<std::time::SystemTime>,
}

/// The number of separators in `s`.
pub open spec fn count_seps(s: Seq<char>) -> int
    decreases s.len(),
{
    if s.len() == 0 {
        0
    } else {
        (if is_sep(s[0]) {
            1int
        } else {
            0int
        }) + count_seps(s.skip(1))
    }
}

/// The depth of a relative path below the scan root: direct children
/// have depth 1; the root itself (the empty path) has depth 0.
pub open spec fn depth_spec(s: Seq<char>) -> int {
    if s.len() == 0 {
        0
    } else {
        1 + count_seps(s)
    }
}

/// The entry lies within the depth bound.
pub open spec fn depth_ok(e: RawEntry, max_depth: int) -> bool {
    1 <= depth_spec(e.rel_path@) <= max_depth
}

/// The entries that survive the depth bound, in order.
pub open spec fn kept_spec(s: Seq<RawEntry>, max_depth: int) -> Seq<RawEntry> {
    s.filter(|e: RawEntry| depth_ok(e, max_depth))
}

/// Counts the separators of `s`.
fn count_seps_exec(v: &Vec<char>) -> (c: usize)
    ensures
        c as int == count_seps(v@),
{
    let n = v.len();
    let mut c: usize = 0;
    let mut i: usize = 0;
    proof {
        assert(v@.skip(0) =~= v@);
    }
    while i < n
        invariant
            i <= n,
            n == v@.len(),
            c <= i,
            count_seps(v@) == c + count_seps(v@.skip(i as int)),
        decreases n - i,
    {
        let s = v[i];
        proof {
            assert(v@.skip(i as int).skip(1) =~= v@.skip(i + 1));
            assert(v@.skip(i as int)[0] == v@[i as int]);
        }
        if s == '/' || s == '\\' {
            c = c + 1;
        }
        i = i + 1;
    }
    proof {
        assert(v@.skip(n as int) =~= Seq::<char>::empty());
    }
    c
}

/// Whether the path's depth lies within the bound.
fn depth_within(rel_path: &str, max_depth: usize) -> (r: bool)
    ensures
        r == (1 <= depth_spec(rel_path@) <= max_depth as int),
{
    let v = chars_of(rel_path);
    if v.len() == 0 || max_depth == 0 {
        return false;
    }
    let c = count_seps_exec(&v);
    proof {
        lemma_count_seps_bound(v@);
    }
    c <= max_depth - 1
}

/// There are no more separators than characters.
proof fn lemma_count_seps_bound(s: Seq<char>)
    ensures
        0 <= count_seps(s) <= s.len(),
    decreases s.len(),
{
    if s.len() > 0 {
        lemma_count_seps_bound(s.skip(1));
    }
}

/// Separators replaced by `/`.
fn canon_seps_exec(s: &str) -> (r: String)
    ensures
        r@ == canon_seps(s@),
{
    let v = chars_of(s);
    let n = v.len();
    let mut out: Vec<char> = Vec::new();
    let mut i: usize = 0;
    while i < n
        invariant
            i <= n,
            n == v@.len(),
            out@ == canon_seps(v@.take(i as int)),
        decreases n - i,
    {
        let c = v[i];
        if c == '\\' {
            out.push('/');
        } else {
            out.push(c);
        }
        proof {
            assert(out@ =~= canon_seps(v@.take(i + 1)));
        }
        i = i + 1;
    }
    proof {
        assert(v@.take(n as int) =~= v@);
    }
    string_of_chars(&out)
}

/// The display string of an optional timestamp: the rounded civil local
/// time to minute precision, or the sentinel when the platform gave no
/// timestamp or it falls outside the representable calendar.
fn timestamp_display(t: &Option<std::time::SystemTime>) -> (r: String)
    ensures
        t is None ==> r@ == na_string(),
        stamp_display_ok(r@),
{
    match t {
        Some(st) => {
            match local_civil_time(st) {
                Some(c) => {
                    if c.year >= 0 {
                        let rounded = round_up_minute(&c);
                        let out = format_minute(&rounded);
                        proof {
                            assert(out@ == minute_stamp_spec(round_up_spec(c)));
                        }
                        out
                    } else {
                        na_exec()
                    }
                },
                None => na_exec(),
            }
        },
        None => na_exec(),
    }
}

fn na_exec() -> (r: String)
    ensures
        r@ == na_string(),
{
    let mut v: Vec<char> = Vec::new();
    v.push('N');
    v.push('/');
    v.push('A');
    proof {
        assert(v@ =~= na_string());
    }
    string_of_chars(&v)
}

/// The file's name: the final segment of its canonicalized path.
pub open spec fn name_of(rel: Seq<char>) -> Seq<char> {
    rel.skip(split_point(rel))
}

/// Builds the record for one observed file; the name is the final
/// segment of the relative path, so both always agree.
pub fn build_record(
    rel_path: String,
    size: u64,
    created: &Option<std::time::SystemTime>,
    modified: &Option<std::time::SystemTime>,
    period: &Period,
) -> (r: FileInfo)
    requires
        period.wf(),
    ensures
        r.actual_name@ == name_of(canon_seps(rel_path@)),
        r.size == size,
        r.date_str@ == period.label_spec(),
        r.rel_path@ == canon_seps(rel_path@),
        r.normalized_rel_path@ == normalize_path_spec(
            canon_seps(rel_path@),
            period.year as int,
            period.month as nat,
        ),
        created is None ==> r.created@ == na_string(),
        modified is None ==> r.modified@ == na_string(),
        stamp_display_ok(r.created@),
        stamp_display_ok(r.modified@),
{
    let rel = canon_seps_exec(rel_path.as_str());
    let normalized = normalize_rel_path(rel.as_str(), period.year, period.month);
    let relv = chars_of(rel.as_str());
    let p = find_split(&relv);
    let namev = copy_range(&relv, p, relv.len());
    proof {
        assert(namev@ =~= name_of(rel@));
    }
    FileInfo {
        actual_name: string_of_chars(&namev),
        size,
        created: timestamp_display(created),
        modified: timestamp_display(modified),
        date_str: period.label(),
        rel_path: rel,
        normalized_rel_path: normalized,
    }
}

/// One record per entry within the depth bound, in order: the name and
/// size are carried over, the paths canonicalized, the identity
/// normalized against the period, and the period's label attached.
pub fn collect_records(entries: Vec<RawEntry>, period: &Period, max_depth: usize) -> (r: Vec<
    FileInfo,
>)
    requires
        period.wf(),
    ensures
        ({
            let kept = kept_spec(entries@, max_depth as int);
            &&& r@.len() == kept.len()
            &&& forall|j: int|
                0 <= j < r@.len() ==> {
                    &&& (#[trigger] r@[j]).actual_name@ == name_of(canon_seps(kept[j].rel_path@))
                    &&& r@[j].size == kept[j].size
                    &&& r@[j].date_str@ == period.label_spec()
                    &&& r@[j].rel_path@ == canon_seps(kept[j].rel_path@)
                    &&& r@[j].normalized_rel_path@ == normalize_path_spec(
                        canon_seps(kept[j].rel_path@),
                        period.year as int,
                        period.month as nat,
                    )
                    &&& (kept[j].created is None ==> r@[j].created@ == na_string())
                    &&& (kept[j].modified is None ==> r@[j].modified@ == na_string())
                    &&& stamp_display_ok(r@[j].created@)
                    &&& stamp_display_ok(r@[j].modified@)
                }
        }),
{
    let ghost all = entries@;
    let mut rest = entries;
    let mut r: Vec<FileInfo> = Vec::new();
    let mut i: usize = 0;
    let n = rest.len();
    proof {
        assert(all.take(0) =~= Seq::<RawEntry>::empty());
        assert(kept_spec(all.take(0), max_depth as int) =~= Seq::<RawEntry>::empty()) by {
            reveal(Seq::filter);
        }
        assert(all.skip(0) =~= all);
    }
    while i < n
        invariant
            i <= n,
            n == all.len(),
            rest@ == all.skip(i as int),
            period.wf(),
            ({
                let kept = kept_spec(all.take(i as int), max_depth as int);
                &&& r@.len() == kept.len()
                &&& forall|j: int|
                    0 <= j < r@.len() ==> {
                        &&& (#[trigger] r@[j]).actual_name@ == name_of(
                            canon_seps(kept[j].rel_path@),
                        )
                        &&& r@[j].size == kept[j].size
                        &&& r@[j].date_str@ == period.label_spec()
                        &&& r@[j].rel_path@ == canon_seps(kept[j].rel_path@)
                        &&& r@[j].normalized_rel_path@ == normalize_path_spec(
                            canon_seps(kept[j].rel_path@),
                            period.year as int,
                            period.month as nat,
                        )
                        &&& (kept[j].created is None ==> r@[j].created@ == na_string())
                        &&& (kept[j].modified is None ==> r@[j].modified@ == na_string())
                        &&& stamp_display_ok(r@[j].created@)
                        &&& stamp_display_ok(r@[j].modified@)
                    }
            }),
        decreases n - i,
    {
        let e = rest.remove(0);
        proof {
            assert(all.skip(i as int)[0] == all[i as int]);
            assert(all.skip(i as int).remove(0) =~= all.skip(i + 1));
        }
        let ghost kept_before = kept_spec(all.take(i as int), max_depth as int);
        proof {
            assert(all.take(i + 1).drop_last() =~= all.take(i as int));
            assert(all.take(i + 1).last() == all[i as int]);
        }
        if depth_within(e.rel_path.as_str(), max_depth) {
            let rec = build_record(e.rel_path, e.size, &e.created, &e.modified, period);
            r.push(rec);
            proof {
                reveal(Seq::filter);
                let kept_now = kept_spec(all.take(i + 1), max_depth as int);
                assert(kept_now =~= kept_before.push(all[i as int]));
            }
        } else {
            proof {
                reveal(Seq::filter);
                let kept_now = kept_spec(all.take(i + 1), max_depth as int);
                assert(kept_now =~= kept_before);
            }
        }
        i = i + 1;
    }
    proof {
        assert(all.take(n as int) =~= all);
    }
    r
}

} // verus!
