//! From a path template to a matching pattern: the pattern segment (the
//! deepest segment holding a placeholder) is chosen by walking segments
//! from the leaf upward, its literal characters are escaped, and each
//! placeholder becomes a named capture group.

use vstd::prelude::*;
use crate::chars::{chars_of, string_of_chars, push_seq, copy_range};
use crate::normalize::{yyyy_token, mm_token, dd_token, yyyy_token_chars, mm_token_chars,
    dd_token_chars, is_sep, split_point, lemma_split_point};
use crate::replace::{occurs, match_at, match_at_exec};

verus! {

/// A character the regex language gives meaning to; exactly the set the
/// regex crate's `escape` protects.
pub open spec fn is_meta(c: char) -> bool {
    c == '\\' || c == '.' || c == '+' || c == '*' || c == '?' || c == '(' || c == ')' || c == '|'
        || c == '[' || c == ']' || c == '{' || c == '}' || c == '^' || c == '$' || c == '#'
        || c == '&' || c == '-' || c == '~'
}

/// A literal character as it appears in the pattern: meta characters get
/// a backslash.
pub open spec fn escape_char(c: char) -> Seq<char> {
    if is_meta(c) {
        seq!['\\', c]
    } else {
        seq![c]
    }
}

/// The capture group standing for `{yyyy}`: exactly four digits.
pub open spec fn yyyy_group() -> Seq<char> {
    seq!['(', '?', 'P', '<', 'y', 'y', 'y', 'y', '>', '\\', 'd', '{', '4', '}', ')']
}

/// The capture group standing for `{mm}`: one or two digits.
pub open spec fn mm_group() -> Seq<char> {
    seq!['(', '?', 'P', '<', 'm', 'm', '>', '\\', 'd', '{', '1', ',', '2', '}', ')']
}

/// The capture group standing for `{dd}`: one or two digits.
pub open spec fn dd_group() -> Seq<char> {
    seq!['(', '?', 'P', '<', 'd', 'd', '>', '\\', 'd', '{', '1', ',', '2', '}', ')']
}

/// The body of the pattern for a segment: placeholders become their
/// groups, every other character is escaped.
pub open spec fn pattern_body(s: Seq<char>) -> Seq<char>
    decreases s.len(),
{
    if s.len() == 0 {
        Seq::<char>::empty()
    } else if s.len() >= 6 && s.subrange(0, 6) == yyyy_token() {
        yyyy_group() + pattern_body(s.skip(6))
    } else if s.len() >= 4 && s.subrange(0, 4) == mm_token() {
        mm_group() + pattern_body(s.skip(4))
    } else if s.len() >= 4 && s.subrange(0, 4) == dd_token() {
        dd_group() + pattern_body(s.skip(4))
    } else {
        escape_char(s[0]) + pattern_body(s.skip(1))
    }
}

/// The full pattern for a segment, anchored so that a directory name has
/// to match it in full.
pub open spec fn pattern_spec(s: Seq<char>) -> Seq<char> {
    seq!['^'] + pattern_body(s) + seq!['$']
}

fn yyyy_group_chars() -> (v: Vec<char>)
    ensures
        v@ == yyyy_group(),
{
    let mut v: Vec<char> = Vec::new();
    v.push('(');
    v.push('?');
    v.push('P');
    v.push('<');
    v.push('y');
    v.push('y');
    v.push('y');
    v.push('y');
    v.push('>');
    v.push('\\');
    v.push('d');
    v.push('{');
    v.push('4');
    v.push('}');
    v.push(')');
    proof {
        assert(v@ =~= yyyy_group());
    }
    v
}

fn mm_group_chars() -> (v: Vec<char>)
    ensures
        v@ == mm_group(),
{
    let mut v: Vec<char> = Vec::new();
    v.push('(');
    v.push('?');
    v.push('P');
    v.push('<');
    v.push('m');
    v.push('m');
    v.push('>');
    v.push('\\');
    v.push('d');
    v.push('{');
    v.push('1');
    v.push(',');
    v.push('2');
    v.push('}');
    v.push(')');
    proof {
        assert(v@ =~= mm_group());
    }
    v
}

fn dd_group_chars() -> (v: Vec<char>)
    ensures
        v@ == dd_group(),
{
    let mut v: Vec<char> = Vec::new();
    v.push('(');
    v.push('?');
    v.push('P');
    v.push('<');
    v.push('d');
    v.push('d');
    v.push('>');
    v.push('\\');
    v.push('d');
    v.push('{');
    v.push('1');
    v.push(',');
    v.push('2');
    v.push('}');
    v.push(')');
    proof {
        assert(v@ =~= dd_group());
    }
    v
}

fn meta(c: char) -> (r: bool)
    ensures
        r == is_meta(c),
{
    c == '\\' || c == '.' || c == '+' || c == '*' || c == '?' || c == '(' || c == ')' || c == '|'
        || c == '[' || c == ']' || c == '{' || c == '}' || c == '^' || c == '$' || c == '#'
        || c == '&' || c == '-' || c == '~'
}

/// Builds the anchored matching pattern for a pattern segment.
pub fn build_period_pattern(segment: &str) -> (r: String)
    ensures
        r@ == pattern_spec(segment@),
{
    let v = chars_of(segment);
    let n = v.len();
    let ytok = yyyy_token_chars();
    let mtok = mm_token_chars();
    let dtok = dd_token_chars();
    let mut out: Vec<char> = Vec::new();
    out.push('^');
    proof {
        assert(v@.skip(0) =~= v@);
        assert(out@ =~= seq!['^']);
        assert(out@ + pattern_body(v@) =~= seq!['^'] + pattern_body(v@));
    }
    let mut i: usize = 0;
    while i < n
        invariant
            i <= n,
            n == v@.len(),
            ytok@ == yyyy_token(),
            mtok@ == mm_token(),
            dtok@ == dd_token(),
            out@ + pattern_body(v@.skip(i as int)) == seq!['^'] + pattern_body(v@),
        decreases n - i,
    {
        let ghost rest = v@.skip(i as int);
        if 6 <= n - i && match_at_exec(&v, &ytok, i) {
            proof {
                assert(rest.subrange(0, 6) =~= v@.subrange(i as int, i + 6));
                assert(rest.skip(6) =~= v@.skip(i + 6));
            }
            let g = yyyy_group_chars();
            push_seq(&mut out, &g);
            i = i + 6;
        } else if 4 <= n - i && match_at_exec(&v, &mtok, i) {
            proof {
                assert(rest.subrange(0, 4) =~= v@.subrange(i as int, i + 4));
                assert(rest.skip(4) =~= v@.skip(i + 4));
                if rest.len() >= 6 && rest.subrange(0, 6) == yyyy_token() {
                    assert(rest.subrange(0, 4)[1] == rest.subrange(0, 6)[1]);
                }
            }
            let g = mm_group_chars();
            push_seq(&mut out, &g);
            i = i + 4;
        } else if 4 <= n - i && match_at_exec(&v, &dtok, i) {
            proof {
                assert(rest.subrange(0, 4) =~= v@.subrange(i as int, i + 4));
                assert(rest.skip(4) =~= v@.skip(i + 4));
                if rest.len() >= 6 && rest.subrange(0, 6) == yyyy_token() {
                    assert(rest.subrange(0, 4)[1] == rest.subrange(0, 6)[1]);
                }
                if rest.len() >= 4 && rest.subrange(0, 4) == mm_token() {
                    assert(rest.subrange(0, 4)[1] == 'm');
                }
            }
            let g = dd_group_chars();
            push_seq(&mut out, &g);
            i = i + 4;
        } else {
            let c = v[i];
            let ghost before = out@;
            if meta(c) {
                out.push('\\');
                out.push(c);
                proof {
                    assert(out@ =~= before + escape_char(rest[0]));
                }
            } else {
                out.push(c);
                proof {
                    assert(out@ =~= before + escape_char(rest[0]));
                }
            }
            proof {
                assert(rest.skip(1) =~= v@.skip(i + 1));
                if rest.len() >= 6 && rest.subrange(0, 6) == yyyy_token() {
                    assert(match_at(v@, yyyy_token(), i as int)) by {
                        assert(v@.subrange(i as int, i + 6) =~= rest.subrange(0, 6));
                    }
                }
                if rest.len() >= 4 && rest.subrange(0, 4) == mm_token() {
                    assert(match_at(v@, mm_token(), i as int)) by {
                        assert(v@.subrange(i as int, i + 4) =~= rest.subrange(0, 4));
                    }
                }
                if rest.len() >= 4 && rest.subrange(0, 4) == dd_token() {
                    assert(match_at(v@, dd_token(), i as int)) by {
                        assert(v@.subrange(i as int, i + 4) =~= rest.subrange(0, 4));
                    }
                }
            }
            i = i + 1;
        }
    }
    out.push('$');
    proof {
        assert(v@.skip(n as int) =~= Seq::<char>::empty());
        assert(out@ =~= pattern_spec(segment@));
    }
    string_of_chars(&out)
}

/// The segment holds at least one placeholder.
pub open spec fn seg_has_token(s: Seq<char>) -> bool {
    occurs(s, yyyy_token()) || occurs(s, mm_token()) || occurs(s, dd_token())
}

/// The chosen pattern segment of a template, as (start, end) indices:
/// walking segments from the leaf upward, the first one that holds a
/// placeholder.  `None` when no segment holds one.
pub open spec fn find_pattern_seg(s: Seq<char>) -> Option<(int, int)>
    decreases s.len(),
    via find_pattern_seg_decreases
{
    if s.len() == 0 {
        None
    } else {
        let p = split_point(s);
        if seg_has_token(s.skip(p)) {
            Some((p, s.len() as int))
        } else if p == 0 {
            None
        } else {
            find_pattern_seg(s.take(p - 1))
        }
    }
}

#[via_fn]
proof fn find_pattern_seg_decreases(s: Seq<char>) {
    lemma_split_point(s);
}

/// The directory named by everything before position `start`; empty when
/// the segment starts the path, the root separator alone when it directly
/// follows it.
pub open spec fn dir_before(s: Seq<char>, start: int) -> Seq<char> {
    if start <= 0 {
        Seq::<char>::empty()
    } else if start == 1 {
        s.take(1)
    } else {
        s.take(start - 1)
    }
}

/// The (directory to scan, pattern segment) pair for a template.  With no
/// placeholder anywhere the degraded fallback applies: the parent segment
/// of the template's last component is taken, which typically discovers
/// nothing.
pub open spec fn plan_spec(s: Seq<char>) -> (Seq<char>, Seq<char>) {
    match find_pattern_seg(s) {
        Some(pair) => (dir_before(s, pair.0), s.subrange(pair.0, pair.1)),
        None => {
            let p = split_point(s);
            if p == 0 {
                (seq!['.'], Seq::<char>::empty())
            } else {
                let parent = s.take(p - 1);
                if parent.len() == 0 {
                    (seq!['.'], Seq::<char>::empty())
                } else {
                    let q = split_point(parent);
                    (dir_before(parent, q), parent.skip(q))
                }
            }
        },
    }
}

/// The index just after the last separator within `v[..end]`.
fn find_split_upto(v: &Vec<char>, end: usize) -> (p: usize)
    requires
        end <= v@.len(),
    ensures
        p as int == split_point(v@.take(end as int)),
        p <= end,
{
    let ghost t = v@.take(end as int);
    let mut i: usize = end;
    while i > 0
        invariant
            i <= end,
            end <= v@.len(),
            t == v@.take(end as int),
            forall|j: int| i <= j < end ==> !is_sep(t[j]),
        decreases i,
    {
        let c = v[i - 1];
        if c == '/' || c == '\\' {
            proof {
                assert(is_sep(t[i - 1]));
                lemma_split_point(t);
                let sp = split_point(t);
                if sp < i as int {
                    assert(!is_sep(t[i - 1]));
                }
                if sp > i as int {
                    assert(!is_sep(t[sp - 1]));
                }
            }
            return i;
        }
        i = i - 1;
    }
    proof {
        lemma_split_point(t);
        if split_point(t) > 0 {
            assert(!is_sep(t[split_point(t) - 1]));
        }
    }
    0
}

/// Whether `pat` occurs anywhere in `s`.
fn occurs_exec(s: &Vec<char>, pat: &Vec<char>) -> (r: bool)
    requires
        pat@.len() > 0,
    ensures
        r == occurs(s@, pat@),
{
    let n = s.len();
    let m = pat.len();
    if m > n {
        proof {
            if occurs(s@, pat@) {
                let i = choose|i: int| match_at(s@, pat@, i);
            }
        }
        return false;
    }
    let mut k: usize = 0;
    while k <= n - m
        invariant
            k <= n - m + 1,
            0 < m <= n,
            n == s@.len(),
            m == pat@.len(),
            forall|i: int| 0 <= i < k ==> !match_at(s@, pat@, i),
        decreases n - k,
    {
        if match_at_exec(s, pat, k) {
            return true;
        }
        k = k + 1;
    }
    proof {
        if occurs(s@, pat@) {
            let i = choose|i: int| match_at(s@, pat@, i);
        }
    }
    false
}

/// Whether the segment holds a placeholder.
fn has_token(seg: &Vec<char>) -> (r: bool)
    ensures
        r == seg_has_token(seg@),
{
    let ytok = yyyy_token_chars();
    let mtok = mm_token_chars();
    let dtok = dd_token_chars();
    occurs_exec(seg, &ytok) || occurs_exec(seg, &mtok) || occurs_exec(seg, &dtok)
}

/// The directory string that `dir_before` names.
fn dir_before_exec(v: &Vec<char>, start: usize) -> (r: String)
    requires
        start <= v@.len(),
    ensures
        r@ == dir_before(v@, start as int),
{
    if start == 0 {
        let empty: Vec<char> = Vec::new();
        string_of_chars(&empty)
    } else if start == 1 {
        let piece = copy_range(v, 0, 1);
        proof {
            assert(v@.subrange(0, 1) =~= v@.take(1));
        }
        string_of_chars(&piece)
    } else {
        let piece = copy_range(v, 0, start - 1);
        proof {
            assert(v@.subrange(0, start - 1) =~= v@.take(start - 1));
        }
        string_of_chars(&piece)
    }
}

/// Splits a template into the directory to scan and the pattern segment,
/// walking the template's segments from the leaf upward and stopping at
/// the first one that holds a placeholder.
pub fn discovery_plan(template: &str) -> (r: (String, String))
    ensures
        r.0@ == plan_spec(template@).0,
        r.1@ == plan_spec(template@).1,
{
    let v = chars_of(template);
    let n = v.len();
    proof {
        assert(v@.take(n as int) =~= v@);
    }
    let mut end: usize = n;
    loop
        invariant
            end <= n,
            n == v@.len(),
            v@ == template@,
            find_pattern_seg(v@.take(end as int)) == find_pattern_seg(v@),
        ensures
            find_pattern_seg(v@) is None,
        decreases end,
    {
        if end == 0 {
            proof {
                assert(v@.take(0) =~= Seq::<char>::empty());
            }
            break;
        }
        let ghost t = v@.take(end as int);
        let p = find_split_upto(&v, end);
        let seg = copy_range(&v, p, end);
        proof {
            assert(t.skip(p as int) =~= v@.subrange(p as int, end as int));
        }
        if has_token(&seg) {
            proof {
                assert(find_pattern_seg(v@) == Some((p as int, end as int)));
                assert(v@.subrange(p as int, end as int) == seg@);
            }
            let dir = dir_before_exec(&v, p);
            let seg_s = string_of_chars(&seg);
            return (dir, seg_s);
        }
        if p == 0 {
            break;
        }
        proof {
            assert(t.take(p - 1) =~= v@.take(p - 1));
        }
        end = p - 1;
    }
    // No placeholder anywhere: fall back to the parent segment of the
    // template's last component.
    let p0 = find_split_upto(&v, n);
    proof {
        assert(v@.take(n as int) =~= v@);
    }
    if p0 == 0 || p0 == 1 {
        let mut dot: Vec<char> = Vec::new();
        dot.push('.');
        let empty: Vec<char> = Vec::new();
        proof {
            assert(dot@ =~= seq!['.']);
            if p0 == 1 {
                assert(v@.take(0) =~= Seq::<char>::empty());
            }
        }
        return (string_of_chars(&dot), string_of_chars(&empty));
    }
    let ghost parent = v@.take(p0 - 1);
    let q = find_split_upto(&v, p0 - 1);
    let seg = copy_range(&v, q, p0 - 1);
    proof {
        assert(parent.skip(q as int) =~= v@.subrange(q as int, p0 - 1));
    }
    let dir = if q == 0 {
        let empty: Vec<char> = Vec::new();
        string_of_chars(&empty)
    } else if q == 1 {
        let piece = copy_range(&v, 0, 1);
        proof {
            assert(v@.subrange(0, 1) =~= parent.take(1));
        }
        string_of_chars(&piece)
    } else {
        let piece = copy_range(&v, 0, q - 1);
        proof {
            assert(v@.subrange(0, q as int - 1) =~= parent.take(q as int - 1));
        }
        string_of_chars(&piece)
    };
    (dir, string_of_chars(&seg))
}

} // verus!
