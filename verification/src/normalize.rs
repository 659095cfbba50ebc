//! Identity normalization: the date-derived substrings of a filename are
//! replaced by the placeholder tokens, in a fixed two-pass order (year
//! first, then zero-padded month), and only in the final segment of a
//! relative path.

use vstd::prelude::*;
use crate::chars::{chars_of, string_of_chars, is_digit};
use crate::digits::{dec_int, dec_nat, pad2, i32_chars, pad2_chars, lemma_dec_nat_digits,
    lemma_pad2_shape};
use crate::replace::{replace_all, replace_all_chars, occurs, match_at, lemma_replace_absent,
    lemma_replace_skip_prefix, lemma_replace_first, lemma_match_at_skip,
    lemma_replace_prefix_unchanged, lemma_replace_at_first_match};

verus! {

/// The year placeholder, `{yyyy}`.
pub open spec fn yyyy_token() -> Seq<char> {
    seq!['{', 'y', 'y', 'y', 'y', '}']
}

/// The month placeholder, `{mm}`.
pub open spec fn mm_token() -> Seq<char> {
    seq!['{', 'm', 'm', '}']
}

/// The day placeholder, `{dd}`.
pub open spec fn dd_token() -> Seq<char> {
    seq!['{', 'd', 'd', '}']
}

pub fn yyyy_token_chars() -> (v: Vec<char>)
    ensures
        v@ == yyyy_token(),
{
    let mut v: Vec<char> = Vec::new();
    v.push('{');
    v.push('y');
    v.push('y');
    v.push('y');
    v.push('y');
    v.push('}');
    proof {
        assert(v@ =~= yyyy_token());
    }
    v
}

pub fn mm_token_chars() -> (v: Vec<char>)
    ensures
        v@ == mm_token(),
{
    let mut v: Vec<char> = Vec::new();
    v.push('{');
    v.push('m');
    v.push('m');
    v.push('}');
    proof {
        assert(v@ =~= mm_token());
    }
    v
}

pub fn dd_token_chars() -> (v: Vec<char>)
    ensures
        v@ == dd_token(),
{
    let mut v: Vec<char> = Vec::new();
    v.push('{');
    v.push('d');
    v.push('d');
    v.push('}');
    proof {
        assert(v@ =~= dd_token());
    }
    v
}

/// A filename normalized against a period: first every occurrence of the
/// year's decimal digits becomes `{yyyy}`, then, in that intermediate
/// string, every occurrence of the zero-padded month becomes `{mm}`.
pub open spec fn normalize_name_spec(name: Seq<char>, yyyy: int, mm: nat) -> Seq<char> {
    replace_all(replace_all(name, dec_int(yyyy), yyyy_token()), pad2(mm), mm_token())
}

/// Normalizes a vector of filename characters.
pub fn normalize_name_chars(name: &Vec<char>, yyyy: i32, mm: u32) -> (r: Vec<char>)
    ensures
        r@ == normalize_name_spec(name@, yyyy as int, mm as nat),
{
    let year = i32_chars(yyyy);
    let month = pad2_chars(mm);
    let ytok = yyyy_token_chars();
    let mtok = mm_token_chars();
    let step1 = replace_all_chars(name, &year, &ytok);
    replace_all_chars(&step1, &month, &mtok)
}

/// Normalizes a bare filename against a known year and month.
///
/// The passes are textual and deliberately order-sensitive: the month
/// substitution operates on the string the year substitution produced.
pub fn normalize_filename(name: &str, yyyy: i32, mm: u32) -> (r: String)
    ensures
        r@ == normalize_name_spec(name@, yyyy as int, mm as nat),
{
    let v = chars_of(name);
    let out = normalize_name_chars(&v, yyyy, mm);
    string_of_chars(&out)
}

/// A path separator: the canonical `/` or the Windows `\`.
pub open spec fn is_sep(c: char) -> bool {
    c == '/' || c == '\\'
}

/// The index just after the last separator of `s`; 0 when `s` has none.
pub open spec fn split_point(s: Seq<char>) -> int
    decreases s.len(),
{
    if s.len() == 0 {
        0
    } else if is_sep(s.last()) {
        s.len() as int
    } else {
        split_point(s.drop_last())
    }
}

/// Where `split_point` sits: on a separator, with none after it.
pub proof fn lemma_split_point(s: Seq<char>)
    ensures
        0 <= split_point(s) <= s.len(),
        split_point(s) > 0 ==> is_sep(s[split_point(s) - 1]),
        forall|j: int| split_point(s) <= j < s.len() ==> !is_sep(s[j]),
    decreases s.len(),
{
    if s.len() == 0 {
    } else if is_sep(s.last()) {
    } else {
        lemma_split_point(s.drop_last());
        assert forall|j: int| split_point(s) <= j < s.len() implies !is_sep(s[j]) by {
            if j < s.len() - 1 {
                assert(s.drop_last()[j] == s[j]);
            } else {
                assert(s[j] == s.last());
            }
        }
        if split_point(s) > 0 {
            assert(s.drop_last()[split_point(s) - 1] == s[split_point(s) - 1]);
        }
    }
}

/// The index just after the last separator of `v`; 0 when it has none.
pub(crate) fn find_split(v: &Vec<char>) -> (p: usize)
    ensures
        p as int == split_point(v@),
        p <= v@.len(),
{
    let n = v.len();
    let mut i: usize = n;
    while i > 0
        invariant
            i <= n,
            n == v@.len(),
            forall|j: int| i <= j < n ==> !is_sep(v@[j]),
        decreases i,
    {
        let c = v[i - 1];
        if c == '/' || c == '\\' {
            proof {
                lemma_split_point(v@);
                let sp = split_point(v@);
                if sp < i as int {
                    assert(!is_sep(v@[i - 1]));
                }
                if sp > i as int {
                    assert(!is_sep(v@[sp - 1]));
                }
            }
            return i;
        }
        i = i - 1;
    }
    proof {
        lemma_split_point(v@);
        if split_point(v@) > 0 {
            assert(!is_sep(v@[split_point(v@) - 1]));
        }
    }
    0
}

/// Separators replaced by the canonical `/`; every other character kept.
pub open spec fn canon_seps(s: Seq<char>) -> Seq<char> {
    s.map_values(|c: char| if c == '\\' { '/' } else { c })
}

/// A relative path normalized against a period: the final segment goes
/// through filename normalization, everything before it is kept (with
/// separators canonicalized) and rejoined with `/`.
pub open spec fn normalize_path_spec(s: Seq<char>, yyyy: int, mm: nat) -> Seq<char> {
    let p = split_point(s);
    if p == 0 {
        normalize_name_spec(s, yyyy, mm)
    } else {
        canon_seps(s.take(p - 1)) + seq!['/'] + normalize_name_spec(s.skip(p), yyyy, mm)
    }
}

/// Normalizes only the filename part of a relative path; directory
/// segments pass through untouched, separators become `/`.
pub fn normalize_rel_path(rel_path: &str, yyyy: i32, mm: u32) -> (r: String)
    ensures
        r@ == normalize_path_spec(rel_path@, yyyy as int, mm as nat),
{
    let v = chars_of(rel_path);
    let n = v.len();
    let p = find_split(&v);
    if p == 0 {
        let out = normalize_name_chars(&v, yyyy, mm);
        return string_of_chars(&out);
    }
    let mut out: Vec<char> = Vec::new();
    let mut k: usize = 0;
    while k < p - 1
        invariant
            k <= p - 1,
            0 < p <= n,
            n == v@.len(),
            out@ == canon_seps(v@.take(p - 1)).take(k as int),
        decreases p - 1 - k,
    {
        let c = v[k];
        if c == '\\' {
            out.push('/');
        } else {
            out.push(c);
        }
        proof {
            assert(out@ =~= canon_seps(v@.take(p as int - 1)).take(k + 1));
        }
        k = k + 1;
    }
    proof {
        assert(canon_seps(v@.take(p as int - 1)).take(p as int - 1) =~= canon_seps(
            v@.take(p as int - 1),
        ));
    }
    out.push('/');
    let mut file: Vec<char> = Vec::new();
    let mut k2: usize = p;
    while k2 < n
        invariant
            p <= k2 <= n,
            n == v@.len(),
            file@ == v@.subrange(p as int, k2 as int),
        decreases n - k2,
    {
        file.push(v[k2]);
        proof {
            assert(file@ =~= v@.subrange(p as int, k2 + 1));
        }
        k2 = k2 + 1;
    }
    proof {
        assert(file@ =~= v@.skip(p as int));
    }
    let norm = normalize_name_chars(&file, yyyy, mm);
    let mut j: usize = 0;
    let ghost head = out@;
    while j < norm.len()
        invariant
            j <= norm@.len(),
            out@ == head + norm@.take(j as int),
        decreases norm@.len() - j,
    {
        out.push(norm[j]);
        proof {
            assert(out@ =~= head + norm@.take(j + 1));
        }
        j = j + 1;
    }
    proof {
        assert(norm@.take(norm@.len() as int) =~= norm@);
        assert(out@ =~= normalize_path_spec(rel_path@, yyyy as int, mm as nat));
    }
    string_of_chars(&out)
}

/// Normalization is the identity on a name that holds neither the year's
/// digits nor the zero-padded month; on such names it is in particular
/// idempotent.
pub proof fn lemma_normalize_identity_when_absent(name: Seq<char>, yyyy: int, mm: nat)
    requires
        !occurs(name, dec_int(yyyy)),
        !occurs(name, pad2(mm)),
    ensures
        normalize_name_spec(name, yyyy, mm) == name,
        normalize_name_spec(normalize_name_spec(name, yyyy, mm), yyyy, mm)
            == normalize_name_spec(name, yyyy, mm),
{
    assert(dec_int(yyyy).len() > 0) by {
        if yyyy < 0 {
        }
    }
    assert(pad2(mm).len() > 0);
    lemma_replace_absent(name, dec_int(yyyy), yyyy_token());
    lemma_replace_absent(name, pad2(mm), mm_token());
}

/// The four passes applied to `s` give back `s`: the year pass, the
/// month pass, then the year token and the month token substituted away
/// again.
spec fn restores(s: Seq<char>, y: Seq<char>, m: Seq<char>) -> bool {
    replace_all(
        replace_all(
            replace_all(replace_all(s, y, yyyy_token()), m, mm_token()),
            yyyy_token(),
            y,
        ),
        mm_token(),
        m,
    ) == s
}

/// The shapes the round trip rests on: a non-empty year string without
/// `{`, and a two-digit month string.
spec fn round_trip_shapes(y: Seq<char>, m: Seq<char>) -> bool {
    y.len() > 0 && (forall|i: int| 0 <= i < y.len() ==> y[i] != '{') && m.len() == 2 && is_digit(
        m[0],
    ) && is_digit(m[1])
}

/// The year sits at the front: it becomes `{yyyy}`, the month pass walks
/// over the token, and the two restoring passes put the digits back.
proof fn lemma_round_trip_front_year(s: Seq<char>, y: Seq<char>, m: Seq<char>)
    requires
        round_trip_shapes(y, m),
        match_at(s, y, 0),
        restores(s.skip(y.len() as int), y, m),
    ensures
        restores(s, y, m),
{
    let ty = yyyy_token();
    let tm = mm_token();
    let s1 = s.skip(y.len() as int);
    assert(replace_all(s, y, ty) == ty + replace_all(s1, y, ty));
    let x = replace_all(s1, y, ty);
    assert forall|i: int| 0 <= i < ty.len() implies !match_at(ty + x, m, i) by {
        if match_at(ty + x, m, i) {
            assert((ty + x).subrange(i, i + 2)[0] == (ty + x)[i]);
            assert((ty + x)[i] == ty[i]);
        }
    }
    lemma_replace_skip_prefix(ty + x, m, tm, ty.len() as int);
    assert((ty + x).take(ty.len() as int) =~= ty);
    assert((ty + x).skip(ty.len() as int) =~= x);
    let x2 = replace_all(x, m, tm);
    assert(replace_all(ty + x, m, tm) == ty + x2);
    assert((ty + x2).subrange(0, ty.len() as int) =~= ty);
    assert((ty + x2).skip(ty.len() as int) =~= x2);
    assert(replace_all(ty + x2, ty, y) == y + replace_all(x2, ty, y));
    let x3 = replace_all(x2, ty, y);
    assert forall|i: int| 0 <= i < y.len() implies !match_at(y + x3, tm, i) by {
        if match_at(y + x3, tm, i) {
            assert((y + x3).subrange(i, i + 4)[0] == (y + x3)[i]);
            assert((y + x3)[i] == y[i]);
        }
    }
    lemma_replace_skip_prefix(y + x3, tm, m, y.len() as int);
    assert((y + x3).take(y.len() as int) =~= y);
    assert((y + x3).skip(y.len() as int) =~= x3);
    assert(s =~= y + s1);
}

/// The month sits at the front but the year starts inside it: the year
/// pass wins, leaving one literal digit before the year token.
proof fn lemma_round_trip_digit_then_year(s: Seq<char>, y: Seq<char>, m: Seq<char>)
    requires
        round_trip_shapes(y, m),
        forall|i: int| 0 <= i < s.len() ==> s[i] != '{',
        !match_at(s, y, 0),
        match_at(s, m, 0),
        match_at(s, y, 1),
        restores(s.skip(1 + y.len() as int), y, m),
    ensures
        restores(s, y, m),
{
    let ty = yyyy_token();
    let tm = mm_token();
    lemma_replace_skip_prefix(s, y, ty, 1);
    let c = s.take(1);
    let s1 = s.skip(1);
    lemma_match_at_skip(s, y, 1, 0);
    assert(match_at(s1, y, 0));
    let t = s1.skip(y.len() as int);
    assert(t =~= s.skip(1 + y.len() as int));
    assert(replace_all(s1, y, ty) == ty + replace_all(t, y, ty));
    let xt = replace_all(t, y, ty);
    assert(replace_all(s, y, ty) == c + (ty + xt));
    let head = c + ty;
    assert(c + (ty + xt) =~= head + xt);
    assert forall|i: int| 0 <= i < head.len() implies !match_at(head + xt, m, i) by {
        if match_at(head + xt, m, i) {
            if i == 0 {
                assert((head + xt).subrange(0, 2)[1] == (head + xt)[1]);
                assert((head + xt)[1] == ty[0]);
            } else {
                assert((head + xt).subrange(i, i + 2)[0] == (head + xt)[i]);
                assert((head + xt)[i] == ty[i - 1]);
            }
        }
    }
    lemma_replace_skip_prefix(head + xt, m, tm, head.len() as int);
    assert((head + xt).take(head.len() as int) =~= head);
    assert((head + xt).skip(head.len() as int) =~= xt);
    let x2 = replace_all(xt, m, tm);
    assert(replace_all(head + xt, m, tm) == head + x2);
    assert(head + x2 =~= c + (ty + x2));
    assert(!match_at(c + (ty + x2), ty, 0)) by {
        if match_at(c + (ty + x2), ty, 0) {
            assert((c + (ty + x2)).subrange(0, 6)[0] == (c + (ty + x2))[0]);
            assert((c + (ty + x2))[0] == s[0]);
        }
    }
    lemma_replace_skip_prefix(c + (ty + x2), ty, y, 1);
    assert((c + (ty + x2)).take(1) =~= c);
    assert((c + (ty + x2)).skip(1) =~= ty + x2);
    assert((ty + x2).subrange(0, ty.len() as int) =~= ty);
    assert((ty + x2).skip(ty.len() as int) =~= x2);
    assert(replace_all(ty + x2, ty, y) == y + replace_all(x2, ty, y));
    let x3 = replace_all(x2, ty, y);
    assert(replace_all(c + (ty + x2), ty, y) == c + (y + x3));
    let head2 = c + y;
    assert(c + (y + x3) =~= head2 + x3);
    assert forall|i: int| 0 <= i < head2.len() implies !match_at(head2 + x3, tm, i) by {
        if match_at(head2 + x3, tm, i) {
            assert((head2 + x3).subrange(i, i + 4)[0] == (head2 + x3)[i]);
            if i == 0 {
                assert((head2 + x3)[0] == s[0]);
            } else {
                assert((head2 + x3)[i] == y[i - 1]);
            }
        }
    }
    lemma_replace_skip_prefix(head2 + x3, tm, m, head2.len() as int);
    assert((head2 + x3).take(head2.len() as int) =~= head2);
    assert((head2 + x3).skip(head2.len() as int) =~= x3);
    assert(s1.subrange(0, y.len() as int) == y);
    assert(s =~= head2 + t);
}

/// The month sits at the front and no year run starts inside it: it
/// becomes `{mm}` and is restored unchanged.
proof fn lemma_round_trip_front_month(s: Seq<char>, y: Seq<char>, m: Seq<char>)
    requires
        round_trip_shapes(y, m),
        !match_at(s, y, 0),
        !match_at(s, y, 1),
        match_at(s, m, 0),
        restores(s.skip(2), y, m),
    ensures
        restores(s, y, m),
{
    let ty = yyyy_token();
    let tm = mm_token();
    assert forall|i: int| 0 <= i < 2 implies !match_at(s, y, i) by {}
    lemma_replace_skip_prefix(s, y, ty, 2);
    let s2 = s.skip(2);
    assert(s.take(2) =~= m);
    let x = replace_all(s2, y, ty);
    assert(replace_all(s, y, ty) == m + x);
    assert((m + x).subrange(0, 2) =~= m);
    assert((m + x).skip(2) =~= x);
    assert(replace_all(m + x, m, tm) == tm + replace_all(x, m, tm));
    let x2 = replace_all(x, m, tm);
    assert forall|i: int| 0 <= i < tm.len() implies !match_at(tm + x2, ty, i) by {
        if match_at(tm + x2, ty, i) {
            if i == 0 {
                assert((tm + x2).subrange(0, 6)[1] == (tm + x2)[1]);
                assert((tm + x2)[1] == tm[1]);
            } else {
                assert((tm + x2).subrange(i, i + 6)[0] == (tm + x2)[i]);
                assert((tm + x2)[i] == tm[i]);
            }
        }
    }
    lemma_replace_skip_prefix(tm + x2, ty, y, tm.len() as int);
    assert((tm + x2).take(tm.len() as int) =~= tm);
    assert((tm + x2).skip(tm.len() as int) =~= x2);
    let x3 = replace_all(x2, ty, y);
    assert(replace_all(tm + x2, ty, y) == tm + x3);
    assert((tm + x3).subrange(0, tm.len() as int) =~= tm);
    assert((tm + x3).skip(tm.len() as int) =~= x3);
    assert(replace_all(tm + x3, tm, m) == m + replace_all(x3, tm, m));
    assert(s =~= m + s2);
}

/// Neither the year nor the month starts at the front: the first
/// character is copied through all four passes.
proof fn lemma_round_trip_literal(s: Seq<char>, y: Seq<char>, m: Seq<char>)
    requires
        round_trip_shapes(y, m),
        forall|i: int| 0 <= i < s.len() ==> s[i] != '{',
        s.len() > 0,
        !match_at(s, y, 0),
        !match_at(s, m, 0),
        restores(s.skip(1), y, m),
    ensures
        restores(s, y, m),
{
    let ty = yyyy_token();
    let tm = mm_token();
    lemma_replace_skip_prefix(s, y, ty, 1);
    let c = s.take(1);
    let s1 = s.skip(1);
    let x = replace_all(s1, y, ty);
    assert(replace_all(s, y, ty) == c + x);
    assert(!match_at(c + x, m, 0)) by {
        if match_at(c + x, m, 0) {
            assert((c + x).subrange(0, 2)[0] == (c + x)[0]);
            assert((c + x).subrange(0, 2)[1] == (c + x)[1]);
            assert((c + x)[0] == s[0]);
            if s1.len() == 0 {
                assert(x == s1);
            } else {
                lemma_replace_first(s1, y, ty);
                assert((c + x)[1] == x[0]);
                if match_at(s1, y, 0) {
                    assert(x[0] == ty[0]);
                } else {
                    assert(x[0] == s1[0]);
                    assert(s.subrange(0, 2) =~= m);
                    assert(match_at(s, m, 0));
                }
            }
        }
    }
    lemma_replace_skip_prefix(c + x, m, tm, 1);
    assert((c + x).take(1) =~= c);
    assert((c + x).skip(1) =~= x);
    let x2 = replace_all(x, m, tm);
    assert(replace_all(c + x, m, tm) == c + x2);
    assert(!match_at(c + x2, ty, 0)) by {
        if match_at(c + x2, ty, 0) {
            assert((c + x2).subrange(0, 6)[0] == (c + x2)[0]);
            assert((c + x2)[0] == s[0]);
        }
    }
    lemma_replace_skip_prefix(c + x2, ty, y, 1);
    assert((c + x2).take(1) =~= c);
    assert((c + x2).skip(1) =~= x2);
    let x3 = replace_all(x2, ty, y);
    assert(replace_all(c + x2, ty, y) == c + x3);
    assert(!match_at(c + x3, tm, 0)) by {
        if match_at(c + x3, tm, 0) {
            assert((c + x3).subrange(0, 4)[0] == (c + x3)[0]);
            assert((c + x3)[0] == s[0]);
        }
    }
    lemma_replace_skip_prefix(c + x3, tm, m, 1);
    assert((c + x3).take(1) =~= c);
    assert((c + x3).skip(1) =~= x3);
    assert(s =~= c + s1);
}

/// The two normalization passes, undone in the same order, restore any
/// text free of `{`, whichever of the year, the month or neither sits at
/// each position.
proof fn lemma_two_pass_round_trip(s: Seq<char>, y: Seq<char>, m: Seq<char>)
    requires
        round_trip_shapes(y, m),
        forall|i: int| 0 <= i < s.len() ==> s[i] != '{',
    ensures
        restores(s, y, m),
    decreases s.len(),
{
    let ty = yyyy_token();
    let tm = mm_token();
    if s.len() == 0 {
        assert(replace_all(s, y, ty) == s);
        assert(replace_all(s, m, tm) == s);
        assert(replace_all(s, ty, y) == s);
        assert(replace_all(s, tm, m) == s);
    } else if match_at(s, y, 0) {
        let s1 = s.skip(y.len() as int);
        assert forall|i: int| 0 <= i < s1.len() implies s1[i] != '{' by {
            assert(s1[i] == s[i + y.len()]);
        }
        lemma_two_pass_round_trip(s1, y, m);
        lemma_round_trip_front_year(s, y, m);
    } else if match_at(s, m, 0) && match_at(s, y, 1) {
        let t = s.skip(1 + y.len() as int);
        assert forall|i: int| 0 <= i < t.len() implies t[i] != '{' by {
            assert(t[i] == s[i + 1 + y.len()]);
        }
        lemma_two_pass_round_trip(t, y, m);
        lemma_round_trip_digit_then_year(s, y, m);
    } else if match_at(s, m, 0) {
        let s2 = s.skip(2);
        assert forall|i: int| 0 <= i < s2.len() implies s2[i] != '{' by {
            assert(s2[i] == s[i + 2]);
        }
        lemma_two_pass_round_trip(s2, y, m);
        lemma_round_trip_front_month(s, y, m);
    } else {
        let s1 = s.skip(1);
        assert forall|i: int| 0 <= i < s1.len() implies s1[i] != '{' by {
            assert(s1[i] == s[i + 1]);
        }
        lemma_two_pass_round_trip(s1, y, m);
        lemma_round_trip_literal(s, y, m);
    }
}

/// Substituting the year for `{yyyy}` and then the zero-padded month
/// for `{mm}` in a normalized name reconstructs the original name
/// exactly, for every name free of `{`.
pub proof fn lemma_normalize_round_trip(name: Seq<char>, yyyy: int, mm: nat)
    requires
        yyyy >= 0,
        mm <= 99,
        forall|i: int| 0 <= i < name.len() ==> name[i] != '{',
    ensures
        replace_all(
            replace_all(normalize_name_spec(name, yyyy, mm), yyyy_token(), dec_int(yyyy)),
            mm_token(),
            pad2(mm),
        ) == name,
{
    lemma_dec_nat_digits(yyyy as nat);
    lemma_pad2_shape(mm);
    let y = dec_int(yyyy);
    assert(y == dec_nat(yyyy as nat));
    assert forall|i: int| 0 <= i < y.len() implies y[i] != '{' by {
        assert(is_digit(y[i]));
    }
    lemma_two_pass_round_trip(name, y, pad2(mm));
}

/// No decimal digit anywhere in the text.
pub open spec fn digit_free(s: Seq<char>) -> bool {
    forall|i: int| 0 <= i < s.len() ==> !is_digit(#[trigger] s[i])
}

/// No placeholder token is directly followed by another.
pub open spec fn tokens_separated(s: Seq<char>) -> bool {
    (forall|i: int|
        #[trigger] match_at(s, yyyy_token(), i) ==> !match_at(s, yyyy_token(), i + 6)
            && !match_at(s, mm_token(), i + 6)) && (forall|i: int|
        #[trigger] match_at(s, mm_token(), i) ==> !match_at(s, yyyy_token(), i + 4)
            && !match_at(s, mm_token(), i + 4))
}

/// A name with its placeholders instantiated at a period: `{yyyy}`
/// becomes the year's digits, then `{mm}` the zero-padded month.
pub open spec fn instantiate_name_spec(name: Seq<char>, yyyy: int, mm: nat) -> Seq<char> {
    replace_all(replace_all(name, yyyy_token(), dec_int(yyyy)), mm_token(), pad2(mm))
}

/// The digit shapes the instantiation round trip rests on: a year of at
/// least three digits and a two-digit month.
spec fn inst_shapes(y: Seq<char>, m: Seq<char>) -> bool {
    y.len() >= 3 && (forall|i: int| 0 <= i < y.len() ==> is_digit(#[trigger] y[i])) && m.len() == 2
        && is_digit(m[0]) && is_digit(m[1])
}

/// The four passes: the tokens instantiated at a period and then
/// normalized against it give back the original name.
spec fn reinstated(n: Seq<char>, y: Seq<char>, m: Seq<char>) -> bool {
    replace_all(
        replace_all(replace_all(replace_all(n, yyyy_token(), y), mm_token(), m), y, yyyy_token()),
        m,
        mm_token(),
    ) == n
}

/// Token separation carries over to any suffix.
proof fn lemma_separated_skip(s: Seq<char>, k: int)
    requires
        0 <= k <= s.len(),
        tokens_separated(s),
    ensures
        tokens_separated(s.skip(k)),
{
    assert forall|i: int| #[trigger] match_at(s.skip(k), yyyy_token(), i) implies !match_at(
        s.skip(k),
        yyyy_token(),
        i + 6,
    ) && !match_at(s.skip(k), mm_token(), i + 6) by {
        lemma_match_at_skip(s, yyyy_token(), k, i);
        lemma_match_at_skip(s, yyyy_token(), k, i + 6);
        lemma_match_at_skip(s, mm_token(), k, i + 6);
    }
    assert forall|i: int| #[trigger] match_at(s.skip(k), mm_token(), i) implies !match_at(
        s.skip(k),
        yyyy_token(),
        i + 4,
    ) && !match_at(s.skip(k), mm_token(), i + 4) by {
        lemma_match_at_skip(s, mm_token(), k, i);
        lemma_match_at_skip(s, yyyy_token(), k, i + 4);
        lemma_match_at_skip(s, mm_token(), k, i + 4);
    }
}

/// A year token at the front: it becomes the year's digits, the month
/// pass walks over them, and normalization turns them back.
proof fn lemma_inst_front_year(n: Seq<char>, y: Seq<char>, m: Seq<char>)
    requires
        inst_shapes(y, m),
        match_at(n, yyyy_token(), 0),
        reinstated(n.skip(6), y, m),
    ensures
        reinstated(n, y, m),
{
    let ty = yyyy_token();
    let tm = mm_token();
    let n1 = n.skip(6);
    assert(n.subrange(0, 6) == ty);
    assert(replace_all(n, ty, y) == y + replace_all(n1, ty, y));
    let x = replace_all(n1, ty, y);
    assert forall|i: int| 0 <= i < y.len() implies !match_at(y + x, tm, i) by {
        if match_at(y + x, tm, i) {
            assert((y + x).subrange(i, i + 4)[0] == (y + x)[i]);
            assert((y + x)[i] == y[i]);
        }
    }
    lemma_replace_skip_prefix(y + x, tm, m, y.len() as int);
    assert((y + x).take(y.len() as int) =~= y);
    assert((y + x).skip(y.len() as int) =~= x);
    let x2 = replace_all(x, tm, m);
    assert(replace_all(y + x, tm, m) == y + x2);
    assert((y + x2).subrange(0, y.len() as int) =~= y);
    assert((y + x2).skip(y.len() as int) =~= x2);
    assert(replace_all(y + x2, y, ty) == ty + replace_all(x2, y, ty));
    let x3 = replace_all(x2, y, ty);
    assert forall|i: int| 0 <= i < ty.len() implies !match_at(ty + x3, m, i) by {
        if match_at(ty + x3, m, i) {
            assert((ty + x3).subrange(i, i + 2)[0] == (ty + x3)[i]);
            assert((ty + x3)[i] == ty[i]);
        }
    }
    lemma_replace_skip_prefix(ty + x3, m, tm, ty.len() as int);
    assert((ty + x3).take(ty.len() as int) =~= ty);
    assert((ty + x3).skip(ty.len() as int) =~= x3);
    assert(n =~= ty + n1);
}

/// A month token at the front: it becomes the month's digits; because
/// the next character of the name is no digit and no token follows
/// directly, no year run forms across the seam.
proof fn lemma_inst_front_month(n: Seq<char>, y: Seq<char>, m: Seq<char>)
    requires
        inst_shapes(y, m),
        digit_free(n),
        tokens_separated(n),
        !match_at(n, yyyy_token(), 0),
        match_at(n, mm_token(), 0),
        reinstated(n.skip(4), y, m),
    ensures
        reinstated(n, y, m),
{
    let ty = yyyy_token();
    let tm = mm_token();
    let n1 = n.skip(4);
    assert(n.subrange(0, 4) == tm);
    // pass 1 walks over the month token
    assert forall|i: int| 0 <= i < 4 implies !match_at(n, ty, i) by {
        if match_at(n, ty, i) && i > 0 {
            assert(n.subrange(i, i + 6)[0] == n[i]);
            assert(n.subrange(0, 4)[i] == n[i]);
        }
    }
    lemma_replace_skip_prefix(n, ty, y, 4);
    assert(n.take(4) =~= tm);
    let x = replace_all(n1, ty, y);
    assert(replace_all(n, ty, y) == tm + x);
    // pass 2: the token at the front becomes the month digits
    assert((tm + x).subrange(0, 4) =~= tm);
    assert((tm + x).skip(4) =~= x);
    assert(replace_all(tm + x, tm, m) == m + replace_all(x, tm, m));
    let x2 = replace_all(x, tm, m);
    // separation: no token directly after the month token
    assert(!match_at(n, ty, 4) && !match_at(n, tm, 4));
    assert(!match_at(n1, ty, 0)) by {
        lemma_match_at_skip(n, ty, 4, 0);
    }
    assert(!match_at(n1, tm, 0)) by {
        lemma_match_at_skip(n, tm, 4, 0);
    }
    // the year pass left no month token at the front of the tail
    assert(!match_at(x, tm, 0)) by {
        if match_at(x, tm, 0) {
            assert(x.subrange(0, 4)[0] == x[0]);
            assert(x.subrange(0, 4)[1] == x[1]);
            assert(x.subrange(0, 4)[2] == x[2]);
            assert(x.subrange(0, 4)[3] == x[3]);
            if match_at(n1, ty, 1) {
                lemma_replace_at_first_match(n1, ty, y, 1);
            } else if match_at(n1, ty, 2) {
                lemma_replace_at_first_match(n1, ty, y, 2);
            } else if match_at(n1, ty, 3) {
                lemma_replace_at_first_match(n1, ty, y, 3);
            } else {
                if n1.len() < 4 {
                    assert(!occurs(n1, ty)) by {
                        if occurs(n1, ty) {
                            let q = choose|q: int| match_at(n1, ty, q);
                        }
                    }
                    lemma_replace_absent(n1, ty, y);
                } else {
                    lemma_replace_prefix_unchanged(n1, ty, y, 4);
                    assert(n1.subrange(0, 4) =~= tm);
                    assert(match_at(n1, tm, 0));
                }
            }
        }
    }
    // pass 3 copies the month digits: no year run starts there, since
    // the character after them comes from the name and is no digit
    let front = m + x2;
    assert forall|i: int| 0 <= i < 2 implies !match_at(front, y, i) by {
        if match_at(front, y, i) {
            assert(front.subrange(i, i + y.len())[2 - i] == front[2]);
            assert(is_digit(y[2 - i]));
            assert(front[2] == x2[0]);
            if x.len() == 0 {
                assert(x =~= Seq::<char>::empty());
                assert(x2 == x);
            } else {
                lemma_replace_first(x, tm, m);
                assert(x2[0] == x[0]);
                if n1.len() == 0 {
                    assert(x =~= Seq::<char>::empty());
                } else {
                    lemma_replace_first(n1, ty, y);
                    assert(x[0] == n1[0]);
                    assert(n1[0] == n[4]);
                    assert(!is_digit(n[4]));
                }
            }
        }
    }
    lemma_replace_skip_prefix(front, y, ty, 2);
    assert(front.take(2) =~= m);
    assert(front.skip(2) =~= x2);
    let x3 = replace_all(x2, y, ty);
    assert(replace_all(front, y, ty) == m + x3);
    // pass 4: the month digits at the front become the token again
    assert((m + x3).subrange(0, 2) =~= m);
    assert((m + x3).skip(2) =~= x3);
    assert(replace_all(m + x3, m, tm) == tm + replace_all(x3, m, tm));
    assert(n =~= tm + n1);
}

/// A literal character at the front: it is no digit, so all four passes
/// copy it through.
proof fn lemma_inst_front_literal(n: Seq<char>, y: Seq<char>, m: Seq<char>)
    requires
        inst_shapes(y, m),
        digit_free(n),
        n.len() > 0,
        !match_at(n, yyyy_token(), 0),
        !match_at(n, mm_token(), 0),
        reinstated(n.skip(1), y, m),
    ensures
        reinstated(n, y, m),
{
    let ty = yyyy_token();
    let tm = mm_token();
    let c = n.take(1);
    let n1 = n.skip(1);
    lemma_replace_skip_prefix(n, ty, y, 1);
    let x = replace_all(n1, ty, y);
    assert(replace_all(n, ty, y) == c + x);
    // pass 2: no month token starts at the front
    assert(!match_at(c + x, tm, 0)) by {
        if match_at(c + x, tm, 0) {
            assert((c + x).subrange(0, 4)[0] == (c + x)[0]);
            assert((c + x).subrange(0, 4)[1] == (c + x)[1]);
            assert((c + x).subrange(0, 4)[2] == (c + x)[2]);
            assert((c + x).subrange(0, 4)[3] == (c + x)[3]);
            assert((c + x)[0] == n[0]);
            assert((c + x)[1] == x[0] && (c + x)[2] == x[1] && (c + x)[3] == x[2]);
            if match_at(n1, ty, 0) {
                lemma_replace_at_first_match(n1, ty, y, 0);
            } else if match_at(n1, ty, 1) {
                lemma_replace_at_first_match(n1, ty, y, 1);
            } else if match_at(n1, ty, 2) {
                lemma_replace_at_first_match(n1, ty, y, 2);
            } else {
                if n1.len() < 3 {
                    assert(!occurs(n1, ty)) by {
                        if occurs(n1, ty) {
                            let q = choose|q: int| match_at(n1, ty, q);
                        }
                    }
                    lemma_replace_absent(n1, ty, y);
                } else {
                    lemma_replace_prefix_unchanged(n1, ty, y, 3);
                    assert(n1[0] == n[1] && n1[1] == n[2] && n1[2] == n[3]);
                    assert(n.subrange(0, 4) =~= tm);
                    assert(match_at(n, tm, 0));
                }
            }
        }
    }
    lemma_replace_skip_prefix(c + x, tm, m, 1);
    assert((c + x).take(1) =~= c);
    assert((c + x).skip(1) =~= x);
    let x2 = replace_all(x, tm, m);
    assert(replace_all(c + x, tm, m) == c + x2);
    // pass 3: the literal is no digit
    assert(!match_at(c + x2, y, 0)) by {
        if match_at(c + x2, y, 0) {
            assert((c + x2).subrange(0, y.len() as int)[0] == (c + x2)[0]);
            assert((c + x2)[0] == n[0]);
            assert(is_digit(y[0]));
        }
    }
    lemma_replace_skip_prefix(c + x2, y, ty, 1);
    assert((c + x2).take(1) =~= c);
    assert((c + x2).skip(1) =~= x2);
    let x3 = replace_all(x2, y, ty);
    assert(replace_all(c + x2, y, ty) == c + x3);
    // pass 4: likewise
    assert(!match_at(c + x3, m, 0)) by {
        if match_at(c + x3, m, 0) {
            assert((c + x3).subrange(0, 2)[0] == (c + x3)[0]);
            assert((c + x3)[0] == n[0]);
            assert(is_digit(m[0]));
        }
    }
    lemma_replace_skip_prefix(c + x3, m, tm, 1);
    assert((c + x3).take(1) =~= c);
    assert((c + x3).skip(1) =~= x3);
    assert(n =~= c + n1);
}

/// Instantiating the tokens of a digit-free name with separated tokens
/// and normalizing against the same period restores the name.
proof fn lemma_instantiate_round_trip(n: Seq<char>, y: Seq<char>, m: Seq<char>)
    requires
        inst_shapes(y, m),
        digit_free(n),
        tokens_separated(n),
    ensures
        reinstated(n, y, m),
    decreases n.len(),
{
    let ty = yyyy_token();
    let tm = mm_token();
    if n.len() == 0 {
        assert(replace_all(n, ty, y) == n);
        assert(replace_all(n, tm, m) == n);
        assert(replace_all(n, y, ty) == n);
        assert(replace_all(n, m, tm) == n);
    } else if match_at(n, ty, 0) {
        let n1 = n.skip(6);
        assert forall|i: int| 0 <= i < n1.len() implies !is_digit(#[trigger] n1[i]) by {
            assert(n1[i] == n[i + 6]);
        }
        lemma_separated_skip(n, 6);
        lemma_instantiate_round_trip(n1, y, m);
        lemma_inst_front_year(n, y, m);
    } else if match_at(n, tm, 0) {
        let n1 = n.skip(4);
        assert forall|i: int| 0 <= i < n1.len() implies !is_digit(#[trigger] n1[i]) by {
            assert(n1[i] == n[i + 4]);
        }
        lemma_separated_skip(n, 4);
        lemma_instantiate_round_trip(n1, y, m);
        lemma_inst_front_month(n, y, m);
    } else {
        let n1 = n.skip(1);
        assert forall|i: int| 0 <= i < n1.len() implies !is_digit(#[trigger] n1[i]) by {
            assert(n1[i] == n[i + 1]);
        }
        lemma_separated_skip(n, 1);
        lemma_instantiate_round_trip(n1, y, m);
        lemma_inst_front_literal(n, y, m);
    }
}

/// Re-instantiating a normalized name at a period and normalizing it
/// against that period gives the name back, for every digit-free name
/// whose tokens are not directly adjacent, a year of at least 100 and
/// any month.
pub proof fn lemma_instantiate_then_normalize(name: Seq<char>, yyyy: int, mm: nat)
    requires
        100 <= yyyy,
        mm <= 99,
        digit_free(name),
        tokens_separated(name),
    ensures
        normalize_name_spec(instantiate_name_spec(name, yyyy, mm), yyyy, mm) == name,
{
    lemma_dec_nat_digits(yyyy as nat);
    lemma_pad2_shape(mm);
    let y = dec_int(yyyy);
    assert(y == dec_nat(yyyy as nat));
    assert(y.len() >= 3) by {
        let nv = yyyy as nat;
        assert(dec_nat(nv) == dec_nat(nv / 10) + seq![crate::digits::digit_char((nv % 10) as int)]);
        assert(nv / 10 >= 10);
        assert(dec_nat(nv / 10) == dec_nat(nv / 10 / 10) + seq![
            crate::digits::digit_char((nv / 10 % 10) as int),
        ]);
        lemma_dec_nat_digits(nv / 10 / 10);
    }
    lemma_instantiate_round_trip(name, y, pad2(mm));
}

/// Files that differ only by the embedded date carry one identity: a
/// normalized name instantiated at two periods and normalized against
/// each yields the same key both times.
pub proof fn lemma_same_identity_across_periods(
    name: Seq<char>,
    y1: int,
    m1: nat,
    y2: int,
    m2: nat,
)
    requires
        100 <= y1,
        100 <= y2,
        m1 <= 99,
        m2 <= 99,
        digit_free(name),
        tokens_separated(name),
    ensures
        normalize_name_spec(instantiate_name_spec(name, y1, m1), y1, m1) == normalize_name_spec(
            instantiate_name_spec(name, y2, m2),
            y2,
            m2,
        ),
{
    lemma_instantiate_then_normalize(name, y1, m1);
    lemma_instantiate_then_normalize(name, y2, m2);
}

/// The path normalizer never alters a directory segment: ahead of the
/// split point the output is the input with separators canonicalized, and
/// from the split point on it is exactly the normalized filename.
pub proof fn lemma_path_normalizer_keeps_directories(s: Seq<char>, yyyy: int, mm: nat)
    requires
        split_point(s) > 0,
    ensures
        normalize_path_spec(s, yyyy, mm).take(split_point(s)) == canon_seps(
            s.take(split_point(s) - 1),
        ) + seq!['/'],
        normalize_path_spec(s, yyyy, mm).skip(split_point(s)) == normalize_name_spec(
            s.skip(split_point(s)),
            yyyy,
            mm,
        ),
{
    let p = split_point(s);
    lemma_split_point(s);
    let whole = normalize_path_spec(s, yyyy, mm);
    assert(whole.take(p) =~= canon_seps(s.take(p - 1)) + seq!['/']);
    assert(whole.skip(p) =~= normalize_name_spec(s.skip(p), yyyy, mm));
}

} // verus!
