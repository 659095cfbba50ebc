//! Left-to-right, non-overlapping replacement of a literal substring, the
//! primitive that both template resolution and identity normalization are
//! built on.

use vstd::prelude::*;

verus! {

/// `pat` occurs in `s` starting at position `i`.
pub open spec fn match_at(s: Seq<char>, pat: Seq<char>, i: int) -> bool {
    0 <= i && i + pat.len() <= s.len() && s.subrange(i, i + pat.len()) == pat
}

/// `pat` occurs somewhere in `s`.
pub open spec fn occurs(s: Seq<char>, pat: Seq<char>) -> bool {
    exists|i: int| match_at(s, pat, i)
}

/// Every occurrence of `pat` in `s` replaced by `to`, scanning left to
/// right and never rescanning replaced text.  A pattern that is empty or
/// longer than the rest of the text leaves it unchanged.
pub open spec fn replace_all(s: Seq<char>, pat: Seq<char>, to: Seq<char>) -> Seq<char>
    decreases s.len(),
{
    if pat.len() == 0 || s.len() < pat.len() {
        s
    } else if s.subrange(0, pat.len() as int) == pat {
        to + replace_all(s.skip(pat.len() as int), pat, to)
    } else {
        seq![s[0]] + replace_all(s.skip(1), pat, to)
    }
}

/// An occurrence in a suffix is an occurrence in the whole, shifted.
pub proof fn lemma_match_at_skip(s: Seq<char>, pat: Seq<char>, k: int, i: int)
    requires
        0 <= k <= s.len(),
    ensures
        match_at(s.skip(k), pat, i) == (0 <= i && match_at(s, pat, i + k)),
{
    if 0 <= i && i + pat.len() <= s.len() - k {
        assert(s.skip(k).subrange(i, i + pat.len()) =~= s.subrange(i + k, i + k + pat.len()));
    }
}

/// Text without the pattern is left alone.
pub proof fn lemma_replace_absent(s: Seq<char>, pat: Seq<char>, to: Seq<char>)
    requires
        pat.len() > 0,
        !occurs(s, pat),
    ensures
        replace_all(s, pat, to) == s,
    decreases s.len(),
{
    if s.len() < pat.len() {
    } else if s.subrange(0, pat.len() as int) == pat {
        assert(match_at(s, pat, 0));
    } else {
        assert forall|i: int| !match_at(s.skip(1), pat, i) by {
            lemma_match_at_skip(s, pat, 1, i);
        }
        lemma_replace_absent(s.skip(1), pat, to);
        assert(seq![s[0]] + s.skip(1) =~= s);
    }
}

/// A prefix in which no occurrence starts is copied through unchanged.
pub proof fn lemma_replace_skip_prefix(s: Seq<char>, pat: Seq<char>, to: Seq<char>, k: int)
    requires
        pat.len() > 0,
        0 <= k <= s.len(),
        forall|i: int| 0 <= i < k ==> !match_at(s, pat, i),
    ensures
        replace_all(s, pat, to) == s.take(k) + replace_all(s.skip(k), pat, to),
    decreases k,
{
    if k == 0 {
        assert(s.skip(0) =~= s);
        assert(s.take(0) + replace_all(s, pat, to) =~= replace_all(s, pat, to));
    } else {
        assert(!match_at(s, pat, 0));
        if s.len() < pat.len() {
            assert(replace_all(s.skip(k), pat, to) == s.skip(k));
            assert(s.take(k) + s.skip(k) =~= s);
        } else {
            assert(s.subrange(0, pat.len() as int) != pat) by {
                if s.subrange(0, pat.len() as int) == pat {
                    assert(match_at(s, pat, 0));
                }
            }
            assert forall|i: int| 0 <= i < k - 1 implies !match_at(s.skip(1), pat, i) by {
                lemma_match_at_skip(s, pat, 1, i);
            }
            lemma_replace_skip_prefix(s.skip(1), pat, to, k - 1);
            assert(s.skip(1).skip(k - 1) =~= s.skip(k));
            assert(seq![s[0]] + (s.skip(1).take(k - 1) + replace_all(s.skip(k), pat, to))
                =~= s.take(k) + replace_all(s.skip(k), pat, to)) by {
                assert(seq![s[0]] + s.skip(1).take(k - 1) =~= s.take(k));
            }
        }
    }
}

/// Replacement never empties a non-empty text, and its first character
/// is the replacement's where the pattern matches at the front, the
/// text's own otherwise.
pub proof fn lemma_replace_first(s: Seq<char>, pat: Seq<char>, to: Seq<char>)
    requires
        s.len() > 0,
        pat.len() > 0,
        to.len() > 0,
    ensures
        replace_all(s, pat, to).len() > 0,
        replace_all(s, pat, to)[0] == (if match_at(s, pat, 0) {
            to[0]
        } else {
            s[0]
        }),
{
    if s.len() < pat.len() {
    } else if s.subrange(0, pat.len() as int) == pat {
        assert(match_at(s, pat, 0));
    } else {
        assert(!match_at(s, pat, 0));
    }
}

/// Ahead of a position before which no occurrence starts, every
/// character is copied through.
pub proof fn lemma_replace_prefix_unchanged(s: Seq<char>, pat: Seq<char>, to: Seq<char>, k: int)
    requires
        pat.len() > 0,
        0 <= k <= s.len(),
        forall|j: int| 0 <= j < k ==> !match_at(s, pat, j),
    ensures
        replace_all(s, pat, to).len() >= k,
        forall|j: int| 0 <= j < k ==> replace_all(s, pat, to)[j] == s[j],
{
    lemma_replace_skip_prefix(s, pat, to, k);
    assert forall|j: int| 0 <= j < k implies replace_all(s, pat, to)[j] == s[j] by {
        assert(replace_all(s, pat, to)[j] == s.take(k)[j]);
    }
}

/// At the first occurrence the replacement text begins; everything
/// before it is copied through.
pub proof fn lemma_replace_at_first_match(s: Seq<char>, pat: Seq<char>, to: Seq<char>, i: int)
    requires
        pat.len() > 0,
        to.len() > 0,
        0 <= i,
        match_at(s, pat, i),
        forall|j: int| 0 <= j < i ==> !match_at(s, pat, j),
    ensures
        replace_all(s, pat, to).len() > i,
        replace_all(s, pat, to)[i] == to[0],
        forall|j: int| 0 <= j < i ==> replace_all(s, pat, to)[j] == s[j],
{
    lemma_replace_skip_prefix(s, pat, to, i);
    let rest = s.skip(i);
    lemma_match_at_skip(s, pat, i, 0);
    assert(match_at(rest, pat, 0));
    assert(rest.subrange(0, pat.len() as int) == pat);
    assert(replace_all(rest, pat, to) == to + replace_all(
        rest.skip(pat.len() as int),
        pat,
        to,
    ));
    assert(replace_all(s, pat, to)[i] == (to + replace_all(rest.skip(pat.len() as int), pat, to))[
        0
    ]);
    assert forall|j: int| 0 <= j < i implies replace_all(s, pat, to)[j] == s[j] by {
        assert(replace_all(s, pat, to)[j] == s.take(i)[j]);
    }
}

/// `pat` matches `s` at position `i`.
pub fn match_at_exec(s: &Vec<char>, pat: &Vec<char>, i: usize) -> (r: bool)
    requires
        i + pat@.len() <= s@.len(),
    ensures
        r == match_at(s@, pat@, i as int),
{
    let sn = s.len();
    let m = pat.len();
    let mut j: usize = 0;
    while j < m
        invariant
            j <= m,
            m == pat@.len(),
            sn == s@.len(),
            i + m <= s@.len(),
            forall|x: int| 0 <= x < j ==> s@[i + x] == pat@[x],
        decreases m - j,
    {
        if s[i + j] != pat[j] {
            assert(s@.subrange(i as int, i + m) != pat@) by {
                if s@.subrange(i as int, i + m) == pat@ {
                    assert(s@.subrange(i as int, i + m)[j as int] == s@[i + j]);
                }
            }
            return false;
        }
        j = j + 1;
    }
    proof {
        assert(s@.subrange(i as int, i + m) =~= pat@);
    }
    true
}

/// Every occurrence of `pat` in `s` replaced by `to`, as `replace_all`
/// describes it.
pub fn replace_all_chars(s: &Vec<char>, pat: &Vec<char>, to: &Vec<char>) -> (r: Vec<char>)
    ensures
        r@ == replace_all(s@, pat@, to@),
{
    let n = s.len();
    let m = pat.len();
    let mut out: Vec<char> = Vec::new();
    if m == 0 {
        let mut i: usize = 0;
        while i < n
            invariant
                i <= n,
                n == s@.len(),
                out@ == s@.take(i as int),
            decreases n - i,
        {
            out.push(s[i]);
            proof {
                assert(out@ =~= s@.take(i + 1));
            }
            i = i + 1;
        }
        proof {
            assert(out@ =~= s@);
        }
        return out;
    }
    proof {
        assert(s@.skip(0) =~= s@);
        assert(Seq::<char>::empty() + replace_all(s@, pat@, to@) =~= replace_all(s@, pat@, to@));
    }
    let mut i: usize = 0;
    while i < n
        invariant
            i <= n,
            n == s@.len(),
            m == pat@.len(),
            m > 0,
            replace_all(s@, pat@, to@) == out@ + replace_all(s@.skip(i as int), pat@, to@),
        decreases n - i,
    {
        let ghost rest = s@.skip(i as int);
        if m <= n - i && match_at_exec(s, pat, i) {
            let ghost old_out = out@;
            let mut j: usize = 0;
            while j < to.len()
                invariant
                    j <= to@.len(),
                    out@ == old_out + to@.take(j as int),
                decreases to@.len() - j,
            {
                out.push(to[j]);
                proof {
                    assert(out@ =~= old_out + to@.take(j + 1));
                }
                j = j + 1;
            }
            proof {
                assert(rest.subrange(0, m as int) =~= s@.subrange(i as int, i + m));
                assert(rest.skip(m as int) =~= s@.skip(i + m));
                assert(replace_all(rest, pat@, to@) == to@ + replace_all(s@.skip(i + m), pat@, to@));
                assert(old_out + to@.take(to@.len() as int) =~= old_out + to@);
            }
            i = i + m;
        } else {
            let ghost old_out = out@;
            out.push(s[i]);
            proof {
                if i + m <= n as int {
                    assert(rest.subrange(0, m as int) =~= s@.subrange(i as int, i + m));
                    assert(rest.subrange(0, m as int) != pat@);
                    assert(rest.skip(1) =~= s@.skip(i + 1));
                    assert(replace_all(rest, pat@, to@) == seq![rest[0]] + replace_all(
                        s@.skip(i + 1),
                        pat@,
                        to@,
                    ));
                } else {
                    assert(rest.len() < m);
                    assert(replace_all(rest, pat@, to@) == rest);
                    assert(s@.skip(i + 1).len() < m);
                    assert(replace_all(s@.skip(i + 1), pat@, to@) == s@.skip(i + 1));
                    assert(rest =~= seq![rest[0]] + s@.skip(i + 1));
                }
                assert(old_out.push(s@[i as int]) + replace_all(s@.skip(i + 1), pat@, to@)
                    =~= old_out + replace_all(rest, pat@, to@));
            }
            i = i + 1;
        }
    }
    proof {
        assert(s@.skip(n as int) =~= Seq::<char>::empty());
        assert(replace_all(Seq::<char>::empty(), pat@, to@) == Seq::<char>::empty());
        assert(out@ + Seq::<char>::empty() =~= out@);
    }
    out
}

} // verus!
