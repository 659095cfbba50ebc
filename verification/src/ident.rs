//! Display identifiers derived from normalized identities: ASCII
//! alphanumerics pass through, everything else becomes an underscore,
//! and an identifier that would start with a digit or a dash is given a
//! prefix so that it stays a valid document anchor.

use vstd::prelude::*;
use crate::chars::{chars_of, string_of_chars, push_seq, is_alnum, is_digit, alnum};
use crate::digits::{hex8, hex8_chars};

verus! {

/// What std's default hasher returns for a string: a 64-bit value that
/// depends on the characters alone.
pub uninterp spec fn hash64_of(s: Seq<char>) -> u64;

/// Relies on std's `DefaultHasher` together with `Hash for str` and
/// `Hasher::finish`: `DefaultHasher::new` is documented to build the
/// same internally-keyed hasher every time, so the finished value is a
/// function of the hashed characters alone, the same in every process
/// on a given standard library.
#[verifier::external_body]
fn hash_str(s: &str) -> (r: u64)
    ensures
        r == hash64_of(s@),
{
    let mut hasher = std::collections::hash_map::DefaultHasher::new();
    std::hash::Hash::hash(s, &mut hasher);
    std::hash::Hasher::finish(&hasher)
}

/// Each character kept if ASCII alphanumeric, replaced by `_` otherwise.
pub open spec fn sanitize_map(s: Seq<char>) -> Seq<char> {
    s.map_values(
        |c: char|
            if is_alnum(c) {
                c
            } else {
                '_'
            },
    )
}

/// The sanitized identifier: the mapped string, prefixed with `id_` when
/// it would otherwise start with a digit or a dash.
pub open spec fn sanitize_spec(s: Seq<char>) -> Seq<char> {
    let m = sanitize_map(s);
    if m.len() > 0 && (is_digit(m[0]) || m[0] == '-') {
        seq!['i', 'd', '_'] + m
    } else {
        m
    }
}

/// Sanitizes a string to an anchor-safe base: alphanumerics kept,
/// everything else an underscore, a guard prefix against a leading
/// digit.  This alone does not guarantee uniqueness.
pub fn sanitize_id_base(s: &str) -> (r: String)
    ensures
        r@ == sanitize_spec(s@),
{
    let v = chars_of(s);
    let n = v.len();
    let mut out: Vec<char> = Vec::new();
    let mut i: usize = 0;
    while i < n
        invariant
            i <= n,
            n == v@.len(),
            out@ == sanitize_map(v@.take(i as int)),
        decreases n - i,
    {
        let c = v[i];
        if alnum(c) {
            out.push(c);
        } else {
            out.push('_');
        }
        proof {
            assert(out@ =~= sanitize_map(v@.take(i + 1)));
        }
        i = i + 1;
    }
    proof {
        assert(v@.take(n as int) =~= v@);
    }
    let needs_guard = if out.len() > 0 {
        let c0 = out[0];
        ('0' <= c0 && c0 <= '9') || c0 == '-'
    } else {
        false
    };
    if needs_guard {
        let mut guarded: Vec<char> = Vec::new();
        guarded.push('i');
        guarded.push('d');
        guarded.push('_');
        let ghost head = guarded@;
        let mut k: usize = 0;
        while k < out.len()
            invariant
                k <= out@.len(),
                guarded@ == head + out@.take(k as int),
            decreases out@.len() - k,
        {
            guarded.push(out[k]);
            proof {
                assert(guarded@ =~= head + out@.take(k + 1));
            }
            k = k + 1;
        }
        proof {
            assert(out@.take(out@.len() as int) =~= out@);
            assert(guarded@ =~= sanitize_spec(s@));
        }
        string_of_chars(&guarded)
    } else {
        string_of_chars(&out)
    }
}

/// The display identifier of a normalized identity, as the exporters
/// anchor it: the sanitized base, suffixed with a stable hash of the
/// original string so that distinct identities keep distinct anchors.
pub fn sanitize_id(s: &str) -> (r: String)
    ensures
        r@ == sanitize_spec(s@) + seq!['_'] + hex8(hash64_of(s@) as nat),
{
    let base = sanitize_id_base(s);
    let hash = hash_str(s);
    let mut v = chars_of(base.as_str());
    v.push('_');
    let suffix = hex8_chars(hash);
    push_seq(&mut v, &suffix);
    proof {
        assert(v@ =~= sanitize_spec(s@) + seq!['_'] + hex8(hash64_of(s@) as nat));
    }
    string_of_chars(&v)
}

} // verus!
