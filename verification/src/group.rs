//! Grouping by normalized identity: every record is folded into the
//! group of its identity key, keys are kept in ascending lexicographic
//! order, and each group lists its records in input order.

use vstd::prelude::*;
use crate::collect::FileInfo;

verus! {

/// A normalized identity together with the records, one per period
/// scanned, that share it.
pub struct IdentityGroup {
    pub identity: String,
    pub records: Vec<FileInfo>,
}

/// Strict lexicographic order on character sequences, by code point.
pub open spec fn lex_lt(a: Seq<char>, b: Seq<char>) -> bool
    decreases a.len() + b.len(),
{
    if b.len() == 0 {
        false
    } else if a.len() == 0 {
        true
    } else if (a[0] as u32) < (b[0] as u32) {
        true
    } else if a[0] == b[0] {
        lex_lt(a.skip(1), b.skip(1))
    } else {
        false
    }
}

/// The order is irreflexive.
pub proof fn lemma_lex_irrefl(a: Seq<char>)
    ensures
        !lex_lt(a, a),
    decreases a.len(),
{
    if a.len() > 0 {
        lemma_lex_irrefl(a.skip(1));
    }
}

/// The order is transitive.
pub proof fn lemma_lex_trans(a: Seq<char>, b: Seq<char>, c: Seq<char>)
    requires
        lex_lt(a, b),
        lex_lt(b, c),
    ensures
        lex_lt(a, c),
    decreases a.len() + b.len() + c.len(),
{
    if c.len() == 0 || b.len() == 0 || a.len() == 0 {
    } else if a[0] == b[0] && b[0] == c[0] {
        lemma_lex_trans(a.skip(1), b.skip(1), c.skip(1));
    }
}

/// Two sequences neither of which precedes the other are equal.
pub proof fn lemma_lex_connex(a: Seq<char>, b: Seq<char>)
    requires
        !lex_lt(a, b),
        !lex_lt(b, a),
    ensures
        a == b,
    decreases a.len() + b.len(),
{
    if a.len() == 0 && b.len() == 0 {
        assert(a =~= b);
    } else if a.len() > 0 && b.len() > 0 {
        assert(a[0] as u32 == b[0] as u32);
        vstd::utf8::char_u32_cast(a[0], a[0] as u32);
        vstd::utf8::char_u32_cast(b[0], b[0] as u32);
        assert(a[0] == b[0]);
        lemma_lex_connex(a.skip(1), b.skip(1));
        assert(a =~= seq![a[0]] + a.skip(1));
        assert(b =~= seq![b[0]] + b.skip(1));
    }
}

/// Totality: of two distinct keys, one precedes the other.
pub proof fn lemma_lex_total(a: Seq<char>, b: Seq<char>)
    requires
        a != b,
        !lex_lt(a, b),
    ensures
        lex_lt(b, a),
{
    if !lex_lt(b, a) {
        lemma_lex_connex(a, b);
    }
}

/// Group keys are in strictly ascending lexicographic order.
pub open spec fn group_keys_sorted(gs: Seq<IdentityGroup>) -> bool {
    forall|i: int, j: int|
        0 <= i < j < gs.len() ==> lex_lt(#[trigger] gs[i].identity@, #[trigger] gs[j].identity@)
}

/// The records of `rs` whose normalized identity is `key`, in order.
pub open spec fn records_with(rs: Seq<FileInfo>, key: Seq<char>) -> Seq<FileInfo> {
    rs.filter(|r: FileInfo| r.normalized_rel_path@ == key)
}

/// A key no record carries selects no records.
proof fn lemma_records_with_absent(s: Seq<FileInfo>, key: Seq<char>)
    requires
        forall|i: int| 0 <= i < s.len() ==> (#[trigger] s[i]).normalized_rel_path@ != key,
    ensures
        records_with(s, key) == Seq::<FileInfo>::empty(),
    decreases s.len(),
{
    reveal(Seq::filter);
    if s.len() > 0 {
        assert forall|i: int|
            0 <= i < s.len() - 1 implies (#[trigger] s.drop_last()[i]).normalized_rel_path@
            != key by {
            assert(s.drop_last()[i] == s[i]);
        }
        lemma_records_with_absent(s.drop_last(), key);
        assert(s.last().normalized_rel_path@ != key);
    }
}

/// Some group carries `key`.
pub open spec fn has_group(gs: Seq<IdentityGroup>, key: Seq<char>) -> bool {
    exists|j: int| 0 <= j < gs.len() && (#[trigger] gs[j].identity@) == key
}

/// Processing one more record extends exactly its key's group.
proof fn lemma_records_with_step(s: Seq<FileInfo>, i: int, key: Seq<char>)
    requires
        0 <= i < s.len(),
    ensures
        s[i].normalized_rel_path@ == key ==> records_with(s.take(i + 1), key) == records_with(
            s.take(i),
            key,
        ).push(s[i]),
        s[i].normalized_rel_path@ != key ==> records_with(s.take(i + 1), key) == records_with(
            s.take(i),
            key,
        ),
{
    reveal(Seq::filter);
    assert(s.take(i + 1).drop_last() =~= s.take(i));
    assert(s.take(i + 1).last() == s[i]);
}

/// The grouping invariant over processed records: keys sorted, each
/// group exactly its key's records so far, every processed key present.
pub open spec fn groups_model(gs: Seq<IdentityGroup>, all: Seq<FileInfo>, i: int) -> bool {
    &&& group_keys_sorted(gs)
    &&& forall|x: int|
        0 <= x < gs.len() ==> (#[trigger] gs[x].records@) == records_with(
            all.take(i),
            gs[x].identity@,
        ) && gs[x].records@.len() > 0
    &&& forall|k: int|
        0 <= k < i ==> has_group(gs, (#[trigger] all[k]).normalized_rel_path@)
}

/// Pushing a record onto its existing group preserves the model.
proof fn lemma_group_push_existing(
    old_gs: Seq<IdentityGroup>,
    new_gs: Seq<IdentityGroup>,
    all: Seq<FileInfo>,
    i: int,
    j: int,
    gv: IdentityGroup,
)
    requires
        0 <= i < all.len(),
        0 <= j < old_gs.len(),
        groups_model(old_gs, all, i),
        old_gs[j].identity@ == all[i].normalized_rel_path@,
        gv.identity == old_gs[j].identity,
        gv.records@ == old_gs[j].records@.push(all[i]),
        new_gs == old_gs.remove(j).insert(j, gv),
    ensures
        groups_model(new_gs, all, i + 1),
{
    let key_new = all[i].normalized_rel_path@;
    old_gs.remove_ensures(j);
    old_gs.remove(j).insert_ensures(j, gv);
    assert(new_gs.len() == old_gs.len());
    assert forall|x: int| 0 <= x < new_gs.len() implies #[trigger] new_gs[x].identity@
        == old_gs[x].identity@ && (x != j ==> new_gs[x] == old_gs[x]) by {
        if x < j {
            assert(new_gs[x] == old_gs[x]);
        } else if x == j {
            assert(new_gs[x] == gv);
        } else {
            assert(new_gs[x] == old_gs.remove(j)[x - 1]);
            assert(old_gs.remove(j)[x - 1] == old_gs[x]);
        }
    }
    assert forall|x: int| 0 <= x < new_gs.len() implies (#[trigger] new_gs[x].records@)
        == records_with(all.take(i + 1), new_gs[x].identity@) && new_gs[x].records@.len() > 0 by {
        lemma_records_with_step(all, i, new_gs[x].identity@);
        if x == j {
            assert(new_gs[x].records@ == old_gs[j].records@.push(all[i]));
        } else {
            // keys are unique under strict sorting, so this record does
            // not carry the key of another group
            if new_gs[x].identity@ == key_new {
                if x < j {
                    assert(lex_lt(old_gs[x].identity@, old_gs[j].identity@));
                } else {
                    assert(lex_lt(old_gs[j].identity@, old_gs[x].identity@));
                }
                lemma_lex_irrefl(key_new);
            }
        }
    }
    assert forall|k: int| 0 <= k < i + 1 implies has_group(
        new_gs,
        (#[trigger] all[k]).normalized_rel_path@,
    ) by {
        if k == i {
            assert(new_gs[j].identity@ == key_new);
        } else {
            let jj = choose|jj: int|
                0 <= jj < old_gs.len() && (#[trigger] old_gs[jj].identity@)
                    == all[k].normalized_rel_path@;
            assert(new_gs[jj].identity@ == all[k].normalized_rel_path@);
        }
    }
}

/// Inserting a fresh group for an unseen key preserves the model.
proof fn lemma_group_insert_new(
    old_gs: Seq<IdentityGroup>,
    new_gs: Seq<IdentityGroup>,
    all: Seq<FileInfo>,
    i: int,
    j: int,
    gv: IdentityGroup,
)
    requires
        0 <= i < all.len(),
        0 <= j <= old_gs.len(),
        groups_model(old_gs, all, i),
        forall|x: int|
            0 <= x < old_gs.len() ==> (#[trigger] old_gs[x].identity@)
                != all[i].normalized_rel_path@,
        forall|k: int|
            0 <= k < j ==> lex_lt(#[trigger] old_gs[k].identity@, all[i].normalized_rel_path@),
        j < old_gs.len() ==> !lex_lt(old_gs[j].identity@, all[i].normalized_rel_path@),
        gv.identity@ == all[i].normalized_rel_path@,
        gv.records@ == seq![all[i]],
        new_gs == old_gs.insert(j, gv),
    ensures
        groups_model(new_gs, all, i + 1),
{
    let key_new = all[i].normalized_rel_path@;
    old_gs.insert_ensures(j, gv);
    assert forall|a: int, b: int| 0 <= a < b < new_gs.len() implies lex_lt(
        #[trigger] new_gs[a].identity@,
        #[trigger] new_gs[b].identity@,
    ) by {
        if a == j {
            assert(new_gs[a] == gv);
            assert(new_gs[b] == old_gs[b - 1]);
            assert(old_gs[b - 1].identity@ != key_new);
            if b - 1 == j {
                lemma_lex_total(old_gs[b - 1].identity@, key_new);
            } else {
                lemma_lex_total(old_gs[j].identity@, key_new);
                assert(lex_lt(old_gs[j].identity@, old_gs[b - 1].identity@));
                lemma_lex_trans(key_new, old_gs[j].identity@, old_gs[b - 1].identity@);
            }
        } else if b == j {
            assert(new_gs[a] == old_gs[a]);
            assert(new_gs[b] == gv);
            assert(lex_lt(old_gs[a].identity@, key_new));
        } else if a < j && b > j {
            assert(new_gs[a] == old_gs[a]);
            assert(new_gs[b] == old_gs[b - 1]);
        } else if b < j {
            assert(new_gs[a] == old_gs[a] && new_gs[b] == old_gs[b]);
        } else {
            assert(new_gs[a] == old_gs[a - 1] && new_gs[b] == old_gs[b - 1]);
        }
    }
    assert forall|x: int| 0 <= x < new_gs.len() implies (#[trigger] new_gs[x].records@)
        == records_with(all.take(i + 1), new_gs[x].identity@) && new_gs[x].records@.len() > 0 by {
        lemma_records_with_step(all, i, new_gs[x].identity@);
        if x == j {
            assert forall|kk: int| 0 <= kk < all.take(i).len() implies !((#[trigger] all.take(
                i,
            )[kk]).normalized_rel_path@ == key_new) by {
                assert(all.take(i)[kk] == all[kk]);
                if all[kk].normalized_rel_path@ == key_new {
                    let jj = choose|jj: int|
                        0 <= jj < old_gs.len() && (#[trigger] old_gs[jj].identity@)
                            == all[kk].normalized_rel_path@;
                }
            }
            lemma_records_with_absent(all.take(i), key_new);
            assert(new_gs[x].records@ =~= records_with(all.take(i), key_new).push(all[i]));
        } else {
            let x0: int = if x < j {
                x
            } else {
                x - 1
            };
            assert(new_gs[x] == old_gs[x0]);
            assert(new_gs[x].identity@ != key_new);
        }
    }
    assert forall|k: int| 0 <= k < i + 1 implies has_group(
        new_gs,
        (#[trigger] all[k]).normalized_rel_path@,
    ) by {
        if k == i {
            assert(new_gs[j].identity@ == key_new);
        } else {
            let jj = choose|jj: int|
                0 <= jj < old_gs.len() && (#[trigger] old_gs[jj].identity@)
                    == all[k].normalized_rel_path@;
            if jj < j {
                assert(new_gs[jj].identity@ == all[k].normalized_rel_path@);
            } else {
                assert(new_gs[jj + 1].identity@ == all[k].normalized_rel_path@);
            }
        }
    }
}

/// Every record selected by a key carries that key.
proof fn lemma_records_with_pred(s: Seq<FileInfo>, key: Seq<char>, x: int)
    requires
        0 <= x < records_with(s, key).len(),
    ensures
        records_with(s, key)[x].normalized_rel_path@ == key,
    decreases s.len(),
{
    reveal(Seq::filter);
    if s.len() > 0 {
        let sub = records_with(s.drop_last(), key);
        if s.last().normalized_rel_path@ == key && x == sub.len() {
        } else {
            lemma_records_with_pred(s.drop_last(), key, x);
        }
    }
}

/// A record carrying the key is among those the key selects.
proof fn lemma_records_with_contains(s: Seq<FileInfo>, key: Seq<char>, i: int)
    requires
        0 <= i < s.len(),
        s[i].normalized_rel_path@ == key,
    ensures
        records_with(s, key).contains(s[i]),
    decreases s.len(),
{
    reveal(Seq::filter);
    if i == s.len() - 1 {
        let sub = records_with(s.drop_last(), key);
        assert(records_with(s, key) == sub.push(s.last()));
        assert(records_with(s, key)[sub.len() as int] == s[i]);
    } else {
        assert(s.drop_last()[i] == s[i]);
        lemma_records_with_contains(s.drop_last(), key, i);
        let x = choose|x: int|
            0 <= x < records_with(s.drop_last(), key).len() && records_with(s.drop_last(), key)[x]
                == s[i];
        if s.last().normalized_rel_path@ == key {
            assert(records_with(s, key)[x] == s[i]);
        } else {
            assert(records_with(s, key)[x] == s[i]);
        }
    }
}

/// Grouping merges: records that share a normalized identity all land in
/// the one group keyed by it, and in no other.  The premises are what
/// `group_records` ensures of its result.
pub proof fn lemma_grouping_merges(
    gs: Seq<IdentityGroup>,
    records: Seq<FileInfo>,
    i1: int,
    i2: int,
    j: int,
)
    requires
        group_keys_sorted(gs),
        forall|x: int|
            0 <= x < gs.len() ==> (#[trigger] gs[x].records@) == records_with(
                records,
                gs[x].identity@,
            ),
        0 <= i1 < records.len(),
        0 <= i2 < records.len(),
        records[i1].normalized_rel_path@ == records[i2].normalized_rel_path@,
        0 <= j < gs.len(),
        gs[j].identity@ == records[i1].normalized_rel_path@,
    ensures
        gs[j].records@.contains(records[i1]),
        gs[j].records@.contains(records[i2]),
        forall|j2: int|
            0 <= j2 < gs.len() && j2 != j ==> !(#[trigger] gs[j2].records@).contains(records[i1]),
{
    let key = records[i1].normalized_rel_path@;
    lemma_records_with_contains(records, key, i1);
    lemma_records_with_contains(records, key, i2);
    assert forall|j2: int| 0 <= j2 < gs.len() && j2 != j implies !(
    #[trigger] gs[j2].records@).contains(records[i1]) by {
        if gs[j2].records@.contains(records[i1]) {
            let x = choose|x: int|
                0 <= x < gs[j2].records@.len() && gs[j2].records@[x] == records[i1];
            lemma_records_with_pred(records, gs[j2].identity@, x);
            // two groups would then carry the same key, which strict
            // sorting rules out
            if j2 < j {
                assert(lex_lt(gs[j2].identity@, gs[j].identity@));
            } else {
                assert(lex_lt(gs[j].identity@, gs[j2].identity@));
            }
            lemma_lex_irrefl(key);
        }
    }
}

/// Compares two character vectors lexicographically.
fn lex_lt_exec(a: &Vec<char>, b: &Vec<char>) -> (r: bool)
    ensures
        r == lex_lt(a@, b@),
{
    let an = a.len();
    let bn = b.len();
    let mut i: usize = 0;
    proof {
        assert(a@.skip(0) =~= a@);
        assert(b@.skip(0) =~= b@);
    }
    while i < an && i < bn
        invariant
            i <= an,
            i <= bn,
            an == a@.len(),
            bn == b@.len(),
            lex_lt(a@, b@) == lex_lt(a@.skip(i as int), b@.skip(i as int)),
        decreases an - i,
    {
        let x = a[i];
        let y = b[i];
        proof {
            assert(a@.skip(i as int)[0] == a@[i as int]);
            assert(b@.skip(i as int)[0] == b@[i as int]);
            assert(a@.skip(i as int).skip(1) =~= a@.skip(i + 1));
            assert(b@.skip(i as int).skip(1) =~= b@.skip(i + 1));
        }
        if (x as u32) < (y as u32) {
            return true;
        }
        if x != y {
            return false;
        }
        i = i + 1;
    }
    proof {
        if i < bn {
            assert(b@.skip(i as int).len() > 0);
            assert(a@.skip(i as int).len() == 0);
        }
    }
    i < bn && an <= bn
}

/// The index of the group carrying `key`, if any.
fn find_group(out: &Vec<IdentityGroup>, key: &String) -> (res: Option<usize>)
    ensures
        match res {
            Some(j) => j < out@.len() && out@[j as int].identity@ == key@,
            None => forall|j: int| 0 <= j < out@.len() ==> (#[trigger] out@[j].identity@) != key@,
        },
{
    let n = out.len();
    let mut j: usize = 0;
    while j < n
        invariant
            j <= n,
            n == out@.len(),
            forall|k: int| 0 <= k < j ==> (#[trigger] out@[k].identity@) != key@,
        decreases n - j,
    {
        if out[j].identity.eq(key) {
            return Some(j);
        }
        j = j + 1;
    }
    None
}

/// The position where a group for `key` belongs among the sorted groups.
fn group_insert_pos(out: &Vec<IdentityGroup>, key: &Vec<char>) -> (j: usize)
    ensures
        j <= out@.len(),
        forall|k: int| 0 <= k < j ==> lex_lt(#[trigger] out@[k].identity@, key@),
        j < out@.len() ==> !lex_lt(out@[j as int].identity@, key@),
{
    let n = out.len();
    let mut j: usize = 0;
    while j < n
        invariant
            j <= n,
            n == out@.len(),
            forall|k: int| 0 <= k < j ==> lex_lt(#[trigger] out@[k].identity@, key@),
        decreases n - j,
    {
        let idv = crate::chars::chars_of(out[j].identity.as_str());
        if !lex_lt_exec(&idv, key) {
            return j;
        }
        j = j + 1;
    }
    n
}

/// Folds records into groups keyed by normalized identity.  Keys come
/// out sorted ascending; each group holds exactly the input records that
/// carry its key, in input order; every input record's key appears.
pub fn group_records(records: Vec<FileInfo>) -> (r: Vec<IdentityGroup>)
    ensures
        group_keys_sorted(r@),
        forall|j: int|
            0 <= j < r@.len() ==> (#[trigger] r@[j].records@) == records_with(
                records@,
                r@[j].identity@,
            ) && r@[j].records@.len() > 0,
        forall|i: int|
            0 <= i < records@.len() ==> has_group(
                r@,
                (#[trigger] records@[i]).normalized_rel_path@,
            ),
{
    let ghost all = records@;
    let mut rest = records;
    let n = rest.len();
    let mut out: Vec<IdentityGroup> = Vec::new();
    proof {
        assert(all.skip(0) =~= all);
        assert(all.take(0) =~= Seq::<FileInfo>::empty());
    }
    let mut i: usize = 0;
    while i < n
        invariant
            i <= n,
            n == all.len(),
            rest@ == all.skip(i as int),
            groups_model(out@, all, i as int),
        decreases n - i,
    {
        let rec = rest.remove(0);
        proof {
            assert(all.skip(i as int)[0] == all[i as int]);
            assert(all.skip(i as int).remove(0) =~= all.skip(i + 1));
        }
        let ghost old_out = out@;
        match find_group(&out, &rec.normalized_rel_path) {
            Some(j) => {
                let mut g = out.remove(j);
                g.records.push(rec);
                let ghost gv = g;
                out.insert(j, g);
                proof {
                    lemma_group_push_existing(old_out, out@, all, i as int, j as int, gv);
                }
            },
            None => {
                let keyv = crate::chars::chars_of(rec.normalized_rel_path.as_str());
                let j = group_insert_pos(&out, &keyv);
                let identity = rec.normalized_rel_path.clone();
                let mut records_new: Vec<FileInfo> = Vec::new();
                records_new.push(rec);
                let g = IdentityGroup { identity, records: records_new };
                let ghost gv = g;
                out.insert(j, g);
                proof {
                    assert(gv.records@ =~= seq![all[i as int]]);
                    lemma_group_insert_new(old_out, out@, all, i as int, j as int, gv);
                }
            },
        }
        i = i + 1;
    }
    proof {
        assert(all.take(n as int) =~= all);
    }
    out
}

} // verus!
