//! General laws of the key union accumulator, stated over its mathematical
//! model: the map from namespace name to accumulated key set that
//! `Stack::key_map` yields and that `Stack::merge_keys` advances one
//! `spec_merge` step at a time.

use vstd::prelude::*;

use crate::model::spec_merge;

verus! {

/// A whole load pass, seen abstractly: the (namespace name, key set)
/// contributions of the successfully parsed files, folded into the model map
/// from the left, in the order the files were visited.
pub open spec fn merge_seq(
    m: Map<Seq<char>, Set<Seq<char>>>,
    entries: Seq<(Seq<char>, Set<Seq<char>>)>,
) -> Map<Seq<char>, Set<Seq<char>>>
    decreases entries.len(),
{
    if entries.len() == 0 {
        m
    } else {
        merge_seq(spec_merge(m, entries[0].0, entries[0].1), entries.skip(1))
    }
}

/// Some entry contributes key `k` under name `n`.
pub open spec fn contributes(
    entries: Seq<(Seq<char>, Set<Seq<char>>)>,
    n: Seq<char>,
    k: Seq<char>,
) -> bool {
    exists|i: int| 0 <= i < entries.len() && entries[i].0 == n && entries[i].1.contains(k)
}

/// Some entry carries name `n`.
pub open spec fn has_name(entries: Seq<(Seq<char>, Set<Seq<char>>)>, n: Seq<char>) -> bool {
    exists|i: int| 0 <= i < entries.len() && entries[i].0 == n
}

/// Union correctness: after a run of merges, a name is present exactly when
/// the starting map held it or some entry carried it, and its set holds a key
/// exactly when the starting map already held that key under the name or some
/// entry contributed it there. The key set is therefore the union of the
/// contributed sets, whatever the order of the entries.
pub proof fn lemma_merge_seq_union(
    m: Map<Seq<char>, Set<Seq<char>>>,
    entries: Seq<(Seq<char>, Set<Seq<char>>)>,
)
    ensures
        forall|n: Seq<char>|
            #[trigger] merge_seq(m, entries).dom().contains(n) <==> m.dom().contains(n)
                || has_name(entries, n),
        forall|n: Seq<char>, k: Seq<char>|
            merge_seq(m, entries).dom().contains(n) ==> (#[trigger] merge_seq(m, entries)[n]
                .contains(k) <==> (m.dom().contains(n) && m[n].contains(k)) || contributes(
                entries,
                n,
                k,
            )),
    decreases entries.len(),
{
    if entries.len() > 0 {
        let first = entries[0];
        let rest = entries.skip(1);
        let m1 = spec_merge(m, first.0, first.1);
        lemma_merge_seq_union(m1, rest);
        assert forall|n: Seq<char>| true implies (#[trigger] has_name(entries, n) == (first.0 == n
            || has_name(rest, n))) by {
            if has_name(entries, n) {
                let i = choose|i: int| 0 <= i < entries.len() && entries[i].0 == n;
                if i > 0 {
                    assert(rest[i - 1].0 == n);
                }
            }
            if has_name(rest, n) {
                let i = choose|i: int| 0 <= i < rest.len() && rest[i].0 == n;
                assert(entries[i + 1].0 == n);
            }
            if first.0 == n {
                assert(entries[0].0 == n);
            }
        }
        assert forall|n: Seq<char>, k: Seq<char>| true implies (#[trigger] contributes(
            entries,
            n,
            k,
        ) == ((first.0 == n && first.1.contains(k)) || contributes(rest, n, k))) by {
            if contributes(entries, n, k) {
                let i = choose|i: int|
                    0 <= i < entries.len() && entries[i].0 == n && entries[i].1.contains(k);
                if i > 0 {
                    assert(rest[i - 1].0 == n && rest[i - 1].1.contains(k));
                }
            }
            if contributes(rest, n, k) {
                let i = choose|i: int| 0 <= i < rest.len() && rest[i].0 == n && rest[i].1.contains(
                    k,
                );
                assert(entries[i + 1].0 == n && entries[i + 1].1.contains(k));
            }
            if first.0 == n && first.1.contains(k) {
                assert(entries[0].0 == n && entries[0].1.contains(k));
            }
        }
        assert(merge_seq(m, entries) == merge_seq(m1, rest));
        assert forall|n: Seq<char>, k: Seq<char>|
            merge_seq(m, entries).dom().contains(n) implies (#[trigger] merge_seq(m, entries)[n]
            .contains(k) <==> (m.dom().contains(n) && m[n].contains(k)) || contributes(
            entries,
            n,
            k,
        )) by {
            assert(merge_seq(m1, rest).dom().contains(n));
            assert(merge_seq(m1, rest)[n].contains(k) <==> (m1.dom().contains(n) && m1[n].contains(
                k,
            )) || contributes(rest, n, k));
            if n == first.0 {
                if m.dom().contains(n) {
                    assert(m1[n] == m[n].union(first.1));
                } else {
                    assert(m1[n] == first.1);
                }
            } else {
                if m.dom().contains(n) {
                    assert(m1[n] == m[n]);
                }
            }
        }
    }
}

/// Idempotence of merge: folding the same (name, keys) contribution in twice
/// leaves the map exactly as one merge leaves it.
pub proof fn lemma_merge_idempotent(
    m: Map<Seq<char>, Set<Seq<char>>>,
    n: Seq<char>,
    ks: Set<Seq<char>>,
)
    ensures
        spec_merge(spec_merge(m, n, ks), n, ks) == spec_merge(m, n, ks),
{
    let m1 = spec_merge(m, n, ks);
    assert(spec_merge(m1, n, ks) =~~= m1);
}

/// Merges commute: two contributions end in the same map in either order.
pub proof fn lemma_merge_commutative(
    m: Map<Seq<char>, Set<Seq<char>>>,
    n1: Seq<char>,
    ks1: Set<Seq<char>>,
    n2: Seq<char>,
    ks2: Set<Seq<char>>,
)
    ensures
        spec_merge(spec_merge(m, n1, ks1), n2, ks2) == spec_merge(spec_merge(m, n2, ks2), n1, ks1),
{
    assert(spec_merge(spec_merge(m, n1, ks1), n2, ks2) =~~= spec_merge(
        spec_merge(m, n2, ks2),
        n1,
        ks1,
    ));
}

/// Order independence: two load passes that carry the same names and
/// contribute the same keys under each name accumulate, from an empty map,
/// exactly the same map — in particular, any two permutations of one load
/// pass do.
pub proof fn lemma_merge_order_independent(
    e1: Seq<(Seq<char>, Set<Seq<char>>)>,
    e2: Seq<(Seq<char>, Set<Seq<char>>)>,
)
    requires
        forall|n: Seq<char>| #[trigger] has_name(e1, n) == has_name(e2, n),
        forall|n: Seq<char>, k: Seq<char>| #[trigger] contributes(e1, n, k) == contributes(
            e2,
            n,
            k,
        ),
    ensures
        merge_seq(Map::empty(), e1) == merge_seq(Map::empty(), e2),
{
    let m0 = Map::<Seq<char>, Set<Seq<char>>>::empty();
    lemma_merge_seq_union(m0, e1);
    lemma_merge_seq_union(m0, e2);
    assert(merge_seq(m0, e1) =~~= merge_seq(m0, e2));
}

/// No false positives across unrelated namespaces: a key contributed only
/// under one name is never accumulated under any other name.
pub proof fn lemma_no_cross_namespace(
    entries: Seq<(Seq<char>, Set<Seq<char>>)>,
    only: Seq<char>,
    other: Seq<char>,
    k: Seq<char>,
)
    requires
        forall|i: int|
            0 <= i < entries.len() && (#[trigger] entries[i]).1.contains(k) ==> entries[i].0
                == only,
        other != only,
    ensures
        merge_seq(Map::empty(), entries).dom().contains(other) ==> !merge_seq(
            Map::empty(),
            entries,
        )[other].contains(k),
{
    let m0 = Map::<Seq<char>, Set<Seq<char>>>::empty();
    lemma_merge_seq_union(m0, entries);
    if merge_seq(m0, entries).dom().contains(other) && merge_seq(m0, entries)[other].contains(k) {
        assert(contributes(entries, other, k));
        let i = choose|i: int|
            0 <= i < entries.len() && entries[i].0 == other && entries[i].1.contains(k);
        assert(entries[i].0 == only);
    }
}

} // verus!
