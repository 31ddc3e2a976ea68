//! The loaded tree: languages and their namespaces, and the canonical
//! ordering of a namespace's key/value pairs.

use vstd::prelude::*;

use crate::model::{distinct_keys, key_set, pair_key_set, pair_set, pair_views, sorted_by_key};
use crate::order::{lex_lt, lemma_lex_connected, lemma_lex_transitive, str_lt};

verus! {

/// One namespace file of one language: a name and a flat mapping from
/// translation key to translated string, kept with its keys in ascending
/// order without duplicates.
pub struct NameSpace {
    pub name: String,
    pub data: Vec<(String, String)>,
}

impl NameSpace {
    /// The data keys are strictly ascending, hence distinct.
    pub open spec fn wf(self) -> bool {
        sorted_by_key(pair_views(self.data@))
    }

    /// The set of keys the namespace holds.
    pub open spec fn key_set(self) -> Set<Seq<char>> {
        pair_key_set(pair_views(self.data@))
    }

    /// Whether the namespace holds the key.
    pub fn contains_key(&self, k: &String) -> (r: bool)
        ensures
            r == self.key_set().contains(k@),
    {
        let mut j: usize = 0;
        while j < self.data.len()
            invariant
                0 <= j <= self.data@.len(),
                forall|i: int| 0 <= i < j ==> pair_views(self.data@)[i].0 != k@,
            decreases self.data@.len() - j,
        {
            if self.data[j].0 == *k {
                assert(pair_views(self.data@)[j as int].0 == k@);
                return true;
            }
            j = j + 1;
        }
        false
    }
}

/// One language: a name and the namespaces parsed from its directory.
pub struct Language {
    pub name: String,
    pub files: Vec<NameSpace>,
}

impl Language {
    /// Every namespace is well formed.
    pub open spec fn wf(self) -> bool {
        forall|i: int| 0 <= i < self.files@.len() ==> (#[trigger] self.files@[i]).wf()
    }

    /// The position of the first namespace with the given name, if any.
    pub fn find_namespace(&self, name: &String) -> (r: Option<usize>)
        ensures
            match r {
                Some(i) => i < self.files@.len() && self.files@[i as int].name@ == name@
                    && forall|j: int| 0 <= j < i ==> self.files@[j].name@ != name@,
                None => forall|j: int| 0 <= j < self.files@.len() ==> self.files@[j].name@ != name@,
            },
    {
        let mut j: usize = 0;
        while j < self.files.len()
            invariant
                0 <= j <= self.files@.len(),
                forall|i: int| 0 <= i < j ==> self.files@[i].name@ != name@,
            decreases self.files@.len() - j,
        {
            if self.files[j].name == *name {
                return Some(j);
            }
            j = j + 1;
        }
        None
    }
}

/// The key set of a prefix of a pair list grows by one key at each step.
proof fn lemma_pair_sets_take_step(ps: Seq<(Seq<char>, Seq<char>)>, i: int)
    requires
        0 <= i < ps.len(),
    ensures
        pair_key_set(ps.take(i + 1)) == pair_key_set(ps.take(i)).insert(ps[i].0),
        pair_set(ps.take(i + 1)) == pair_set(ps.take(i)).insert(ps[i]),
{
    let a = ps.take(i);
    let b = ps.take(i + 1);
    assert forall|m: Seq<char>| pair_key_set(b).contains(m) implies pair_key_set(a).insert(
        ps[i].0,
    ).contains(m) by {
        let w = choose|w: int| 0 <= w < b.len() && b[w].0 == m;
        if w < i {
            assert(a[w].0 == m);
        }
    }
    assert forall|m: Seq<char>| pair_key_set(a).insert(ps[i].0).contains(m) implies pair_key_set(
        b,
    ).contains(m) by {
        if m == ps[i].0 {
            assert(b[i].0 == m);
        } else {
            let w = choose|w: int| 0 <= w < a.len() && a[w].0 == m;
            assert(b[w].0 == m);
        }
    }
    assert(pair_key_set(b) =~= pair_key_set(a).insert(ps[i].0));
    assert forall|p: (Seq<char>, Seq<char>)| pair_set(b).contains(p) implies pair_set(a).insert(
        ps[i],
    ).contains(p) by {
        let w = choose|w: int| 0 <= w < b.len() && b[w] == p;
        if w < i {
            assert(a[w] == p);
        }
    }
    assert forall|p: (Seq<char>, Seq<char>)| pair_set(a).insert(ps[i]).contains(p) implies pair_set(
        b,
    ).contains(p) by {
        if p == ps[i] {
            assert(b[i] == p);
        } else {
            let w = choose|w: int| 0 <= w < a.len() && a[w] == p;
            assert(b[w] == p);
        }
    }
    assert(pair_set(b) =~= pair_set(a).insert(ps[i]));
}

/// Inserts a pair whose key is fresh into a pair list whose keys are
/// ascending, keeping them so.
fn insert_pair(data: &mut Vec<(String, String)>, p: (String, String))
    requires
        sorted_by_key(pair_views(old(data)@)),
        !pair_key_set(pair_views(old(data)@)).contains(p.0@),
    ensures
        sorted_by_key(pair_views(final(data)@)),
        pair_set(pair_views(final(data)@)) == pair_set(pair_views(old(data)@)).insert(
            (p.0@, p.1@),
        ),
        pair_key_set(pair_views(final(data)@)) == pair_key_set(pair_views(old(data)@)).insert(
            p.0@,
        ),
{
    let ghost pre_list = old(data)@;
    let ghost pre = pair_views(old(data)@);
    proof {
        assert(pre.len() == pre_list.len());
    }
    let mut pos: usize = 0;
    loop
        invariant
            data@ == pre_list,
            pre == pair_views(pre_list),
            pre.len() == pre_list.len(),
            sorted_by_key(pre),
            !pair_key_set(pre).contains(p.0@),
            0 <= pos <= pre.len(),
            forall|j: int| 0 <= j < pos ==> lex_lt(pre[j].0, p.0@),
        ensures
            data@ == pre_list,
            0 <= pos <= pre.len(),
            forall|j: int| 0 <= j < pos ==> lex_lt(pre[j].0, p.0@),
            pos < pre.len() ==> lex_lt(p.0@, pre[pos as int].0),
        decreases pre.len() - pos,
    {
        if pos == data.len() {
            break;
        }
        assert(pre[pos as int].0 == data@[pos as int].0@);
        if !str_lt(data[pos].0.as_str(), p.0.as_str()) {
            proof {
                if !lex_lt(p.0@, pre[pos as int].0) {
                    lemma_lex_connected(pre[pos as int].0, p.0@);
                    assert(pair_key_set(pre).contains(p.0@));
                }
            }
            break;
        }
        pos = pos + 1;
    }
    data.insert(pos, p);
    proof {
        let n = pair_views(data@);
        assert(data@ == old(data)@.insert(pos as int, p));
        assert(n.len() == pre.len() + 1);
        assert(n[pos as int] == (p.0@, p.1@));
        assert(forall|i: int| 0 <= i < pos ==> n[i] == pre[i]);
        assert(forall|i: int| pos < i < n.len() ==> n[i] == pre[i - 1]);
        assert forall|i: int, j: int| 0 <= i < j < n.len() implies lex_lt(n[i].0, n[j].0) by {
            if j < pos {
            } else if i < pos && j == pos {
                assert(lex_lt(pre[i].0, p.0@));
            } else if i < pos && j > pos {
                assert(lex_lt(pre[i].0, pre[j - 1].0));
            } else if i == pos && j > pos {
                if j - 1 > pos {
                    lemma_lex_transitive(p.0@, pre[pos as int].0, pre[j - 1].0);
                }
            } else {
                assert(lex_lt(pre[i - 1].0, pre[j - 1].0));
            }
        }
        assert forall|q: (Seq<char>, Seq<char>)| pair_set(n).contains(q) implies pair_set(
            pre,
        ).insert((p.0@, p.1@)).contains(q) by {
            let w = choose|w: int| 0 <= w < n.len() && n[w] == q;
            if w < pos {
                assert(pre[w] == q);
            } else if w > pos {
                assert(pre[w - 1] == q);
            }
        }
        assert forall|q: (Seq<char>, Seq<char>)| pair_set(pre).insert((p.0@, p.1@)).contains(
            q,
        ) implies pair_set(n).contains(q) by {
            if q == (p.0@, p.1@) {
                assert(n[pos as int] == q);
            } else {
                let w = choose|w: int| 0 <= w < pre.len() && pre[w] == q;
                if w < pos {
                    assert(n[w] == q);
                } else {
                    assert(n[w + 1] == q);
                }
            }
        }
        assert(pair_set(n) =~= pair_set(pre).insert((p.0@, p.1@)));
        assert forall|m: Seq<char>| pair_key_set(n).contains(m) implies pair_key_set(pre).insert(
            p.0@,
        ).contains(m) by {
            let w = choose|w: int| 0 <= w < n.len() && n[w].0 == m;
            if w < pos {
                assert(pre[w].0 == m);
            } else if w > pos {
                assert(pre[w - 1].0 == m);
            }
        }
        assert forall|m: Seq<char>| pair_key_set(pre).insert(p.0@).contains(m) implies pair_key_set(
            n,
        ).contains(m) by {
            if m == p.0@ {
                assert(n[pos as int].0 == m);
            } else {
                let w = choose|w: int| 0 <= w < pre.len() && pre[w].0 == m;
                if w < pos {
                    assert(n[w].0 == m);
                } else {
                    assert(n[w + 1].0 == m);
                }
            }
        }
        assert(pair_key_set(n) =~= pair_key_set(pre).insert(p.0@));
    }
}

/// Reorders a pair list with distinct keys into ascending key order. The set
/// of key/value pairs — the mapping itself — is unchanged.
pub fn sort_pairs(data: &Vec<(String, String)>) -> (r: Vec<(String, String)>)
    requires
        distinct_keys(pair_views(data@)),
    ensures
        sorted_by_key(pair_views(r@)),
        pair_set(pair_views(r@)) == pair_set(pair_views(data@)),
        pair_key_set(pair_views(r@)) == pair_key_set(pair_views(data@)),
{
    let ghost whole = pair_views(data@);
    let mut r: Vec<(String, String)> = Vec::new();
    let mut i: usize = 0;
    while i < data.len()
        invariant
            0 <= i <= whole.len(),
            whole == pair_views(data@),
            distinct_keys(whole),
            sorted_by_key(pair_views(r@)),
            pair_set(pair_views(r@)) == pair_set(whole.take(i as int)),
            pair_key_set(pair_views(r@)) == pair_key_set(whole.take(i as int)),
        decreases whole.len() - i,
    {
        let p = (data[i].0.clone(), data[i].1.clone());
        proof {
            assert((p.0@, p.1@) == whole[i as int]);
            if pair_key_set(whole.take(i as int)).contains(p.0@) {
                let w = choose|w: int|
                    0 <= w < whole.take(i as int).len() && whole.take(i as int)[w].0 == p.0@;
                assert(whole[w].0 == whole[i as int].0);
            }
            lemma_pair_sets_take_step(whole, i as int);
        }
        insert_pair(&mut r, p);
        i = i + 1;
    }
    proof {
        assert(whole.take(whole.len() as int) =~= whole);
    }
    r
}

/// The keys of a pair list, in order.
pub fn keys_of_pairs(data: &Vec<(String, String)>) -> (r: Vec<String>)
    ensures
        r@.len() == data@.len(),
        forall|i: int| 0 <= i < r@.len() ==> r@[i]@ == data@[i].0@,
        key_set(r@) == pair_key_set(pair_views(data@)),
{
    let mut r: Vec<String> = Vec::new();
    let mut i: usize = 0;
    while i < data.len()
        invariant
            0 <= i <= data@.len(),
            r@.len() == i,
            forall|j: int| 0 <= j < i ==> r@[j]@ == data@[j].0@,
        decreases data@.len() - i,
    {
        r.push(data[i].0.clone());
        i = i + 1;
    }
    proof {
        let ps = pair_views(data@);
        assert forall|m: Seq<char>| key_set(r@).contains(m) implies pair_key_set(ps).contains(
            m,
        ) by {
            let w = choose|w: int| 0 <= w < r@.len() && r@[w]@ == m;
            assert(ps[w].0 == m);
        }
        assert forall|m: Seq<char>| pair_key_set(ps).contains(m) implies key_set(r@).contains(
            m,
        ) by {
            let w = choose|w: int| 0 <= w < ps.len() && ps[w].0 == m;
            assert(r@[w]@ == m);
        }
        assert(key_set(r@) =~= pair_key_set(ps));
    }
    r
}

} // verus!
