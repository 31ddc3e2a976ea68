//! The key union accumulator: per namespace name, the union of the keys seen
//! across every language, kept deduplicated and sorted.

use vstd::prelude::*;

use crate::model::{key_set, sorted_unique, spec_merge};
use crate::order::{lex_lt, lemma_lex_connected, lemma_lex_transitive};
use crate::order::str_lt;

verus! {

/// The accumulated record for one namespace name: the union of the keys seen
/// under that name, in ascending order without duplicates.
pub struct GlobalNameSpace {
    pub name: String,
    pub keys: Vec<String>,
}

impl GlobalNameSpace {
    /// The keys are strictly ascending, hence distinct.
    pub open spec fn wf(self) -> bool {
        sorted_unique(self.keys@)
    }
}

/// The accumulator: one record per namespace name seen so far.
pub struct Stack {
    pub values: Vec<GlobalNameSpace>,
}

impl Stack {
    /// Every record is well formed and no two records share a name.
    pub open spec fn wf(self) -> bool {
        &&& forall|i: int|
            0 <= i < self.values@.len() ==> (#[trigger] self.values@[i]).wf()
        &&& forall|i: int, j: int|
            0 <= i < j < self.values@.len() ==> self.values@[i].name@ != self.values@[j].name@
    }

    /// Whether a record for the name exists.
    pub open spec fn contains_name(self, n: Seq<char>) -> bool {
        exists|i: int| 0 <= i < self.values@.len() && self.values@[i].name@ == n
    }

    /// The position of the record for the name, when one exists.
    pub open spec fn index_of(self, n: Seq<char>) -> int {
        choose|i: int| 0 <= i < self.values@.len() && self.values@[i].name@ == n
    }

    /// The key set accumulated for the name; empty when no record exists.
    pub open spec fn keys_of(self, n: Seq<char>) -> Set<Seq<char>> {
        if self.contains_name(n) {
            key_set(self.values@[self.index_of(n)].keys@)
        } else {
            Set::empty()
        }
    }

    /// The accumulator as a map from namespace name to accumulated key set.
    pub open spec fn key_map(self) -> Map<Seq<char>, Set<Seq<char>>> {
        Map::new(|n: Seq<char>| self.contains_name(n), |n: Seq<char>| self.keys_of(n))
    }

    /// The record names, in the order the records were created.
    pub open spec fn names(self) -> Seq<Seq<char>> {
        self.values@.map_values(|g: GlobalNameSpace| g.name@)
    }

    /// A fresh, empty accumulator.
    pub fn new() -> (r: Stack)
        ensures
            r.wf(),
            r.values@.len() == 0,
            r.key_map() == Map::<Seq<char>, Set<Seq<char>>>::empty(),
    {
        let r = Stack { values: Vec::new() };
        proof {
            assert(r.key_map() =~= Map::<Seq<char>, Set<Seq<char>>>::empty());
        }
        r
    }

    /// The position of the record named `name`, when one exists.
    fn find_index(&self, name: &String) -> (r: Option<usize>)
        ensures
            match r {
                Some(i) => i < self.values@.len() && self.values@[i as int].name@ == name@,
                None => !self.contains_name(name@),
            },
    {
        let mut j: usize = 0;
        while j < self.values.len()
            invariant
                0 <= j <= self.values@.len(),
                forall|i: int| 0 <= i < j ==> self.values@[i].name@ != name@,
            decreases self.values@.len() - j,
        {
            if self.values[j].name == *name {
                return Some(j);
            }
            j = j + 1;
        }
        None
    }

    /// Creates the record for a name not seen before. It holds exactly the
    /// given keys, deduplicated and sorted.
    pub fn add_name_space(&mut self, name: String, keys: Vec<String>)
        requires
            old(self).wf(),
            !old(self).contains_name(name@),
        ensures
            final(self).wf(),
            final(self).names() == old(self).names().push(name@),
            final(self).key_map() == old(self).key_map().insert(name@, key_set(keys@)),
    {
        let ghost pre = *old(self);
        let mut sorted: Vec<String> = Vec::new();
        let mut i: usize = 0;
        while i < keys.len()
            invariant
                0 <= i <= keys@.len(),
                sorted_unique(sorted@),
                key_set(sorted@) == key_set(keys@.take(i as int)),
            decreases keys@.len() - i,
        {
            let k = keys[i].clone();
            proof {
                lemma_key_set_take_step(keys@, i as int);
            }
            insert_key(&mut sorted, k);
            i = i + 1;
        }
        proof {
            assert(keys@.take(keys@.len() as int) =~= keys@);
        }
        let ghost rec_keys = sorted@;
        self.values.push(GlobalNameSpace { name, keys: sorted });
        proof {
            let n = self.values@.len() - 1;
            assert(self.values@[n].keys@ == rec_keys);
            assert(forall|i: int| 0 <= i < n ==> self.values@[i] == pre.values@[i]);
            assert forall|i: int, j: int|
                0 <= i < j < self.values@.len() implies self.values@[i].name@
                != self.values@[j].name@ by {
                if j == n {
                    assert(!pre.contains_name(self.values@[j].name@));
                }
            }
            assert(self.names() =~= pre.names().push(self.values@[n].name@));
            lemma_key_map_after_push(pre, *self);
        }
    }

    /// Merges a key list into the record for the name, creating the record
    /// when none exists: afterwards the set accumulated for `name` is the old
    /// set united with the given keys, and every other name's set is
    /// untouched.
    pub fn merge_keys(&mut self, name: String, keys: Vec<String>)
        requires
            old(self).wf(),
        ensures
            final(self).wf(),
            final(self).key_map() == spec_merge(old(self).key_map(), name@, key_set(keys@)),
            final(self).names() == if old(self).contains_name(name@) {
                old(self).names()
            } else {
                old(self).names().push(name@)
            },
    {
        let ghost pre = *old(self);
        let found = self.find_index(&name);
        match found {
            None => {
                self.add_name_space(name, keys);
            },
            Some(at) => {
                proof {
                    lemma_index_unique(pre, name@, at as int);
                }
                let ghost old_keys = pre.values@[at as int].keys@;
                let mut rec = self.values.remove(at);
                let mut i: usize = 0;
                while i < keys.len()
                    invariant
                        0 <= i <= keys@.len(),
                        sorted_unique(rec.keys@),
                        key_set(rec.keys@) == key_set(old_keys).union(
                            key_set(keys@.take(i as int)),
                        ),
                        rec.name@ == name@,
                    decreases keys@.len() - i,
                {
                    let k = keys[i].clone();
                    proof {
                        lemma_key_set_take_step(keys@, i as int);
                        assert(key_set(old_keys).union(key_set(keys@.take(i as int))).insert(
                            keys@[i as int]@,
                        ) =~= key_set(old_keys).union(
                            key_set(keys@.take(i as int)).insert(keys@[i as int]@),
                        ));
                    }
                    insert_key(&mut rec.keys, k);
                    i = i + 1;
                }
                proof {
                    assert(keys@.take(keys@.len() as int) =~= keys@);
                }
                let ghost new_keys = rec.keys@;
                self.values.insert(at, rec);
                proof {
                    let idx = at as int;
                    assert(self.values@ =~= pre.values@.update(idx, self.values@[idx]));
                    assert(self.names() =~= pre.names());
                    lemma_key_map_after_update(pre, *self, at as int);
                    assert(key_set(new_keys) == pre.key_map()[name@].union(key_set(keys@)));
                    assert(self.key_map() =~~= spec_merge(
                        pre.key_map(),
                        name@,
                        key_set(keys@),
                    ));
                }
            },
        }
    }
}

/// The key set of a prefix grows by one view at each step.
proof fn lemma_key_set_take_step(keys: Seq<String>, i: int)
    requires
        0 <= i < keys.len(),
    ensures
        key_set(keys.take(i + 1)) == key_set(keys.take(i)).insert(keys[i]@),
{
    let a = keys.take(i);
    let b = keys.take(i + 1);
    assert forall|m: Seq<char>| key_set(b).contains(m) implies key_set(a).insert(
        keys[i]@,
    ).contains(m) by {
        let w = choose|w: int| 0 <= w < b.len() && b[w]@ == m;
        if w < i {
            assert(a[w]@ == m);
        }
    }
    assert forall|m: Seq<char>| key_set(a).insert(keys[i]@).contains(m) implies key_set(
        b,
    ).contains(m) by {
        if m == keys[i]@ {
            assert(b[i]@ == m);
        } else {
            let w = choose|w: int| 0 <= w < a.len() && a[w]@ == m;
            assert(b[w]@ == m);
        }
    }
    assert(key_set(b) =~= key_set(a).insert(keys[i]@));
}

/// In a well-formed stack, `index_of` finds exactly the record seen at `i`.
proof fn lemma_index_unique(s: Stack, n: Seq<char>, i: int)
    requires
        s.wf(),
        0 <= i < s.values@.len(),
        s.values@[i].name@ == n,
    ensures
        s.contains_name(n),
        s.index_of(n) == i,
{
    assert(s.contains_name(n));
    let j = s.index_of(n);
    assert(0 <= j < s.values@.len() && s.values@[j].name@ == n);
    if i < j {
        assert(s.values@[i].name@ != s.values@[j].name@);
    } else if j < i {
        assert(s.values@[j].name@ != s.values@[i].name@);
    }
}

/// The key map after appending one record for a fresh name.
proof fn lemma_key_map_after_push(pre: Stack, post: Stack)
    requires
        pre.wf(),
        post.wf(),
        post.values@.len() == pre.values@.len() + 1,
        forall|i: int| 0 <= i < pre.values@.len() ==> post.values@[i] == pre.values@[i],
        !pre.contains_name(post.values@[post.values@.len() - 1].name@),
    ensures
        post.key_map() == pre.key_map().insert(
            post.values@[post.values@.len() - 1].name@,
            key_set(post.values@[post.values@.len() - 1].keys@),
        ),
{
    let last = post.values@.len() - 1;
    let nm = post.values@[last].name@;
    assert forall|n: Seq<char>| true implies #[trigger] post.contains_name(n) == (
    pre.contains_name(n) || n == nm) by {
        if post.contains_name(n) {
            let w = post.index_of(n);
            if w < last {
                assert(pre.values@[w].name@ == n);
            }
        }
        if pre.contains_name(n) {
            let w = choose|w: int| 0 <= w < pre.values@.len() && pre.values@[w].name@ == n;
            assert(post.values@[w].name@ == n);
        }
        if n == nm {
            assert(post.values@[last].name@ == n);
        }
    }
    assert forall|n: Seq<char>| post.contains_name(n) && n != nm implies post.keys_of(n)
        == pre.keys_of(n) by {
        let w = choose|w: int| 0 <= w < pre.values@.len() && pre.values@[w].name@ == n;
        lemma_index_unique(pre, n, w);
        lemma_index_unique(post, n, w);
    }
    lemma_index_unique(post, nm, last);
    assert(post.key_map() =~~= pre.key_map().insert(nm, key_set(post.values@[last].keys@)));
}

/// The key map after replacing the keys of the one record at `at`.
proof fn lemma_key_map_after_update(pre: Stack, post: Stack, at: int)
    requires
        pre.wf(),
        post.wf(),
        0 <= at < pre.values@.len(),
        post.values@.len() == pre.values@.len(),
        forall|i: int| 0 <= i < pre.values@.len() && i != at ==> post.values@[i] == pre.values@[i],
        post.values@[at].name@ == pre.values@[at].name@,
    ensures
        post.key_map() == pre.key_map().insert(
            pre.values@[at].name@,
            key_set(post.values@[at].keys@),
        ),
{
    let nm = pre.values@[at].name@;
    assert forall|n: Seq<char>| true implies #[trigger] post.contains_name(n)
        == pre.contains_name(n) by {
        if post.contains_name(n) {
            let w = post.index_of(n);
            assert(pre.values@[w].name@ == n);
        }
        if pre.contains_name(n) {
            let w = pre.index_of(n);
            assert(post.values@[w].name@ == n);
        }
    }
    assert forall|n: Seq<char>| post.contains_name(n) && n != nm implies post.keys_of(n)
        == pre.keys_of(n) by {
        let w = pre.index_of(n);
        assert(0 <= w < pre.values@.len() && pre.values@[w].name@ == n);
        assert(w != at);
        lemma_index_unique(pre, n, w);
        lemma_index_unique(post, n, w);
    }
    lemma_index_unique(post, nm, at);
    assert(post.key_map() =~~= pre.key_map().insert(nm, key_set(post.values@[at].keys@)));
}

/// Inserts a key into an ascending, duplicate-free key list, keeping it so;
/// a key already present is left alone.
fn insert_key(keys: &mut Vec<String>, k: String)
    requires
        sorted_unique(old(keys)@),
    ensures
        sorted_unique(final(keys)@),
        key_set(final(keys)@) == key_set(old(keys)@).insert(k@),
{
    let ghost pre = old(keys)@;
    let mut pos: usize = 0;
    loop
        invariant
            keys@ == pre,
            sorted_unique(pre),
            0 <= pos <= pre.len(),
            forall|j: int| 0 <= j < pos ==> lex_lt(pre[j]@, k@),
        ensures
            keys@ == pre,
            0 <= pos <= pre.len(),
            forall|j: int| 0 <= j < pos ==> lex_lt(pre[j]@, k@),
            pos < pre.len() ==> lex_lt(k@, pre[pos as int]@),
        decreases pre.len() - pos,
    {
        if pos == keys.len() {
            break;
        }
        if !str_lt(keys[pos].as_str(), k.as_str()) {
            if !str_lt(k.as_str(), keys[pos].as_str()) {
                proof {
                    lemma_lex_connected(pre[pos as int]@, k@);
                    assert(key_set(pre).contains(k@));
                    assert(key_set(pre) =~= key_set(pre).insert(k@));
                }
                return ;
            }
            break;
        }
        pos = pos + 1;
    }
    proof {
        if (pos as int) < pre.len() {
            assert(lex_lt(k@, pre[pos as int]@));
        }
    }
    keys.insert(pos, k);
    proof {
        let n = keys@;
        assert(n == pre.insert(pos as int, k));
        assert forall|i: int, j: int| 0 <= i < j < n.len() implies lex_lt(n[i]@, n[j]@) by {
            if j < pos {
            } else if i < pos && j == pos {
                assert(lex_lt(pre[i]@, k@));
            } else if i < pos && j > pos {
                assert(lex_lt(pre[i]@, pre[j - 1]@));
            } else if i == pos && j > pos {
                if j - 1 > pos {
                    lemma_lex_transitive(k@, pre[pos as int]@, pre[j - 1]@);
                }
            } else {
                assert(lex_lt(pre[i - 1]@, pre[j - 1]@));
            }
        }
        assert forall|m: Seq<char>| key_set(n).contains(m) implies key_set(pre).insert(
            k@,
        ).contains(m) by {
            let w = choose|w: int| 0 <= w < n.len() && n[w]@ == m;
            if w < pos {
                assert(pre[w]@ == m);
            } else if w > pos {
                assert(pre[w - 1]@ == m);
            }
        }
        assert forall|m: Seq<char>| key_set(pre).insert(k@).contains(m) implies key_set(
            n,
        ).contains(m) by {
            if m == k@ {
                assert(n[pos as int]@ == m);
            } else {
                let w = choose|w: int| 0 <= w < pre.len() && pre[w]@ == m;
                if w < pos {
                    assert(n[w]@ == m);
                } else {
                    assert(n[w + 1]@ == m);
                }
            }
        }
        assert(key_set(n) =~= key_set(pre).insert(k@));
    }
}

} // verus!
