//! The mathematical vocabulary of the library: key lists and key/value pair
//! lists seen as sequences of character sequences, their key sets, and the
//! orderings the executable code maintains.

use vstd::prelude::*;

use crate::order::lex_lt;

verus! {

/// The character sequences of a list of strings, in order.
pub open spec fn views(s: Seq<String>) -> Seq<Seq<char>> {
    s.map_values(|k: String| k@)
}

/// The set of keys a list of strings holds.
pub open spec fn key_set(s: Seq<String>) -> Set<Seq<char>> {
    Set::new(|k: Seq<char>| exists|i: int| 0 <= i < s.len() && s[i]@ == k)
}

/// Strictly ascending in `lex_lt`; strictness makes the entries distinct.
pub open spec fn sorted_unique(s: Seq<String>) -> bool {
    forall|i: int, j: int| 0 <= i < j < s.len() ==> lex_lt(s[i]@, s[j]@)
}

/// The character sequences of a list of key/value pairs, in order.
pub open spec fn pair_views(s: Seq<(String, String)>) -> Seq<(Seq<char>, Seq<char>)> {
    s.map_values(|p: (String, String)| (p.0@, p.1@))
}

/// The set of keys a pair list holds.
pub open spec fn pair_key_set(ps: Seq<(Seq<char>, Seq<char>)>) -> Set<Seq<char>> {
    Set::new(|k: Seq<char>| exists|i: int| 0 <= i < ps.len() && ps[i].0 == k)
}

/// The set of key/value pairs a pair list holds.
pub open spec fn pair_set(ps: Seq<(Seq<char>, Seq<char>)>) -> Set<(Seq<char>, Seq<char>)> {
    Set::new(|p: (Seq<char>, Seq<char>)| exists|i: int| 0 <= i < ps.len() && ps[i] == p)
}

/// No two entries of the pair list share a key.
pub open spec fn distinct_keys(ps: Seq<(Seq<char>, Seq<char>)>) -> bool {
    forall|i: int, j: int| 0 <= i < j < ps.len() ==> ps[i].0 != ps[j].0
}

/// Keys strictly ascending in `lex_lt`; implies `distinct_keys`.
pub open spec fn sorted_by_key(ps: Seq<(Seq<char>, Seq<char>)>) -> bool {
    forall|i: int, j: int| 0 <= i < j < ps.len() ==> lex_lt(ps[i].0, ps[j].0)
}

/// One merge step of the accumulator, on its mathematical model: the map
/// from namespace name to the union of the keys seen under that name.
pub open spec fn spec_merge(
    m: Map<Seq<char>, Set<Seq<char>>>,
    n: Seq<char>,
    ks: Set<Seq<char>>,
) -> Map<Seq<char>, Set<Seq<char>>> {
    if m.dom().contains(n) {
        m.insert(n, m[n].union(ks))
    } else {
        m.insert(n, ks)
    }
}

} // verus!
