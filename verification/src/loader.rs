//! Loading one namespace file's text: parsing it as a flat string-to-string
//! JSON object, feeding its keys to the accumulator, and, in sort mode,
//! producing the canonical re-encoding to write back. The reading and writing
//! of files themselves stay outside the library.

use vstd::prelude::*;

use crate::model::{distinct_keys, key_set, pair_key_set, pair_set, pair_views, spec_merge};
use crate::stack::Stack;
use crate::tree::{keys_of_pairs, sort_pairs, NameSpace};

verus! {

/// What `serde_json::from_str` yields for a text, read as a flat map from
/// string key to string value: the pairs in ascending key order, or nothing
/// when the text is not such an object. A function of the text alone.
pub uninterp spec fn parsed_flat(s: Seq<char>) -> Option<Seq<(Seq<char>, Seq<char>)>>;

/// Relies on serde_json::from_str, deserializing into a map from `String` to
/// `String`: the outcome depends on the text alone; it succeeds exactly when
/// the text is one flat JSON object whose values are all strings; and a map
/// holds each key at most once.
#[verifier::external_body]
fn parse_flat(s: &str) -> (r: Option<Vec<(String, String)>>)
    ensures
        r is Some <==> parsed_flat(s@) is Some,
        r matches Some(v) ==> pair_views(v@) == parsed_flat(s@)->Some_0,
        r matches Some(v) ==> distinct_keys(pair_views(v@)),
{
    match serde_json::from_str::<std::collections::BTreeMap<String, String>>(s) {
        Ok(m) => Some(m.into_iter().collect()),
        Err(_) => None,
    }
}

/// What `serde_json::to_string_pretty` yields for a map holding the given
/// key/value pairs, or nothing when the serializer reports an error. A
/// function of the pairs alone.
pub uninterp spec fn pretty_encoding(pairs: Seq<(Seq<char>, Seq<char>)>) -> Option<Seq<char>>;

/// Relies on serde_json::to_string_pretty of a `BTreeMap<String, String>`:
/// the text produced depends on the map's contents alone.
#[verifier::external_body]
fn encode_pretty(pairs: &Vec<(String, String)>) -> (r: Option<String>)
    ensures
        r is Some <==> pretty_encoding(pair_views(pairs@)) is Some,
        r matches Some(s) ==> s@ == pretty_encoding(pair_views(pairs@))->Some_0,
{
    let m: std::collections::BTreeMap<String, String> = pairs.iter().cloned().collect();
    match serde_json::to_string_pretty(&m) {
        Ok(s) => Some(s),
        Err(_) => None,
    }
}

/// The position just past the last `/` of the sequence; -1 when none occurs.
pub open spec fn last_slash(s: Seq<char>) -> int
    decreases s.len(),
{
    if s.len() == 0 {
        -1
    } else if s[s.len() - 1] == '/' {
        s.len() - 1
    } else {
        last_slash(s.drop_last())
    }
}

/// The basename of a path: what follows its last `/`, or the whole path when
/// it has none. Empty when the path ends in `/`.
pub open spec fn basename_of(s: Seq<char>) -> Seq<char> {
    s.skip(last_slash(s) + 1)
}

/// `last_slash` stays within bounds.
proof fn lemma_last_slash_bounds(s: Seq<char>)
    ensures
        -1 <= last_slash(s) < s.len(),
    decreases s.len(),
{
    if s.len() > 0 && s[s.len() - 1] != '/' {
        lemma_last_slash_bounds(s.drop_last());
    }
}

/// One character more: the last slash moves up exactly when it is a slash.
proof fn lemma_last_slash_step(s: Seq<char>, i: int)
    requires
        0 <= i < s.len(),
    ensures
        last_slash(s.take(i + 1)) == if s[i] == '/' {
            i
        } else {
            last_slash(s.take(i))
        },
{
    let t = s.take(i + 1);
    assert(t.len() == i + 1);
    assert(t[i] == s[i]);
    assert(t.drop_last() =~= s.take(i));
}

/// The name a path segment gives its language or namespace: the text after
/// the path's last `/`, or the whole path when it has none.
pub fn get_folder_name(path: &str) -> (r: String)
    ensures
        r@ == basename_of(path@),
{
    let n = path.unicode_len();
    let mut cut: usize = 0;
    let mut i: usize = 0;
    proof {
        assert(path@.take(0) =~= Seq::<char>::empty());
    }
    while i < n
        invariant
            0 <= i <= n,
            n == path@.len(),
            0 <= cut <= i,
            cut == last_slash(path@.take(i as int)) + 1,
        decreases n - i,
    {
        proof {
            lemma_last_slash_step(path@, i as int);
        }
        if path.get_char(i) == '/' {
            cut = i + 1;
        }
        i = i + 1;
    }
    proof {
        assert(path@.take(n as int) =~= path@);
        lemma_last_slash_bounds(path@);
    }
    let r = path.substring_char(cut, n);
    proof {
        assert(r@ =~= path@.skip(last_slash(path@) + 1));
    }
    r.to_owned()
}

/// The outcome of handling one namespace file's text.
pub enum LoadResult {
    /// The text was not a flat string-to-string object; nothing was merged.
    ParseFailed,
    /// Sort mode only: the keys were merged, but the canonical re-encoding
    /// failed, so the namespace is dropped and nothing is written back.
    EncodeFailed,
    /// The namespace, its keys merged into the accumulator.
    Loaded(NameSpace),
    /// Sort mode: the namespace, and the canonical text to write back.
    LoadedForRewrite(NameSpace, String),
}

/// Handles the text of one namespace file: parses it as a flat
/// string-to-string object, and on success merges its keys into the
/// accumulator and yields the namespace, together, in sort mode, with its
/// canonical re-encoding. A text that fails to parse leaves the accumulator
/// untouched and yields nothing.
pub fn load_namespace(stack: &mut Stack, name: String, content: &str, sort: bool) -> (r: LoadResult)
    requires
        old(stack).wf(),
    ensures
        final(stack).wf(),
        parsed_flat(content@) is None ==> r is ParseFailed && *final(stack) == *old(stack),
        parsed_flat(content@) matches Some(pairs) ==> {
            &&& final(stack).key_map() == spec_merge(
                old(stack).key_map(),
                name@,
                pair_key_set(pairs),
            )
            &&& final(stack).names() == if old(stack).contains_name(name@) {
                old(stack).names()
            } else {
                old(stack).names().push(name@)
            }
            &&& !(r is ParseFailed)
            &&& (!sort ==> r is Loaded)
            &&& (sort ==> r is LoadedForRewrite || r is EncodeFailed)
            &&& (r matches LoadResult::Loaded(ns) ==> ns.wf() && ns.name@ == name@ && pair_set(
                pair_views(ns.data@),
            ) == pair_set(pairs) && ns.key_set() == pair_key_set(pairs))
            &&& (r matches LoadResult::LoadedForRewrite(ns, out) ==> ns.wf() && ns.name@ == name@
                && pair_set(pair_views(ns.data@)) == pair_set(pairs) && ns.key_set()
                == pair_key_set(pairs) && pretty_encoding(pair_views(ns.data@)) is Some && out@
                == pretty_encoding(pair_views(ns.data@))->Some_0)
        },
{
    let parsed = parse_flat(content);
    match parsed {
        None => LoadResult::ParseFailed,
        Some(raw) => {
            let data = sort_pairs(&raw);
            let keys = keys_of_pairs(&data);
            stack.merge_keys(name.clone(), keys);
            let ns = NameSpace { name, data };
            if sort {
                match encode_pretty(&ns.data) {
                    Some(out) => LoadResult::LoadedForRewrite(ns, out),
                    None => LoadResult::EncodeFailed,
                }
            } else {
                LoadResult::Loaded(ns)
            }
        },
    }
}

} // verus!
