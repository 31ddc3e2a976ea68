//! The completeness checker: for a global namespace record and a language
//! that has a same-named namespace file, the keys of the record that the file
//! lacks, in the record's key order.

use vstd::prelude::*;

use crate::model::{pair_views, views};
use crate::stack::GlobalNameSpace;
use crate::tree::{Language, NameSpace};

verus! {

/// Absence from the namespace, as a predicate on key views.
pub open spec fn absent_from(ns: NameSpace) -> spec_fn(Seq<char>) -> bool {
    |k: Seq<char>| !ns.key_set().contains(k)
}

/// The keys of the record that the namespace lacks, in record order.
pub open spec fn missing_views(g: GlobalNameSpace, ns: NameSpace) -> Seq<Seq<char>> {
    views(g.keys@).filter(absent_from(ns))
}

/// Computes exactly the record keys that the namespace lacks, in the record's
/// key order: a key is reported if and only if the record holds it and the
/// namespace does not.
pub fn check(ns: &NameSpace, g: &GlobalNameSpace) -> (missing: Vec<String>)
    ensures
        views(missing@) == missing_views(*g, *ns),
{
    let mut missing: Vec<String> = Vec::new();
    let mut i: usize = 0;
    proof {
        reveal_with_fuel(Seq::<Seq<char>>::filter, 2);
        assert(g.keys@.take(0) =~= Seq::<String>::empty());
        assert(views(Seq::<String>::empty()).filter(absent_from(*ns)) =~= Seq::<Seq<char>>::empty());
        assert(views(missing@) =~= Seq::<Seq<char>>::empty());
    }
    while i < g.keys.len()
        invariant
            0 <= i <= g.keys@.len(),
            views(missing@) == views(g.keys@.take(i as int)).filter(absent_from(*ns)),
        decreases g.keys@.len() - i,
    {
        let ghost prev = missing@;
        let ghost t0 = views(g.keys@.take(i as int));
        let ghost t1 = views(g.keys@.take(i as int + 1));
        let absent = !ns.contains_key(&g.keys[i]);
        if absent {
            missing.push(g.keys[i].clone());
        }
        proof {
            reveal_with_fuel(Seq::<Seq<char>>::filter, 2);
            assert(t1.drop_last() =~= t0);
            assert(t1.last() == g.keys@[i as int]@);
            assert(t1.filter(absent_from(*ns)) == if absent_from(*ns)(g.keys@[i as int]@) {
                t0.filter(absent_from(*ns)).push(g.keys@[i as int]@)
            } else {
                t0.filter(absent_from(*ns))
            });
            if absent {
                assert(views(missing@) =~= views(prev).push(g.keys@[i as int]@));
            }
        }
        i = i + 1;
    }
    proof {
        assert(g.keys@.take(g.keys@.len() as int) =~= g.keys@);
    }
    missing
}

/// The first namespace with the given name among a language's files, if any.
pub open spec fn first_named(files: Seq<NameSpace>, name: Seq<char>) -> Option<NameSpace>
    decreases files.len(),
{
    if files.len() == 0 {
        None
    } else if files[0].name@ == name {
        Some(files[0])
    } else {
        first_named(files.skip(1), name)
    }
}

/// The report lines one language earns for one record: nothing when the
/// language has no namespace of that name, else one (language name, key)
/// entry per missing key, in record order.
pub open spec fn lang_entries(g: GlobalNameSpace, lang: Language) -> Seq<(Seq<char>, Seq<char>)> {
    match first_named(lang.files@, g.name@) {
        Some(ns) => missing_views(g, ns).map_values(|k: Seq<char>| (lang.name@, k)),
        None => Seq::empty(),
    }
}

/// The report lines one record earns across all languages, in language order.
pub open spec fn spec_record_report(g: GlobalNameSpace, langs: Seq<Language>) -> Seq<
    (Seq<char>, Seq<char>),
>
    decreases langs.len(),
{
    if langs.len() == 0 {
        Seq::empty()
    } else {
        lang_entries(g, langs[0]) + spec_record_report(g, langs.skip(1))
    }
}

/// A first matching index yields the first named namespace.
proof fn lemma_first_named_index(files: Seq<NameSpace>, name: Seq<char>, i: int)
    requires
        0 <= i < files.len(),
        files[i].name@ == name,
        forall|j: int| 0 <= j < i ==> files[j].name@ != name,
    ensures
        first_named(files, name) == Some(files[i]),
    decreases i,
{
    if i > 0 {
        lemma_first_named_index(files.skip(1), name, i - 1);
    }
}

/// No matching name, no first named namespace.
proof fn lemma_first_named_none(files: Seq<NameSpace>, name: Seq<char>)
    requires
        forall|j: int| 0 <= j < files.len() ==> files[j].name@ != name,
    ensures
        first_named(files, name) is None,
    decreases files.len(),
{
    if files.len() > 0 {
        lemma_first_named_none(files.skip(1), name);
    }
}

/// Appending a language appends its entries.
proof fn lemma_record_report_push(g: GlobalNameSpace, s: Seq<Language>, l: Language)
    ensures
        spec_record_report(g, s.push(l)) == spec_record_report(g, s) + lang_entries(g, l),
    decreases s.len(),
{
    let e = s.push(l);
    if s.len() == 0 {
        assert(e[0] == l);
        assert(e.skip(1) =~= Seq::<Language>::empty());
        assert(spec_record_report(g, e) == lang_entries(g, l) + spec_record_report(
            g,
            Seq::<Language>::empty(),
        ));
        assert(spec_record_report(g, e) =~= spec_record_report(g, s) + lang_entries(g, l));
    } else {
        assert(e.skip(1) =~= s.skip(1).push(l));
        assert(e[0] == s[0]);
        lemma_record_report_push(g, s.skip(1), l);
        assert(spec_record_report(g, e) == lang_entries(g, s[0]) + (spec_record_report(
            g,
            s.skip(1),
        ) + lang_entries(g, l)));
        assert(spec_record_report(g, s) == lang_entries(g, s[0]) + spec_record_report(
            g,
            s.skip(1),
        ));
        assert(lang_entries(g, s[0]) + (spec_record_report(g, s.skip(1)) + lang_entries(g, l))
            =~= (lang_entries(g, s[0]) + spec_record_report(g, s.skip(1))) + lang_entries(g, l));
    }
}

/// Computes, for one global namespace record, every (language name, missing
/// key) report entry, in language order and, within a language, in the
/// record's key order. A language without a namespace of the record's name
/// contributes nothing.
pub fn record_report(g: &GlobalNameSpace, languages: &Vec<Language>) -> (r: Vec<(String, String)>)
    ensures
        pair_views(r@) == spec_record_report(*g, languages@),
{
    let mut r: Vec<(String, String)> = Vec::new();
    let mut i: usize = 0;
    proof {
        assert(languages@.take(0) =~= Seq::<Language>::empty());
        assert(pair_views(r@) =~= spec_record_report(*g, languages@.take(0)));
    }
    while i < languages.len()
        invariant
            0 <= i <= languages@.len(),
            pair_views(r@) == spec_record_report(*g, languages@.take(i as int)),
        decreases languages@.len() - i,
    {
        let ghost base = pair_views(r@);
        let lang = &languages[i];
        let found = lang.find_namespace(&g.name);
        match found {
            Some(at) => {
                proof {
                    lemma_first_named_index(lang.files@, g.name@, at as int);
                }
                let missing = check(&lang.files[at], g);
                let ghost target = lang_entries(*g, *lang);
                let mut j: usize = 0;
                proof {
                    assert(target.take(0) =~= Seq::<(Seq<char>, Seq<char>)>::empty());
                    assert(pair_views(r@) =~= base + target.take(0));
                }
                while j < missing.len()
                    invariant
                        0 <= j <= missing@.len(),
                        target == lang_entries(*g, *lang),
                        target.len() == missing@.len(),
                        forall|w: int|
                            0 <= w < missing@.len() ==> target[w] == (lang.name@, missing@[w]@),
                        pair_views(r@) == base + target.take(j as int),
                    decreases missing@.len() - j,
                {
                    let ghost prev = r@;
                    r.push((lang.name.clone(), missing[j].clone()));
                    proof {
                        assert(pair_views(r@) =~= pair_views(prev).push((
                            lang.name@,
                            missing@[j as int]@,
                        )));
                        assert(target.take(j as int + 1) =~= target.take(j as int).push(
                            target[j as int],
                        ));
                        assert(base + target.take(j as int + 1) =~= (base + target.take(
                            j as int,
                        )).push(target[j as int]));
                    }
                    j = j + 1;
                }
                proof {
                    assert(target.take(target.len() as int) =~= target);
                }
            },
            None => {
                proof {
                    lemma_first_named_none(lang.files@, g.name@);
                    assert(lang_entries(*g, *lang) =~= Seq::<(Seq<char>, Seq<char>)>::empty());
                    assert(base + lang_entries(*g, *lang) =~= base);
                }
            },
        }
        proof {
            assert(languages@.take(i as int + 1) =~= languages@.take(i as int).push(
                languages@[i as int],
            ));
            lemma_record_report_push(*g, languages@.take(i as int), languages@[i as int]);
        }
        i = i + 1;
    }
    proof {
        assert(languages@.take(languages@.len() as int) =~= languages@);
    }
    r
}

} // verus!
