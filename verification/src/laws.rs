//! The library's laws: proofs that relate the serializer, the parser and
//! manifest synthesis.  Each public proof function states one law in its
//! doc comment.

use vstd::prelude::*;
use crate::text::{
    trimmed, trim_front, lemma_find_unique, lemma_find_none, lemma_trimmed_fixed,
    lemma_trim_front_range, lemma_trim_back_range, bracket_delta, lemma_bracket_delta_concat,
    lemma_bracket_free_delta, lemma_bracket_delta_single,
};
use crate::config::{
    SpecSection, SpecDoc, wf_key, wf_val, wf_comp, wf_entries, wf_path, wf_section, wf_doc,
    ser_entry, ser_entries, ser_path, ser_section, ser_sections, ser_doc,
};
use crate::parse::{
    parse_path_spec, append_entry, push_section, apply_line, parse_from_spec, parse_doc, join_from,
    lemma_join_concat, lemma_join_no_newline,
};
use crate::manifest::{
    SpecDepValue, lib_path, deps_path, crate_type_key, crate_type_val, toolchain_dep_key,
    wildcard_val, find_key_from, find_key, set_entry, remove_key, find_path_from, find_path,
    path_has_prefix, remove_prefix, remove_deeper, replace_section, set_in_section,
    remove_in_section, apply_dep, apply_deps, synth_spec,
};

verus! {

/// What a key search result means.
proof fn lemma_find_key_props(es: Seq<(Seq<char>, Seq<char>)>, k: Seq<char>, i: int)
    requires
        0 <= i <= es.len(),
    ensures
        match find_key_from(es, k, i) {
            Option::Some(j) => i <= j < es.len() && es[j].0 == k && forall|t: int|
                i <= t < j ==> (#[trigger] es[t]).0 != k,
            Option::None => forall|t: int| i <= t < es.len() ==> (#[trigger] es[t]).0 != k,
        },
    decreases es.len() - i,
{
    if i < es.len() && es[i].0 != k {
        lemma_find_key_props(es, k, i + 1);
    }
}

/// A position holding the key, with no earlier one, is the search result.
proof fn lemma_find_key_unique(es: Seq<(Seq<char>, Seq<char>)>, k: Seq<char>, i: int, j: int)
    requires
        0 <= i <= j < es.len(),
        es[j].0 == k,
        forall|t: int| i <= t < j ==> (#[trigger] es[t]).0 != k,
    ensures
        find_key_from(es, k, i) == Option::Some(j),
    decreases j - i,
{
    if i < j {
        lemma_find_key_unique(es, k, i + 1, j);
    }
}

/// What a path search result means.
proof fn lemma_find_path_props(ss: Seq<SpecSection>, p: Seq<Seq<char>>, i: int)
    requires
        0 <= i <= ss.len(),
    ensures
        match find_path_from(ss, p, i) {
            Option::Some(j) => i <= j < ss.len() && ss[j].path == p && forall|t: int|
                i <= t < j ==> (#[trigger] ss[t]).path != p,
            Option::None => forall|t: int| i <= t < ss.len() ==> (#[trigger] ss[t]).path != p,
        },
    decreases ss.len() - i,
{
    if i < ss.len() && ss[i].path != p {
        lemma_find_path_props(ss, p, i + 1);
    }
}

/// A position holding the path, with no earlier one, is the search result.
proof fn lemma_find_path_unique(ss: Seq<SpecSection>, p: Seq<Seq<char>>, i: int, j: int)
    requires
        0 <= i <= j < ss.len(),
        ss[j].path == p,
        forall|t: int| i <= t < j ==> (#[trigger] ss[t]).path != p,
    ensures
        find_path_from(ss, p, i) == Option::Some(j),
    decreases j - i,
{
    if i < j {
        lemma_find_path_unique(ss, p, i + 1, j);
    }
}

/// The first entry with a key, together with its position.
pub open spec fn key_pair(es: Seq<(Seq<char>, Seq<char>)>, k: Seq<char>) -> Option<(Seq<char>, Seq<char>)> {
    match find_key(es, k) {
        Option::Some(j) => Option::Some(es[j]),
        Option::None => Option::None,
    }
}

/// The first section with a path.
pub open spec fn sec_at(ss: Seq<SpecSection>, p: Seq<Seq<char>>) -> Option<SpecSection> {
    match find_path(ss, p) {
        Option::Some(j) => Option::Some(ss[j]),
        Option::None => Option::None,
    }
}

/// A document's section at `p` holds `k = v`, as its first `k` entry.
pub open spec fn entry_stable(d: SpecDoc, p: Seq<Seq<char>>, k: Seq<char>, v: Seq<char>) -> bool {
    match sec_at(d.sections, p) {
        Option::Some(sec) => sec.path == p && key_pair(sec.entries, k) == Option::Some((k, v)),
        Option::None => false,
    }
}

/// Setting a key makes its section hold it.
proof fn lemma_set_in_section_establishes(d: SpecDoc, p: Seq<Seq<char>>, k: Seq<char>, v: Seq<char>)
    ensures
        entry_stable(set_in_section(d, p, k, v), p, k, v),
{
    lemma_find_path_props(d.sections, p, 0);
    let r = set_in_section(d, p, k, v);
    match find_path(d.sections, p) {
        Option::Some(j) => {
            lemma_find_path_unique(r.sections, p, 0, j);
            lemma_find_key_props(d.sections[j].entries, k, 0);
            let es = d.sections[j].entries;
            match find_key(es, k) {
                Option::Some(i) => {
                    lemma_find_key_unique(es.update(i, (k, v)), k, 0, i);
                },
                Option::None => {
                    lemma_find_key_unique(es.push((k, v)), k, 0, es.len() as int);
                },
            }
        },
        Option::None => {
            lemma_find_path_unique(r.sections, p, 0, d.sections.len() as int);
            lemma_find_key_unique(seq![(k, v)], k, 0, 0);
        },
    }
}

/// Setting a key that its section already holds changes nothing.
proof fn lemma_set_in_section_noop(d: SpecDoc, p: Seq<Seq<char>>, k: Seq<char>, v: Seq<char>)
    requires
        entry_stable(d, p, k, v),
    ensures
        set_in_section(d, p, k, v) == d,
{
    let j = find_path(d.sections, p)->Some_0;
    lemma_find_path_props(d.sections, p, 0);
    let es = d.sections[j].entries;
    let i = find_key(es, k)->Some_0;
    lemma_find_key_props(es, k, 0);
    assert(es.update(i, (k, v)) =~= es);
    assert(d.sections.update(j, SpecSection { path: d.sections[j].path, entries: es }) =~= d.sections);
    assert(set_in_section(d, p, k, v) =~~= d);
}

/// Setting a key in one section leaves every other section's state alone.
proof fn lemma_set_in_section_preserves(
    d: SpecDoc,
    p: Seq<Seq<char>>,
    k: Seq<char>,
    v: Seq<char>,
    p2: Seq<Seq<char>>,
    k2: Seq<char>,
    v2: Seq<char>,
)
    requires
        entry_stable(d, p2, k2, v2),
        p2 != p,
    ensures
        entry_stable(set_in_section(d, p, k, v), p2, k2, v2),
{
    let r = set_in_section(d, p, k, v);
    let j2 = find_path(d.sections, p2)->Some_0;
    lemma_find_path_props(d.sections, p2, 0);
    lemma_find_path_props(d.sections, p, 0);
    match find_path(d.sections, p) {
        Option::Some(j) => {
            assert(d.sections[j].path == p);
            assert(j != j2);
            assert(r.sections[j2] == d.sections[j2]);
            assert(forall|t: int| 0 <= t < j2 ==> (#[trigger] r.sections[t]).path == d.sections[t].path);
            lemma_find_path_unique(r.sections, p2, 0, j2);
        },
        Option::None => {
            assert(r.sections[j2] == d.sections[j2]);
            assert(forall|t: int| 0 <= t < j2 ==> (#[trigger] r.sections[t]).path == d.sections[t].path);
            lemma_find_path_unique(r.sections, p2, 0, j2);
        },
    }
}

/// The two section paths synthesis writes to are different.
proof fn lemma_lib_deps_distinct()
    ensures
        lib_path() != deps_path(),
        crate_type_key() != toolchain_dep_key(),
{
    reveal_strlit("lib");
    reveal_strlit("dependencies");
    reveal_strlit("crate-type");
    reveal_strlit("wasm-bindgen");
    assert("lib"@.len() == 3);
    assert("dependencies"@.len() == 12);
    assert(lib_path()[0] == "lib"@);
    assert(deps_path()[0] == "dependencies"@);
    assert("crate-type"@.len() == 10);
    assert("wasm-bindgen"@.len() == 12);
}

/// Searching from a later start, on a sequence with one element dropped in
/// front, finds the same section shifted by one.
proof fn lemma_find_path_drop(ss: Seq<SpecSection>, p: Seq<Seq<char>>, i: int)
    requires
        1 <= i <= ss.len(),
    ensures
        find_path_from(ss, p, i) == match find_path_from(ss.drop_first(), p, i - 1) {
            Option::Some(j) => Option::Some(j + 1),
            Option::None => Option::None::<int>,
        },
    decreases ss.len() - i,
{
    if i < ss.len() {
        assert(ss[i] == ss.drop_first()[i - 1]);
        lemma_find_path_drop(ss, p, i + 1);
    }
}

/// The first section with a path, through a cons.
proof fn lemma_sec_at_cons(ss: Seq<SpecSection>, p: Seq<Seq<char>>)
    requires
        ss.len() > 0,
    ensures
        sec_at(ss, p) == if ss[0].path == p {
            Option::Some(ss[0])
        } else {
            sec_at(ss.drop_first(), p)
        },
{
    if ss[0].path != p {
        lemma_find_path_drop(ss, p, 1);
        assert(find_path(ss, p) == find_path_from(ss, p, 1));
        lemma_find_path_props(ss.drop_first(), p, 0);
        match find_path_from(ss.drop_first(), p, 0) {
            Option::Some(j) => {
                assert(ss.drop_first()[j] == ss[j + 1]);
            },
            Option::None => {},
        }
    }
}

/// Dropping strictly-deeper sections leaves every other path's first
/// section alone.
proof fn lemma_remove_deeper_sec_at(ss: Seq<SpecSection>, pre: Seq<Seq<char>>, p: Seq<Seq<char>>)
    requires
        !(path_has_prefix(p, pre) && p.len() > pre.len()),
    ensures
        sec_at(remove_deeper(ss, pre), p) == sec_at(ss, p),
    decreases ss.len(),
{
    if ss.len() > 0 {
        lemma_sec_at_cons(ss, p);
        lemma_remove_deeper_sec_at(ss.drop_first(), pre, p);
        if path_has_prefix(ss[0].path, pre) && ss[0].path.len() > pre.len() {
        } else {
            let r = seq![ss[0]] + remove_deeper(ss.drop_first(), pre);
            assert(r.len() > 0 && r[0] == ss[0]);
            lemma_sec_at_cons(r, p);
            assert(r.drop_first() =~= remove_deeper(ss.drop_first(), pre));
        }
    } else {
        lemma_find_path_props(ss, p, 0);
        lemma_find_path_props(remove_deeper(ss, pre), p, 0);
    }
}

/// Dropping a prefix's sections leaves every other path's first section
/// alone.
proof fn lemma_remove_prefix_sec_at(ss: Seq<SpecSection>, pre: Seq<Seq<char>>, p: Seq<Seq<char>>)
    requires
        !path_has_prefix(p, pre),
    ensures
        sec_at(remove_prefix(ss, pre), p) == sec_at(ss, p),
    decreases ss.len(),
{
    if ss.len() > 0 {
        lemma_sec_at_cons(ss, p);
        lemma_remove_prefix_sec_at(ss.drop_first(), pre, p);
        if path_has_prefix(ss[0].path, pre) {
        } else {
            let r = seq![ss[0]] + remove_prefix(ss.drop_first(), pre);
            assert(r.len() > 0 && r[0] == ss[0]);
            lemma_sec_at_cons(r, p);
            assert(r.drop_first() =~= remove_prefix(ss.drop_first(), pre));
        }
    } else {
        lemma_find_path_props(ss, p, 0);
        lemma_find_path_props(remove_prefix(ss, pre), p, 0);
    }
}

/// Like `lemma_find_path_drop`, for entries.
proof fn lemma_find_key_drop(es: Seq<(Seq<char>, Seq<char>)>, k: Seq<char>, i: int)
    requires
        1 <= i <= es.len(),
    ensures
        find_key_from(es, k, i) == match find_key_from(es.drop_first(), k, i - 1) {
            Option::Some(j) => Option::Some(j + 1),
            Option::None => Option::None::<int>,
        },
    decreases es.len() - i,
{
    if i < es.len() {
        assert(es[i] == es.drop_first()[i - 1]);
        lemma_find_key_drop(es, k, i + 1);
    }
}

/// The first entry with a key, through a cons.
proof fn lemma_key_pair_cons(es: Seq<(Seq<char>, Seq<char>)>, k: Seq<char>)
    requires
        es.len() > 0,
    ensures
        key_pair(es, k) == if es[0].0 == k {
            Option::Some(es[0])
        } else {
            key_pair(es.drop_first(), k)
        },
{
    if es[0].0 != k {
        lemma_find_key_drop(es, k, 1);
        assert(find_key(es, k) == find_key_from(es, k, 1));
        lemma_find_key_props(es.drop_first(), k, 0);
        match find_key_from(es.drop_first(), k, 0) {
            Option::Some(j) => {
                assert(es.drop_first()[j] == es[j + 1]);
            },
            Option::None => {},
        }
    }
}

/// Removing one key clears it and leaves every other key's first entry.
proof fn lemma_remove_key_pairs(es: Seq<(Seq<char>, Seq<char>)>, k: Seq<char>, k2: Seq<char>)
    ensures
        key_pair(remove_key(es, k), k) == Option::None::<(Seq<char>, Seq<char>)>,
        k2 != k ==> key_pair(remove_key(es, k), k2) == key_pair(es, k2),
    decreases es.len(),
{
    if es.len() == 0 {
        lemma_find_key_props(remove_key(es, k), k, 0);
        lemma_find_key_props(remove_key(es, k), k2, 0);
        lemma_find_key_props(es, k2, 0);
    } else {
        lemma_key_pair_cons(es, k);
        lemma_key_pair_cons(es, k2);
        lemma_remove_key_pairs(es.drop_first(), k, k2);
        if es[0].0 == k {
        } else {
            let r = seq![es[0]] + remove_key(es.drop_first(), k);
            assert(r.len() > 0 && r[0] == es[0]);
            lemma_key_pair_cons(r, k);
            lemma_key_pair_cons(r, k2);
            assert(r.drop_first() =~= remove_key(es.drop_first(), k));
        }
    }
}

/// Setting one key leaves every other key's first entry alone.
proof fn lemma_set_entry_key_pair(es: Seq<(Seq<char>, Seq<char>)>, k: Seq<char>, v: Seq<char>, k2: Seq<char>)
    requires
        k2 != k,
    ensures
        key_pair(set_entry(es, k, v), k2) == key_pair(es, k2),
{
    lemma_find_key_props(es, k, 0);
    lemma_find_key_props(es, k2, 0);
    let r = set_entry(es, k, v);
    match find_key(es, k) {
        Option::Some(j) => {
            match find_key(es, k2) {
                Option::Some(j2) => {
                    assert(j != j2);
                    assert(r[j2] == es[j2]);
                    assert(forall|t: int| 0 <= t < j2 ==> (#[trigger] r[t]).0 == es[t].0);
                    lemma_find_key_unique(r, k2, 0, j2);
                },
                Option::None => {
                    assert(forall|t: int| 0 <= t < r.len() ==> (#[trigger] r[t]).0 != k2);
                    lemma_find_key_props(r, k2, 0);
                },
            }
        },
        Option::None => {
            match find_key(es, k2) {
                Option::Some(j2) => {
                    assert(r[j2] == es[j2]);
                    assert(forall|t: int| 0 <= t < j2 ==> (#[trigger] r[t]).0 == es[t].0);
                    lemma_find_key_unique(r, k2, 0, j2);
                },
                Option::None => {
                    assert(forall|t: int| 0 <= t < r.len() ==> (#[trigger] r[t]).0 != k2);
                    lemma_find_key_props(r, k2, 0);
                },
            }
        },
    }
}

/// A section update that keeps its path leaves every other path's first
/// section alone, and moves its own entries.
proof fn lemma_update_sec_at(ss: Seq<SpecSection>, j: int, es: Seq<(Seq<char>, Seq<char>)>, p: Seq<Seq<char>>)
    requires
        0 <= j < ss.len(),
        find_path(ss, ss[j].path) == Option::Some(j),
    ensures
        ss[j].path == p ==> sec_at(ss.update(j, SpecSection { path: ss[j].path, entries: es }), p)
            == Option::Some(SpecSection { path: ss[j].path, entries: es }),
        ss[j].path != p ==> sec_at(ss.update(j, SpecSection { path: ss[j].path, entries: es }), p)
            == sec_at(ss, p),
{
    let r = ss.update(j, SpecSection { path: ss[j].path, entries: es });
    lemma_find_path_props(ss, ss[j].path, 0);
    lemma_find_path_props(ss, p, 0);
    if ss[j].path == p {
        assert(forall|t: int| 0 <= t < j ==> (#[trigger] r[t]).path != p);
        lemma_find_path_unique(r, p, 0, j);
    } else {
        match find_path(ss, p) {
            Option::Some(j2) => {
                assert(j2 != j);
                assert(r[j2] == ss[j2]);
                assert(forall|t: int| 0 <= t < j2 ==> (#[trigger] r[t]).path == ss[t].path);
                lemma_find_path_unique(r, p, 0, j2);
            },
            Option::None => {
                assert(forall|t: int| 0 <= t < r.len() ==> (#[trigger] r[t]).path != p);
                lemma_find_path_props(r, p, 0);
            },
        }
    }
}

/// A push leaves every existing path's first section alone, and gives a
/// fresh path its section.
proof fn lemma_push_sec_at(ss: Seq<SpecSection>, sec: SpecSection, p: Seq<Seq<char>>)
    ensures
        sec_at(ss, p) is Some ==> sec_at(ss.push(sec), p) == sec_at(ss, p),
        sec_at(ss, p) is None && sec.path == p ==> sec_at(ss.push(sec), p) == Option::Some(sec),
        sec_at(ss, p) is None && sec.path != p ==> sec_at(ss.push(sec), p) is None,
{
    let r = ss.push(sec);
    lemma_find_path_props(ss, p, 0);
    match find_path(ss, p) {
        Option::Some(j) => {
            assert(r[j] == ss[j]);
            assert(forall|t: int| 0 <= t < j ==> (#[trigger] r[t]).path == ss[t].path);
            lemma_find_path_unique(r, p, 0, j);
        },
        Option::None => {
            if sec.path == p {
                assert(r[ss.len() as int].path == p);
                assert(forall|t: int| 0 <= t < ss.len() ==> (#[trigger] r[t]).path != p);
                lemma_find_path_unique(r, p, 0, ss.len() as int);
            } else {
                assert(forall|t: int| 0 <= t < r.len() ==> (#[trigger] r[t]).path != p);
                lemma_find_path_props(r, p, 0);
            }
        },
    }
}

/// The dependency state of one name in a document: its entry in the
/// dependencies section when one exists, else its own sub-table section.
pub open spec fn dep_value_of(d: SpecDoc, k: Seq<char>) -> Option<SpecDepValue> {
    let sub = match sec_at(d.sections, deps_path().push(k)) {
        Option::Some(s) => Option::Some(SpecDepValue::Table(s.entries)),
        Option::None => Option::None,
    };
    match sec_at(d.sections, deps_path()) {
        Option::Some(sec) => match key_pair(sec.entries, k) {
            Option::Some(e) => Option::Some(SpecDepValue::Simple(e.1)),
            Option::None => sub,
        },
        Option::None => sub,
    }
}

/// Two dependency sub-table paths agree only on the same name, and neither
/// is the dependencies section itself.
proof fn lemma_sub_paths(k: Seq<char>, k2: Seq<char>)
    ensures
        deps_path().push(k) != deps_path(),
        k2 != k ==> deps_path().push(k2) != deps_path().push(k),
        !path_has_prefix(deps_path(), deps_path().push(k)),
        k2 != k ==> !path_has_prefix(deps_path().push(k2), deps_path().push(k)),
        !(path_has_prefix(deps_path().push(k2), deps_path().push(k)) && deps_path().push(k2).len()
            > deps_path().push(k).len()),
{
    assert(deps_path().push(k).len() == 2);
    if k2 != k {
        assert(deps_path().push(k2)[1] == k2);
        assert(deps_path().push(k)[1] == k);
        if path_has_prefix(deps_path().push(k2), deps_path().push(k)) {
            assert(deps_path().push(k2).subrange(0, 2)[1] == k2);
        }
    }
    assert(deps_path().push(k2).len() == 2);
}

/// Merging one dependency gives that name exactly the merged value.
proof fn lemma_apply_dep_sets(d: SpecDoc, k: Seq<char>, v: SpecDepValue)
    ensures
        dep_value_of(apply_dep(d, k, v), k) == Option::Some(v),
{
    lemma_sub_paths(k, k);
    match v {
        SpecDepValue::Simple(t) => {
            let d1 = SpecDoc { root: d.root, sections: remove_prefix(d.sections, deps_path().push(k)) };
            lemma_set_in_section_establishes(d1, deps_path(), k, t);
        },
        SpecDepValue::Table(es) => {
            let d1 = remove_in_section(d, deps_path(), k);
            let d2 = SpecDoc { root: d1.root, sections: remove_deeper(d1.sections, deps_path().push(k)) };
            let r = replace_section(d2, deps_path().push(k), es);
            // the dependencies section, if any, has no `k` entry afterwards
            lemma_find_path_props(d.sections, deps_path(), 0);
            match find_path(d.sections, deps_path()) {
                Option::Some(j) => {
                    lemma_remove_key_pairs(d.sections[j].entries, k, k);
                    lemma_update_sec_at(d.sections, j, remove_key(d.sections[j].entries, k), deps_path());
                    lemma_remove_deeper_sec_at(d1.sections, deps_path().push(k), deps_path());
                    lemma_find_path_props(d2.sections, deps_path().push(k), 0);
                    match find_path(d2.sections, deps_path().push(k)) {
                        Option::Some(j2) => {
                            lemma_update_sec_at(d2.sections, j2, es, deps_path());
                            lemma_update_sec_at(d2.sections, j2, es, deps_path().push(k));
                        },
                        Option::None => {
                            lemma_push_sec_at(d2.sections, SpecSection { path: deps_path().push(k), entries: es }, deps_path());
                            lemma_push_sec_at(d2.sections, SpecSection { path: deps_path().push(k), entries: es }, deps_path().push(k));
                        },
                    }
                },
                Option::None => {
                    lemma_remove_deeper_sec_at(d1.sections, deps_path().push(k), deps_path());
                    lemma_find_path_props(d2.sections, deps_path().push(k), 0);
                    match find_path(d2.sections, deps_path().push(k)) {
                        Option::Some(j2) => {
                            lemma_update_sec_at(d2.sections, j2, es, deps_path());
                            lemma_update_sec_at(d2.sections, j2, es, deps_path().push(k));
                        },
                        Option::None => {
                            lemma_push_sec_at(d2.sections, SpecSection { path: deps_path().push(k), entries: es }, deps_path());
                            lemma_push_sec_at(d2.sections, SpecSection { path: deps_path().push(k), entries: es }, deps_path().push(k));
                        },
                    }
                },
            }
        },
    }
}

/// Merging one dependency leaves every other name's state alone.
proof fn lemma_apply_dep_preserves(d: SpecDoc, k: Seq<char>, v: SpecDepValue, k2: Seq<char>)
    requires
        k2 != k,
    ensures
        dep_value_of(apply_dep(d, k, v), k2) == dep_value_of(d, k2),
{
    lemma_sub_paths(k, k2);
    match v {
        SpecDepValue::Simple(t) => {
            let d1 = SpecDoc { root: d.root, sections: remove_prefix(d.sections, deps_path().push(k)) };
            lemma_remove_prefix_sec_at(d.sections, deps_path().push(k), deps_path());
            lemma_remove_prefix_sec_at(d.sections, deps_path().push(k), deps_path().push(k2));
            let r = set_in_section(d1, deps_path(), k, t);
            lemma_find_path_props(d1.sections, deps_path(), 0);
            match find_path(d1.sections, deps_path()) {
                Option::Some(j) => {
                    lemma_set_entry_key_pair(d1.sections[j].entries, k, t, k2);
                    lemma_update_sec_at(d1.sections, j, set_entry(d1.sections[j].entries, k, t), deps_path());
                    lemma_update_sec_at(d1.sections, j, set_entry(d1.sections[j].entries, k, t), deps_path().push(k2));
                },
                Option::None => {
                    lemma_push_sec_at(d1.sections, SpecSection { path: deps_path(), entries: seq![(k, t)] }, deps_path());
                    lemma_push_sec_at(d1.sections, SpecSection { path: deps_path(), entries: seq![(k, t)] }, deps_path().push(k2));
                    lemma_find_key_props(seq![(k, t)], k2, 0);
                },
            }
        },
        SpecDepValue::Table(es) => {
            let d1 = remove_in_section(d, deps_path(), k);
            lemma_find_path_props(d.sections, deps_path(), 0);
            match find_path(d.sections, deps_path()) {
                Option::Some(j) => {
                    lemma_remove_key_pairs(d.sections[j].entries, k, k2);
                    lemma_update_sec_at(d.sections, j, remove_key(d.sections[j].entries, k), deps_path());
                    lemma_update_sec_at(d.sections, j, remove_key(d.sections[j].entries, k), deps_path().push(k2));
                },
                Option::None => {},
            }
            let d2 = SpecDoc { root: d1.root, sections: remove_deeper(d1.sections, deps_path().push(k)) };
            lemma_remove_deeper_sec_at(d1.sections, deps_path().push(k), deps_path());
            lemma_remove_deeper_sec_at(d1.sections, deps_path().push(k), deps_path().push(k2));
            let r = replace_section(d2, deps_path().push(k), es);
            lemma_find_path_props(d2.sections, deps_path().push(k), 0);
            match find_path(d2.sections, deps_path().push(k)) {
                Option::Some(j2) => {
                    lemma_update_sec_at(d2.sections, j2, es, deps_path());
                    lemma_update_sec_at(d2.sections, j2, es, deps_path().push(k2));
                },
                Option::None => {
                    lemma_push_sec_at(d2.sections, SpecSection { path: deps_path().push(k), entries: es }, deps_path());
                    lemma_push_sec_at(d2.sections, SpecSection { path: deps_path().push(k), entries: es }, deps_path().push(k2));
                },
            }
        },
    }
}

/// The value the merge leaves for a name: the payload's last entry with
/// that name, when there is one.
pub open spec fn last_value(s: Seq<(Seq<char>, SpecDepValue)>, k: Seq<char>) -> Option<SpecDepValue>
    decreases s.len(),
{
    if s.len() == 0 {
        Option::None
    } else {
        match last_value(s.drop_first(), k) {
            Option::Some(v) => Option::Some(v),
            Option::None => if s[0].0 == k {
                Option::Some(s[0].1)
            } else {
                Option::None
            },
        }
    }
}

/// LAW — last writer wins: merging a dependency payload gives every name
/// it mentions the payload's last value for that name, and leaves every
/// other name's state exactly as it was.
pub proof fn lemma_merge_last_writer_wins(d: SpecDoc, s: Seq<(Seq<char>, SpecDepValue)>, k: Seq<char>)
    ensures
        dep_value_of(apply_deps(d, s), k) == match last_value(s, k) {
            Option::Some(v) => Option::Some(v),
            Option::None => dep_value_of(d, k),
        },
    decreases s.len(),
{
    if s.len() > 0 {
        let d1 = apply_dep(d, s[0].0, s[0].1);
        lemma_merge_last_writer_wins(d1, s.drop_first(), k);
        if last_value(s.drop_first(), k) is None {
            if s[0].0 == k {
                lemma_apply_dep_sets(d, k, s[0].1);
            } else {
                lemma_apply_dep_preserves(d, s[0].0, s[0].1, k);
            }
        }
    }
}

/// The names a document binds under its dependencies section.
pub open spec fn dep_key_set(d: SpecDoc) -> Set<Seq<char>> {
    Set::new(|k: Seq<char>| dep_value_of(d, k) is Some)
}

/// The names a payload mentions.
pub open spec fn payload_key_set(s: Seq<(Seq<char>, SpecDepValue)>) -> Set<Seq<char>> {
    Set::new(|k: Seq<char>| last_value(s, k) is Some)
}

/// LAW — merged keys are the union: after the merge, the bound names are
/// exactly the document's names together with the payload's names.
pub proof fn lemma_merge_key_union(d: SpecDoc, s: Seq<(Seq<char>, SpecDepValue)>)
    ensures
        dep_key_set(apply_deps(d, s)) == dep_key_set(d).union(payload_key_set(s)),
{
    assert forall|k: Seq<char>|
        dep_key_set(apply_deps(d, s)).contains(k) == dep_key_set(d).union(payload_key_set(s)).contains(
            k,
        ) by {
        lemma_merge_last_writer_wins(d, s, k);
    }
    assert(dep_key_set(apply_deps(d, s)) =~= dep_key_set(d).union(payload_key_set(s)));
}

/// Setting an entry in a one-component section other than the dependencies
/// section leaves every name's dependency state alone.
proof fn lemma_set_other_dep_value(d: SpecDoc, p: Seq<Seq<char>>, k0: Seq<char>, v0: Seq<char>, k: Seq<char>)
    requires
        p.len() == 1,
        p != deps_path(),
    ensures
        dep_value_of(set_in_section(d, p, k0, v0), k) == dep_value_of(d, k),
{
    lemma_set_in_section_sec_at(d, p, k0, v0, deps_path());
    assert(deps_path().push(k).len() == 2);
    lemma_set_in_section_sec_at(d, p, k0, v0, deps_path().push(k));
}

/// Pinning the toolchain dependency gives it its wildcard entry and leaves
/// every other name's dependency state alone.
proof fn lemma_pin_toolchain_dep_value(d: SpecDoc, k: Seq<char>)
    ensures
        dep_value_of(set_in_section(d, deps_path(), toolchain_dep_key(), wildcard_val()), k)
            == if k == toolchain_dep_key() {
            Option::Some(SpecDepValue::Simple(wildcard_val()))
        } else {
            dep_value_of(d, k)
        },
{
    let r = set_in_section(d, deps_path(), toolchain_dep_key(), wildcard_val());
    lemma_set_in_section_establishes(d, deps_path(), toolchain_dep_key(), wildcard_val());
    if k != toolchain_dep_key() {
        assert(deps_path().push(k) != deps_path()) by {
            assert(deps_path().push(k).len() == 2);
        }
        lemma_set_in_section_sec_at(d, deps_path(), toolchain_dep_key(), wildcard_val(), deps_path().push(k));
        lemma_find_path_props(d.sections, deps_path(), 0);
        match find_path(d.sections, deps_path()) {
            Option::Some(j) => {
                lemma_set_entry_key_pair(d.sections[j].entries, toolchain_dep_key(), wildcard_val(), k);
                lemma_update_sec_at(
                    d.sections,
                    j,
                    set_entry(d.sections[j].entries, toolchain_dep_key(), wildcard_val()),
                    deps_path(),
                );
            },
            Option::None => {
                lemma_push_sec_at(
                    d.sections,
                    SpecSection { path: deps_path(), entries: seq![(toolchain_dep_key(), wildcard_val())] },
                    deps_path(),
                );
                lemma_find_key_props(seq![(toolchain_dep_key(), wildcard_val())], k, 0);
            },
        }
    }
}

/// LAW — what synthesis binds: every name the payload mentions carries the
/// payload's last value for it; the toolchain's own dependency, unless the
/// payload overrides it, is pinned to the wildcard version; every other
/// name keeps exactly the state the manifest already had.
pub proof fn lemma_synthesis_dependencies(d: SpecDoc, s: Seq<(Seq<char>, SpecDepValue)>, k: Seq<char>)
    ensures
        dep_value_of(synth_spec(d, s), k) == match last_value(s, k) {
            Option::Some(v) => Option::Some(v),
            Option::None => if k == toolchain_dep_key() {
                Option::Some(SpecDepValue::Simple(wildcard_val()))
            } else {
                dep_value_of(d, k)
            },
        },
{
    lemma_lib_deps_distinct();
    let a1 = set_in_section(d, lib_path(), crate_type_key(), crate_type_val());
    assert(lib_path().len() == 1);
    lemma_set_other_dep_value(d, lib_path(), crate_type_key(), crate_type_val(), k);
    let b1 = set_in_section(a1, deps_path(), toolchain_dep_key(), wildcard_val());
    lemma_pin_toolchain_dep_value(a1, k);
    lemma_merge_last_writer_wins(b1, s, k);
}

/// LAW — the names synthesis binds: the manifest's own names, the
/// toolchain dependency, and the payload's names, and nothing else.
pub proof fn lemma_synthesis_key_set(d: SpecDoc, s: Seq<(Seq<char>, SpecDepValue)>)
    ensures
        dep_key_set(synth_spec(d, s)) == dep_key_set(d).insert(toolchain_dep_key()).union(
            payload_key_set(s),
        ),
{
    assert forall|k: Seq<char>|
        dep_key_set(synth_spec(d, s)).contains(k) == dep_key_set(d).insert(
            toolchain_dep_key(),
        ).union(payload_key_set(s)).contains(k) by {
        lemma_synthesis_dependencies(d, s, k);
    }
    assert(dep_key_set(synth_spec(d, s)) =~= dep_key_set(d).insert(toolchain_dep_key()).union(
        payload_key_set(s),
    ));
}

/// LAW — synthesis defaults: whatever the manifest held before, the
/// synthesized document's library section carries the canonical
/// artifact-kind entry, and with an empty payload its dependencies section
/// carries the toolchain's own pinned dependency.
pub proof fn lemma_synthesis_defaults(d: SpecDoc)
    ensures
        entry_stable(synth_spec(d, Seq::empty()), lib_path(), crate_type_key(), crate_type_val()),
        entry_stable(synth_spec(d, Seq::empty()), deps_path(), toolchain_dep_key(), wildcard_val()),
{
    lemma_lib_deps_distinct();
    let a1 = set_in_section(d, lib_path(), crate_type_key(), crate_type_val());
    lemma_set_in_section_establishes(d, lib_path(), crate_type_key(), crate_type_val());
    lemma_set_in_section_establishes(a1, deps_path(), toolchain_dep_key(), wildcard_val());
    lemma_set_in_section_preserves(
        a1,
        deps_path(),
        toolchain_dep_key(),
        wildcard_val(),
        lib_path(),
        crate_type_key(),
        crate_type_val(),
    );
}

/// Removing an absent key changes nothing.
proof fn lemma_remove_key_id(es: Seq<(Seq<char>, Seq<char>)>, k: Seq<char>)
    requires
        key_pair(es, k) is None,
    ensures
        remove_key(es, k) == es,
    decreases es.len(),
{
    lemma_find_key_props(es, k, 0);
    if es.len() > 0 {
        lemma_key_pair_cons(es, k);
        lemma_remove_key_id(es.drop_first(), k);
        assert(seq![es[0]] + es.drop_first() =~= es);
    } else {
        assert(remove_key(es, k) =~= es);
    }
}

/// Dropping sections under an absent prefix changes nothing.
proof fn lemma_remove_prefix_id(ss: Seq<SpecSection>, pre: Seq<Seq<char>>)
    requires
        forall|i: int| 0 <= i < ss.len() ==> !path_has_prefix((#[trigger] ss[i]).path, pre),
    ensures
        remove_prefix(ss, pre) == ss,
    decreases ss.len(),
{
    if ss.len() > 0 {
        assert(forall|i: int| 0 <= i < ss.drop_first().len() ==> ss.drop_first()[i] == ss[i + 1]);
        lemma_remove_prefix_id(ss.drop_first(), pre);
        assert(seq![ss[0]] + ss.drop_first() =~= ss);
    } else {
        assert(remove_prefix(ss, pre) =~= ss);
    }
}

/// Dropping absent strictly-deeper sections changes nothing.
proof fn lemma_remove_deeper_id(ss: Seq<SpecSection>, pre: Seq<Seq<char>>)
    requires
        forall|i: int| 0 <= i < ss.len() ==> !(path_has_prefix((#[trigger] ss[i]).path, pre)
            && ss[i].path.len() > pre.len()),
    ensures
        remove_deeper(ss, pre) == ss,
    decreases ss.len(),
{
    if ss.len() > 0 {
        assert(forall|i: int| 0 <= i < ss.drop_first().len() ==> ss.drop_first()[i] == ss[i + 1]);
        lemma_remove_deeper_id(ss.drop_first(), pre);
        assert(seq![ss[0]] + ss.drop_first() =~= ss);
    } else {
        assert(remove_deeper(ss, pre) =~= ss);
    }
}

/// After the prefix removal no prefixed section remains, and every kept
/// section was already there.
proof fn lemma_remove_prefix_clears(ss: Seq<SpecSection>, pre: Seq<Seq<char>>)
    ensures
        forall|i: int| 0 <= i < remove_prefix(ss, pre).len() ==> !path_has_prefix(
            (#[trigger] remove_prefix(ss, pre)[i]).path,
            pre,
        ),
        forall|i: int| 0 <= i < remove_prefix(ss, pre).len() ==> exists|j: int|
            0 <= j < ss.len() && (#[trigger] remove_prefix(ss, pre)[i]) == ss[j],
    decreases ss.len(),
{
    if ss.len() > 0 {
        lemma_remove_prefix_clears(ss.drop_first(), pre);
        let r = remove_prefix(ss, pre);
        let rd = remove_prefix(ss.drop_first(), pre);
        if path_has_prefix(ss[0].path, pre) {
            assert forall|i: int| 0 <= i < r.len() implies exists|j: int|
                0 <= j < ss.len() && (#[trigger] r[i]) == ss[j] by {
                let j = choose|j: int| 0 <= j < ss.drop_first().len() && rd[i] == ss.drop_first()[j];
                assert(r[i] == ss[j + 1]);
            }
        } else {
            assert(r == seq![ss[0]] + rd);
            assert forall|i: int| 0 <= i < r.len() implies exists|j: int|
                0 <= j < ss.len() && (#[trigger] r[i]) == ss[j] by {
                if i == 0 {
                    assert(r[0] == ss[0]);
                } else {
                    let j = choose|j: int|
                        0 <= j < ss.drop_first().len() && rd[i - 1] == ss.drop_first()[j];
                    assert(r[i] == ss[j + 1]);
                }
            }
            assert(forall|i: int| 1 <= i < r.len() ==> (#[trigger] r[i]) == rd[i - 1]);
        }
    }
}

/// After the deeper removal no strictly-deeper section remains, and every
/// kept section was already there.
proof fn lemma_remove_deeper_clears(ss: Seq<SpecSection>, pre: Seq<Seq<char>>)
    ensures
        forall|i: int| 0 <= i < remove_deeper(ss, pre).len() ==> !(path_has_prefix(
            (#[trigger] remove_deeper(ss, pre)[i]).path,
            pre,
        ) && remove_deeper(ss, pre)[i].path.len() > pre.len()),
        forall|i: int| 0 <= i < remove_deeper(ss, pre).len() ==> exists|j: int|
            0 <= j < ss.len() && (#[trigger] remove_deeper(ss, pre)[i]) == ss[j],
    decreases ss.len(),
{
    if ss.len() > 0 {
        lemma_remove_deeper_clears(ss.drop_first(), pre);
        let r = remove_deeper(ss, pre);
        let rd = remove_deeper(ss.drop_first(), pre);
        if path_has_prefix(ss[0].path, pre) && ss[0].path.len() > pre.len() {
            assert forall|i: int| 0 <= i < r.len() implies exists|j: int|
                0 <= j < ss.len() && (#[trigger] r[i]) == ss[j] by {
                let j = choose|j: int| 0 <= j < ss.drop_first().len() && rd[i] == ss.drop_first()[j];
                assert(r[i] == ss[j + 1]);
            }
        } else {
            assert(r == seq![ss[0]] + rd);
            assert forall|i: int| 0 <= i < r.len() implies exists|j: int|
                0 <= j < ss.len() && (#[trigger] r[i]) == ss[j] by {
                if i == 0 {
                    assert(r[0] == ss[0]);
                } else {
                    let j = choose|j: int|
                        0 <= j < ss.drop_first().len() && rd[i - 1] == ss.drop_first()[j];
                    assert(r[i] == ss[j + 1]);
                }
            }
            assert(forall|i: int| 1 <= i < r.len() ==> (#[trigger] r[i]) == rd[i - 1]);
        }
    }
}

/// Replacing a section's entries makes its path hold exactly them.
proof fn lemma_replace_establishes(d: SpecDoc, p: Seq<Seq<char>>, es: Seq<(Seq<char>, Seq<char>)>)
    ensures
        sec_at(replace_section(d, p, es).sections, p) matches Option::Some(sec) && sec.path == p
            && sec.entries == es,
{
    lemma_find_path_props(d.sections, p, 0);
    let r = replace_section(d, p, es);
    match find_path(d.sections, p) {
        Option::Some(j) => {
            assert(forall|t: int| 0 <= t < j ==> (#[trigger] r.sections[t]).path != p);
            lemma_find_path_unique(r.sections, p, 0, j);
        },
        Option::None => {
            assert(forall|t: int| 0 <= t < d.sections.len() ==> (#[trigger] r.sections[t]).path != p);
            lemma_find_path_unique(r.sections, p, 0, d.sections.len() as int);
        },
    }
}

/// Replacing one section leaves every other path's first section alone.
proof fn lemma_replace_sec_at(d: SpecDoc, p: Seq<Seq<char>>, es: Seq<(Seq<char>, Seq<char>)>, p2: Seq<Seq<char>>)
    requires
        p2 != p,
    ensures
        sec_at(replace_section(d, p, es).sections, p2) == sec_at(d.sections, p2),
{
    lemma_find_path_props(d.sections, p, 0);
    match find_path(d.sections, p) {
        Option::Some(j) => {
            lemma_update_sec_at(d.sections, j, es, p2);
        },
        Option::None => {
            lemma_push_sec_at(d.sections, SpecSection { path: p, entries: es }, p2);
            lemma_find_path_props(d.sections, p2, 0);
        },
    }
}

/// Setting an entry in one section leaves every other path's first section
/// alone, and touches only that key within its own section.
proof fn lemma_set_in_section_sec_at(
    d: SpecDoc,
    p: Seq<Seq<char>>,
    k: Seq<char>,
    v: Seq<char>,
    p2: Seq<Seq<char>>,
)
    requires
        p2 != p,
    ensures
        sec_at(set_in_section(d, p, k, v).sections, p2) == sec_at(d.sections, p2),
{
    lemma_find_path_props(d.sections, p, 0);
    match find_path(d.sections, p) {
        Option::Some(j) => {
            lemma_update_sec_at(d.sections, j, set_entry(d.sections[j].entries, k, v), p2);
        },
        Option::None => {
            lemma_push_sec_at(d.sections, SpecSection { path: p, entries: seq![(k, v)] }, p2);
            lemma_find_path_props(d.sections, p2, 0);
        },
    }
}

/// Removing a key in one section leaves every other path's first section
/// alone.
proof fn lemma_remove_in_section_sec_at(d: SpecDoc, p: Seq<Seq<char>>, k: Seq<char>, p2: Seq<Seq<char>>)
    requires
        p2 != p,
    ensures
        sec_at(remove_in_section(d, p, k).sections, p2) == sec_at(d.sections, p2),
{
    lemma_find_path_props(d.sections, p, 0);
    match find_path(d.sections, p) {
        Option::Some(j) => {
            lemma_update_sec_at(d.sections, j, remove_key(d.sections[j].entries, k), p2);
        },
        Option::None => {},
    }
}

/// The state one merged dependency leaves and relies on: its own value in
/// canonical position, and no other representation of its name.
pub open spec fn item_stable(d: SpecDoc, k: Seq<char>, v: SpecDepValue) -> bool {
    match v {
        SpecDepValue::Simple(t) => {
            &&& entry_stable(d, deps_path(), k, t)
            &&& forall|i: int| 0 <= i < d.sections.len() ==> !path_has_prefix(
                (#[trigger] d.sections[i]).path,
                deps_path().push(k),
            )
        },
        SpecDepValue::Table(es) => {
            &&& match sec_at(d.sections, deps_path()) {
                Option::Some(sec) => key_pair(sec.entries, k) is None,
                Option::None => true,
            }
            &&& forall|i: int| 0 <= i < d.sections.len() ==> !(path_has_prefix(
                (#[trigger] d.sections[i]).path,
                deps_path().push(k),
            ) && d.sections[i].path.len() > 2)
            &&& (sec_at(d.sections, deps_path().push(k)) matches Option::Some(sub) && sub.path
                == deps_path().push(k) && sub.entries == es)
        },
    }
}

/// Merging a dependency whose state is already canonical changes nothing.
proof fn lemma_apply_dep_noop(d: SpecDoc, k: Seq<char>, v: SpecDepValue)
    requires
        item_stable(d, k, v),
    ensures
        apply_dep(d, k, v) == d,
{
    lemma_sub_paths(k, k);
    match v {
        SpecDepValue::Simple(t) => {
            lemma_remove_prefix_id(d.sections, deps_path().push(k));
            let d1 = SpecDoc { root: d.root, sections: remove_prefix(d.sections, deps_path().push(k)) };
            assert(d1 =~~= d);
            lemma_set_in_section_noop(d, deps_path(), k, t);
        },
        SpecDepValue::Table(es) => {
            lemma_find_path_props(d.sections, deps_path(), 0);
            let d1 = remove_in_section(d, deps_path(), k);
            match find_path(d.sections, deps_path()) {
                Option::Some(j) => {
                    lemma_remove_key_id(d.sections[j].entries, k);
                    assert(d.sections.update(
                        j,
                        SpecSection { path: d.sections[j].path, entries: d.sections[j].entries },
                    ) =~= d.sections);
                    assert(d1 =~~= d);
                },
                Option::None => {},
            }
            assert(d1 == d);
            assert forall|i: int| 0 <= i < d.sections.len() implies !(path_has_prefix(
                (#[trigger] d.sections[i]).path,
                deps_path().push(k),
            ) && d.sections[i].path.len() > deps_path().push(k).len()) by {
                assert(deps_path().push(k).len() == 2);
            }
            lemma_remove_deeper_id(d.sections, deps_path().push(k));
            let d2 = SpecDoc { root: d.root, sections: remove_deeper(d.sections, deps_path().push(k)) };
            assert(d2 =~~= d);
            lemma_find_path_props(d.sections, deps_path().push(k), 0);
            let j2 = find_path(d.sections, deps_path().push(k))->Some_0;
            assert(d.sections.update(
                j2,
                SpecSection { path: d.sections[j2].path, entries: es },
            ) =~= d.sections);
            assert(replace_section(d, deps_path().push(k), es) =~~= d);
        },
    }
}

/// Merging a dependency leaves its state canonical.
proof fn lemma_apply_dep_establishes(d: SpecDoc, k: Seq<char>, v: SpecDepValue)
    ensures
        item_stable(apply_dep(d, k, v), k, v),
{
    lemma_sub_paths(k, k);
    match v {
        SpecDepValue::Simple(t) => {
            let d1 = SpecDoc { root: d.root, sections: remove_prefix(d.sections, deps_path().push(k)) };
            lemma_remove_prefix_clears(d.sections, deps_path().push(k));
            lemma_set_in_section_establishes(d1, deps_path(), k, t);
            let r = set_in_section(d1, deps_path(), k, t);
            lemma_find_path_props(d1.sections, deps_path(), 0);
            assert forall|i: int| 0 <= i < r.sections.len() implies !path_has_prefix(
                (#[trigger] r.sections[i]).path,
                deps_path().push(k),
            ) by {
                match find_path(d1.sections, deps_path()) {
                    Option::Some(j) => {
                        assert(r.sections[i].path == d1.sections[i].path);
                    },
                    Option::None => {
                        if i < d1.sections.len() {
                            assert(r.sections[i] == d1.sections[i]);
                        } else {
                            assert(r.sections[i].path == deps_path());
                        }
                    },
                }
            }
        },
        SpecDepValue::Table(es) => {
            let d1 = remove_in_section(d, deps_path(), k);
            let d2 = SpecDoc { root: d1.root, sections: remove_deeper(d1.sections, deps_path().push(k)) };
            let r = replace_section(d2, deps_path().push(k), es);
            lemma_find_path_props(d.sections, deps_path(), 0);
            // the dependencies section, if any, lost its `k` entry
            match find_path(d.sections, deps_path()) {
                Option::Some(j) => {
                    lemma_remove_key_pairs(d.sections[j].entries, k, k);
                    lemma_update_sec_at(d.sections, j, remove_key(d.sections[j].entries, k), deps_path());
                },
                Option::None => {
                    lemma_find_path_props(d1.sections, deps_path(), 0);
                },
            }
            lemma_remove_deeper_sec_at(d1.sections, deps_path().push(k), deps_path());
            lemma_replace_sec_at(d2, deps_path().push(k), es, deps_path());
            // no strictly-deeper section is left
            lemma_remove_deeper_clears(d1.sections, deps_path().push(k));
            lemma_find_path_props(d2.sections, deps_path().push(k), 0);
            assert forall|i: int| 0 <= i < r.sections.len() implies !(path_has_prefix(
                (#[trigger] r.sections[i]).path,
                deps_path().push(k),
            ) && r.sections[i].path.len() > 2) by {
                match find_path(d2.sections, deps_path().push(k)) {
                    Option::Some(j2) => {
                        assert(r.sections[i].path == d2.sections[i].path);
                        assert(deps_path().push(k).len() == 2);
                    },
                    Option::None => {
                        if i < d2.sections.len() {
                            assert(r.sections[i] == d2.sections[i]);
                            assert(deps_path().push(k).len() == 2);
                        } else {
                            assert(r.sections[i].path == deps_path().push(k));
                        }
                    },
                }
            }
            lemma_replace_establishes(d2, deps_path().push(k), es);
        },
    }
}

/// Merging one dependency leaves every other name's canonical state alone.
proof fn lemma_apply_dep_keeps_item(d: SpecDoc, k: Seq<char>, v: SpecDepValue, k2: Seq<char>, v2: SpecDepValue)
    requires
        item_stable(d, k2, v2),
        k2 != k,
    ensures
        item_stable(apply_dep(d, k, v), k2, v2),
{
    lemma_sub_paths(k, k2);
    lemma_sub_paths(k2, k);
    let sub_k = deps_path().push(k);
    let sub_k2 = deps_path().push(k2);
    match v {
        SpecDepValue::Simple(t) => {
            let d1 = SpecDoc { root: d.root, sections: remove_prefix(d.sections, sub_k) };
            lemma_remove_prefix_sec_at(d.sections, sub_k, deps_path());
            lemma_remove_prefix_sec_at(d.sections, sub_k, sub_k2);
            lemma_remove_prefix_clears(d.sections, sub_k);
            let r = set_in_section(d1, deps_path(), k, t);
            lemma_set_in_section_sec_at(d1, deps_path(), k, t, sub_k2);
            lemma_find_path_props(d1.sections, deps_path(), 0);
            // the dependencies section keeps every other key's first entry
            match find_path(d1.sections, deps_path()) {
                Option::Some(j) => {
                    lemma_set_entry_key_pair(d1.sections[j].entries, k, t, k2);
                    lemma_update_sec_at(d1.sections, j, set_entry(d1.sections[j].entries, k, t), deps_path());
                },
                Option::None => {
                    lemma_push_sec_at(
                        d1.sections,
                        SpecSection { path: deps_path(), entries: seq![(k, t)] },
                        deps_path(),
                    );
                    lemma_find_key_props(seq![(k, t)], k2, 0);
                },
            }
            // section-shape facts for the other name survive
            assert forall|i: int| 0 <= i < d1.sections.len() implies exists|j: int|
                0 <= j < d.sections.len() && (#[trigger] d1.sections[i]).path == d.sections[j].path by {
                let j = choose|j: int| 0 <= j < d.sections.len() && d1.sections[i] == d.sections[j];
                assert(d1.sections[i].path == d.sections[j].path);
            }
            lemma_keeps_shape_after(d, d1.sections, r.sections, k, k2, v2);
        },
        SpecDepValue::Table(es) => {
            let d1 = remove_in_section(d, deps_path(), k);
            lemma_find_path_props(d.sections, deps_path(), 0);
            match find_path(d.sections, deps_path()) {
                Option::Some(j) => {
                    lemma_remove_key_pairs(d.sections[j].entries, k, k2);
                    lemma_update_sec_at(d.sections, j, remove_key(d.sections[j].entries, k), deps_path());
                    lemma_update_sec_at(d.sections, j, remove_key(d.sections[j].entries, k), sub_k2);
                },
                Option::None => {},
            }
            let d2 = SpecDoc { root: d1.root, sections: remove_deeper(d1.sections, sub_k) };
            lemma_remove_deeper_sec_at(d1.sections, sub_k, deps_path());
            lemma_remove_deeper_sec_at(d1.sections, sub_k, sub_k2);
            lemma_remove_deeper_clears(d1.sections, sub_k);
            let r = replace_section(d2, sub_k, es);
            lemma_replace_sec_at(d2, sub_k, es, deps_path());
            lemma_replace_sec_at(d2, sub_k, es, sub_k2);
            assert(forall|i: int| 0 <= i < d1.sections.len() ==> (#[trigger] d1.sections[i]).path
                == d.sections[i].path);
            assert forall|i: int| 0 <= i < d2.sections.len() implies exists|j: int|
                0 <= j < d.sections.len() && (#[trigger] d2.sections[i]).path == d.sections[j].path by {
                let j = choose|j: int| 0 <= j < d1.sections.len() && d2.sections[i] == d1.sections[j];
                assert(d2.sections[i].path == d.sections[j].path);
            }
            lemma_find_path_props(d2.sections, sub_k, 0);
            match find_path(d2.sections, sub_k) {
                Option::Some(j2) => {
                    assert(r.sections.len() == d2.sections.len());
                    assert(forall|i: int| 0 <= i < d2.sections.len() ==> (#[trigger] r.sections[i]).path
                        == d2.sections[i].path);
                },
                Option::None => {
                    assert(r.sections.len() == d2.sections.len() + 1);
                    assert(r.sections.last().path == sub_k);
                    assert(forall|i: int| 0 <= i < d2.sections.len() ==> (#[trigger] r.sections[i]).path
                        == d2.sections[i].path);
                },
            }
            lemma_keeps_shape_after(d, d2.sections, r.sections, k, k2, v2);
        },
    }
}

/// The quantified section-shape facts of `item_stable` carried through one
/// merge: sections in the result are either kept sections or the merge's
/// own additions, whose paths never fall under the other name.
proof fn lemma_keeps_shape_after(
    d: SpecDoc,
    mid: Seq<SpecSection>,
    out: Seq<SpecSection>,
    k: Seq<char>,
    k2: Seq<char>,
    v2: SpecDepValue,
)
    requires
        k2 != k,
        item_stable(d, k2, v2),
        // every mid section's path is a path of d
        forall|i: int| 0 <= i < mid.len() ==> exists|j: int|
            0 <= j < d.sections.len() && (#[trigger] mid[i]).path == d.sections[j].path,
        // the result changes mid only by an update keeping its path, or by
        // pushing a section whose path is the dependencies section or the
        // merged name's own sub-path
        out.len() == mid.len() || out.len() == mid.len() + 1,
        forall|i: int| 0 <= i < mid.len() ==> (#[trigger] out[i]).path == mid[i].path,
        out.len() == mid.len() + 1 ==> out.last().path == deps_path() || out.last().path
            == deps_path().push(k),
    ensures
        match v2 {
            SpecDepValue::Simple(_) => forall|i: int| 0 <= i < out.len() ==> !path_has_prefix(
                (#[trigger] out[i]).path,
                deps_path().push(k2),
            ),
            SpecDepValue::Table(_) => forall|i: int| 0 <= i < out.len() ==> !(path_has_prefix(
                (#[trigger] out[i]).path,
                deps_path().push(k2),
            ) && out[i].path.len() > 2),
        },
{
    lemma_sub_paths(k, k2);
    lemma_sub_paths(k2, k);
    let sub_k2 = deps_path().push(k2);
    match v2 {
        SpecDepValue::Simple(_) => {
            assert forall|i: int| 0 <= i < out.len() implies !path_has_prefix(
                (#[trigger] out[i]).path,
                sub_k2,
            ) by {
                if i < mid.len() {
                    let j = choose|j: int|
                        0 <= j < d.sections.len() && mid[i].path == d.sections[j].path;
                    assert(!path_has_prefix(d.sections[j].path, sub_k2));
                    assert(out[i].path == d.sections[j].path);
                } else {
                    assert(out[i] == out.last());
                    assert(deps_path().len() == 1);
                }
            }
        },
        SpecDepValue::Table(_) => {
            assert forall|i: int| 0 <= i < out.len() implies !(path_has_prefix(
                (#[trigger] out[i]).path,
                sub_k2,
            ) && out[i].path.len() > 2) by {
                if i < mid.len() {
                    let j = choose|j: int|
                        0 <= j < d.sections.len() && mid[i].path == d.sections[j].path;
                    assert(!(path_has_prefix(d.sections[j].path, sub_k2) && d.sections[j].path.len()
                        > 2));
                    assert(out[i].path == d.sections[j].path);
                } else {
                    assert(out[i] == out.last());
                    assert(deps_path().len() == 1);
                    assert(deps_path().push(k).len() == 2);
                }
            }
        },
    }
}

/// Merging one dependency leaves an unrelated held entry alone.
proof fn lemma_apply_dep_keeps_entry(
    d: SpecDoc,
    k: Seq<char>,
    v: SpecDepValue,
    p2: Seq<Seq<char>>,
    k2: Seq<char>,
    v2: Seq<char>,
)
    requires
        entry_stable(d, p2, k2, v2),
        !path_has_prefix(p2, deps_path().push(k)),
        p2 != deps_path().push(k),
        p2 == deps_path() ==> k2 != k,
    ensures
        entry_stable(apply_dep(d, k, v), p2, k2, v2),
{
    let sub_k = deps_path().push(k);
    match v {
        SpecDepValue::Simple(t) => {
            let d1 = SpecDoc { root: d.root, sections: remove_prefix(d.sections, sub_k) };
            lemma_remove_prefix_sec_at(d.sections, sub_k, p2);
            lemma_find_path_props(d1.sections, deps_path(), 0);
            if p2 == deps_path() {
                match find_path(d1.sections, deps_path()) {
                    Option::Some(j) => {
                        lemma_set_entry_key_pair(d1.sections[j].entries, k, t, k2);
                        lemma_update_sec_at(d1.sections, j, set_entry(d1.sections[j].entries, k, t), p2);
                    },
                    Option::None => {},
                }
            } else {
                lemma_set_in_section_sec_at(d1, deps_path(), k, t, p2);
            }
        },
        SpecDepValue::Table(es) => {
            let d1 = remove_in_section(d, deps_path(), k);
            lemma_find_path_props(d.sections, deps_path(), 0);
            if p2 == deps_path() {
                match find_path(d.sections, deps_path()) {
                    Option::Some(j) => {
                        lemma_remove_key_pairs(d.sections[j].entries, k, k2);
                        lemma_update_sec_at(d.sections, j, remove_key(d.sections[j].entries, k), p2);
                    },
                    Option::None => {},
                }
            } else {
                lemma_remove_in_section_sec_at(d, deps_path(), k, p2);
            }
            let d2 = SpecDoc { root: d1.root, sections: remove_deeper(d1.sections, sub_k) };
            lemma_remove_deeper_sec_at(d1.sections, sub_k, p2);
            lemma_replace_sec_at(d2, sub_k, es, p2);
        },
    }
}

/// Removing a key distributes over concatenation.
proof fn lemma_remove_key_concat(a: Seq<(Seq<char>, Seq<char>)>, b: Seq<(Seq<char>, Seq<char>)>, k: Seq<char>)
    ensures
        remove_key(a + b, k) == remove_key(a, k) + remove_key(b, k),
    decreases a.len(),
{
    if a.len() == 0 {
        assert(a + b =~= b);
        assert(remove_key(a, k) + remove_key(b, k) =~= remove_key(b, k));
    } else {
        lemma_remove_key_concat(a.drop_first(), b, k);
        assert((a + b).drop_first() =~= a.drop_first() + b);
        assert((a + b)[0] == a[0]);
        if a[0].0 != k {
            assert(seq![a[0]] + (remove_key(a.drop_first(), k) + remove_key(b, k)) =~= (seq![a[0]]
                + remove_key(a.drop_first(), k)) + remove_key(b, k));
        }
    }
}

/// The dependencies section, once present, survives one merge.
proof fn lemma_apply_dep_keeps_deps_sec(d: SpecDoc, k: Seq<char>, v: SpecDepValue)
    requires
        sec_at(d.sections, deps_path()) is Some,
    ensures
        sec_at(apply_dep(d, k, v).sections, deps_path()) is Some,
{
    lemma_sub_paths(k, k);
    match v {
        SpecDepValue::Simple(t) => {
            let d1 = SpecDoc { root: d.root, sections: remove_prefix(d.sections, deps_path().push(k)) };
            lemma_set_in_section_establishes(d1, deps_path(), k, t);
        },
        SpecDepValue::Table(es) => {
            let d1 = remove_in_section(d, deps_path(), k);
            lemma_find_path_props(d.sections, deps_path(), 0);
            match find_path(d.sections, deps_path()) {
                Option::Some(j) => {
                    lemma_update_sec_at(d.sections, j, remove_key(d.sections[j].entries, k), deps_path());
                },
                Option::None => {},
            }
            let d2 = SpecDoc { root: d1.root, sections: remove_deeper(d1.sections, deps_path().push(k)) };
            lemma_remove_deeper_sec_at(d1.sections, deps_path().push(k), deps_path());
            lemma_replace_sec_at(d2, deps_path().push(k), es, deps_path());
        },
    }
}

/// Pinning the toolchain dependency leaves every other name's canonical
/// state alone.
proof fn lemma_set_wb_keeps_item(d: SpecDoc, k2: Seq<char>, v2: SpecDepValue)
    requires
        item_stable(d, k2, v2),
        k2 != toolchain_dep_key(),
    ensures
        item_stable(
            set_in_section(d, deps_path(), toolchain_dep_key(), wildcard_val()),
            k2,
            v2,
        ),
{
    let r = set_in_section(d, deps_path(), toolchain_dep_key(), wildcard_val());
    lemma_find_path_props(d.sections, deps_path(), 0);
    assert(deps_path().push(k2) != deps_path()) by {
        assert(deps_path().push(k2).len() == 2);
    }
    lemma_set_in_section_sec_at(d, deps_path(), toolchain_dep_key(), wildcard_val(), deps_path().push(k2));
    match find_path(d.sections, deps_path()) {
        Option::Some(j) => {
            lemma_set_entry_key_pair(d.sections[j].entries, toolchain_dep_key(), wildcard_val(), k2);
            lemma_update_sec_at(
                d.sections,
                j,
                set_entry(d.sections[j].entries, toolchain_dep_key(), wildcard_val()),
                deps_path(),
            );
            assert(forall|i: int| 0 <= i < r.sections.len() ==> (#[trigger] r.sections[i]).path
                == d.sections[i].path);
        },
        Option::None => {
            lemma_push_sec_at(
                d.sections,
                SpecSection { path: deps_path(), entries: seq![(toolchain_dep_key(), wildcard_val())] },
                deps_path(),
            );
            lemma_find_key_props(seq![(toolchain_dep_key(), wildcard_val())], k2, 0);
            assert(forall|i: int| 0 <= i < d.sections.len() ==> (#[trigger] r.sections[i]).path
                == d.sections[i].path);
            assert(r.sections.last().path == deps_path());
            assert(deps_path().len() == 1);
        },
    }
}

/// Re-merging the toolchain name's own payload value over a freshly reset
/// pin restores the document exactly.
proof fn lemma_restore_wb(d: SpecDoc, v: SpecDepValue)
    requires
        item_stable(d, toolchain_dep_key(), v),
        sec_at(d.sections, deps_path()) is Some,
    ensures
        apply_dep(
            set_in_section(d, deps_path(), toolchain_dep_key(), wildcard_val()),
            toolchain_dep_key(),
            v,
        ) == d,
{
    let wb = toolchain_dep_key();
    let jd = find_path(d.sections, deps_path())->Some_0;
    lemma_find_path_props(d.sections, deps_path(), 0);
    let es_d = d.sections[jd].entries;
    lemma_sub_paths(wb, wb);
    match v {
        SpecDepValue::Simple(t) => {
            lemma_find_key_props(es_d, wb, 0);
            let i = find_key(es_d, wb)->Some_0;
            let es_b = es_d.update(i, (wb, wildcard_val()));
            assert(set_in_section(d, deps_path(), wb, wildcard_val()).sections =~= d.sections.update(
                jd,
                SpecSection { path: d.sections[jd].path, entries: es_b },
            ));
            let bs = d.sections.update(jd, SpecSection { path: d.sections[jd].path, entries: es_b });
            let bd = SpecDoc { root: d.root, sections: bs };
            assert(set_in_section(d, deps_path(), wb, wildcard_val()) =~~= bd);
            // no sub-section of the toolchain name exists before or after
            assert(forall|t2: int| 0 <= t2 < bs.len() ==> (#[trigger] bs[t2]).path == d.sections[t2].path);
            lemma_remove_prefix_id(bs, deps_path().push(wb));
            let b1 = SpecDoc { root: bd.root, sections: remove_prefix(bd.sections, deps_path().push(wb)) };
            assert(b1 =~~= bd);
            // setting the payload value back lands on the same position
            lemma_find_path_unique(bs, deps_path(), 0, jd);
            lemma_find_key_unique(es_b, wb, 0, i);
            assert(set_entry(es_b, wb, t) =~= es_d);
            assert(set_in_section(b1, deps_path(), wb, t).sections =~= d.sections);
            assert(apply_dep(bd, wb, v) =~~= d);
        },
        SpecDepValue::Table(es) => {
            lemma_find_key_props(es_d, wb, 0);
            let es_b = es_d.push((wb, wildcard_val()));
            let bs = d.sections.update(jd, SpecSection { path: d.sections[jd].path, entries: es_b });
            let bd = SpecDoc { root: d.root, sections: bs };
            assert(set_in_section(d, deps_path(), wb, wildcard_val()) =~~= bd);
            assert(forall|t2: int| 0 <= t2 < bs.len() ==> (#[trigger] bs[t2]).path == d.sections[t2].path);
            // removing the toolchain entry undoes the reset pin
            lemma_find_path_unique(bs, deps_path(), 0, jd);
            lemma_remove_key_concat(es_d, seq![(wb, wildcard_val())], wb);
            lemma_remove_key_id(es_d, wb);
            assert(remove_key(seq![(wb, wildcard_val())], wb) =~= Seq::<(Seq<char>, Seq<char>)>::empty()) by {
                assert(seq![(wb, wildcard_val())].drop_first() =~= Seq::<(Seq<char>, Seq<char>)>::empty());
                assert(remove_key(Seq::<(Seq<char>, Seq<char>)>::empty(), wb) =~= Seq::<(
                    Seq<char>,
                    Seq<char>,
                )>::empty());
            }
            assert(es_d + seq![(wb, wildcard_val())] =~= es_b);
            assert(remove_key(es_b, wb) =~= es_d);
            let d1 = remove_in_section(bd, deps_path(), wb);
            assert(d1.sections =~= d.sections) by {
                assert(bs.update(jd, SpecSection { path: bs[jd].path, entries: remove_key(es_b, wb) })
                    =~= d.sections);
            }
            assert(d1 =~~= SpecDoc { root: d.root, sections: d.sections });
            // the deeper removal and the in-place replacement change nothing
            assert(forall|t2: int| 0 <= t2 < d.sections.len() ==> !(path_has_prefix(
                (#[trigger] d.sections[t2]).path,
                deps_path().push(wb),
            ) && d.sections[t2].path.len() > deps_path().push(wb).len())) by {
                assert(deps_path().push(wb).len() == 2);
            }
            lemma_remove_deeper_id(d.sections, deps_path().push(wb));
            let d2 = SpecDoc { root: d1.root, sections: remove_deeper(d1.sections, deps_path().push(wb)) };
            assert(d2 =~~= SpecDoc { root: d.root, sections: d.sections });
            lemma_find_path_props(d.sections, deps_path().push(wb), 0);
            let js = find_path(d.sections, deps_path().push(wb))->Some_0;
            assert(d.sections.update(js, SpecSection { path: d.sections[js].path, entries: es })
                =~= d.sections);
            assert(apply_dep(bd, wb, v) =~~= d);
        },
    }
}

/// Whether a payload never mentions a name.
pub open spec fn keys_missing(s: Seq<(Seq<char>, SpecDepValue)>, k: Seq<char>) -> bool {
    forall|i: int| 0 <= i < s.len() ==> (#[trigger] s[i]).0 != k
}

/// Whether a payload's names are pairwise distinct.
pub open spec fn distinct_keys(s: Seq<(Seq<char>, SpecDepValue)>) -> bool {
    forall|i: int, j: int| 0 <= i < j < s.len() ==> (#[trigger] s[i]).0 != (#[trigger] s[j]).0
}

/// A whole merge leaves an unmentioned name's canonical state alone.
proof fn lemma_apply_deps_keeps_item(d: SpecDoc, s: Seq<(Seq<char>, SpecDepValue)>, k: Seq<char>, v: SpecDepValue)
    requires
        item_stable(d, k, v),
        keys_missing(s, k),
    ensures
        item_stable(apply_deps(d, s), k, v),
    decreases s.len(),
{
    if s.len() > 0 {
        lemma_apply_dep_keeps_item(d, s[0].0, s[0].1, k, v);
        assert(forall|i: int| 0 <= i < s.drop_first().len() ==> s.drop_first()[i] == s[i + 1]);
        lemma_apply_deps_keeps_item(apply_dep(d, s[0].0, s[0].1), s.drop_first(), k, v);
    }
}

/// A whole merge leaves an unrelated held entry alone.
proof fn lemma_apply_deps_keeps_entry(
    d: SpecDoc,
    s: Seq<(Seq<char>, SpecDepValue)>,
    p2: Seq<Seq<char>>,
    k2: Seq<char>,
    v2: Seq<char>,
)
    requires
        entry_stable(d, p2, k2, v2),
        p2 == lib_path() || p2 == deps_path(),
        p2 == deps_path() ==> keys_missing(s, k2),
    ensures
        entry_stable(apply_deps(d, s), p2, k2, v2),
    decreases s.len(),
{
    if s.len() > 0 {
        lemma_lib_deps_distinct();
        lemma_sub_paths(s[0].0, s[0].0);
        assert(!path_has_prefix(p2, deps_path().push(s[0].0))) by {
            assert(deps_path().push(s[0].0).len() == 2);
            assert(p2.len() == 1);
        }
        assert(p2 != deps_path().push(s[0].0)) by {
            assert(p2.len() == 1);
        }
        lemma_apply_dep_keeps_entry(d, s[0].0, s[0].1, p2, k2, v2);
        assert(forall|i: int| 0 <= i < s.drop_first().len() ==> s.drop_first()[i] == s[i + 1]);
        lemma_apply_deps_keeps_entry(apply_dep(d, s[0].0, s[0].1), s.drop_first(), p2, k2, v2);
    }
}

/// After a merge of pairwise-distinct names, every merged item's state is
/// canonical.
proof fn lemma_apply_deps_all_stable(d: SpecDoc, s: Seq<(Seq<char>, SpecDepValue)>)
    requires
        distinct_keys(s),
    ensures
        forall|i: int| 0 <= i < s.len() ==> item_stable(apply_deps(d, s), (#[trigger] s[i]).0, s[i].1),
    decreases s.len(),
{
    if s.len() > 0 {
        let d1 = apply_dep(d, s[0].0, s[0].1);
        lemma_apply_dep_establishes(d, s[0].0, s[0].1);
        assert(forall|i: int| 0 <= i < s.drop_first().len() ==> s.drop_first()[i] == s[i + 1]);
        assert(keys_missing(s.drop_first(), s[0].0));
        lemma_apply_deps_keeps_item(d1, s.drop_first(), s[0].0, s[0].1);
        lemma_apply_deps_all_stable(d1, s.drop_first());
        assert forall|i: int| 0 <= i < s.len() implies item_stable(
            apply_deps(d, s),
            (#[trigger] s[i]).0,
            s[i].1,
        ) by {
            if i > 0 {
                assert(s[i] == s.drop_first()[i - 1]);
            }
        }
    }
}

/// The dependencies section, once present, survives a whole merge.
proof fn lemma_apply_deps_keeps_deps_sec(d: SpecDoc, s: Seq<(Seq<char>, SpecDepValue)>)
    requires
        sec_at(d.sections, deps_path()) is Some,
    ensures
        sec_at(apply_deps(d, s).sections, deps_path()) is Some,
    decreases s.len(),
{
    if s.len() > 0 {
        lemma_apply_dep_keeps_deps_sec(d, s[0].0, s[0].1);
        assert(forall|i: int| 0 <= i < s.drop_first().len() ==> s.drop_first()[i] == s[i + 1]);
        lemma_apply_deps_keeps_deps_sec(apply_dep(d, s[0].0, s[0].1), s.drop_first());
    }
}

/// When a payload of pairwise-distinct names, each already canonical in the
/// document, names the toolchain dependency itself, then resetting the pin
/// and re-merging the payload restores the document exactly.
proof fn lemma_apply_deps_restore(d: SpecDoc, s: Seq<(Seq<char>, SpecDepValue)>)
    requires
        distinct_keys(s),
        forall|i: int| 0 <= i < s.len() ==> item_stable(d, (#[trigger] s[i]).0, s[i].1),
        !keys_missing(s, toolchain_dep_key()),
        sec_at(d.sections, deps_path()) is Some,
    ensures
        apply_deps(
            set_in_section(d, deps_path(), toolchain_dep_key(), wildcard_val()),
            s,
        ) == d,
    decreases s.len(),
{
    let wb = toolchain_dep_key();
    let b = set_in_section(d, deps_path(), wb, wildcard_val());
    assert(s.len() > 0) by {
        if s.len() == 0 {
            assert(keys_missing(s, wb));
        }
    }
    assert(forall|i: int| 0 <= i < s.drop_first().len() ==> s.drop_first()[i] == s[i + 1]);
    if s[0].0 == wb {
        lemma_restore_wb(d, s[0].1);
        assert(keys_missing(s.drop_first(), wb)) by {
            assert(forall|i: int| 0 <= i < s.drop_first().len() ==> (#[trigger] s.drop_first()[i]).0
                != wb);
        }
        lemma_apply_deps_noop(d, s.drop_first());
    } else {
        lemma_set_wb_keeps_item(d, s[0].0, s[0].1);
        lemma_apply_dep_noop(b, s[0].0, s[0].1);
        assert(!keys_missing(s.drop_first(), wb)) by {
            let m = choose|m: int| 0 <= m < s.len() && (#[trigger] s[m]).0 == wb;
            assert(m >= 1);
            assert(s.drop_first()[m - 1].0 == wb);
        }
        lemma_apply_deps_restore(d, s.drop_first());
        assert(apply_deps(b, s) == apply_deps(apply_dep(b, s[0].0, s[0].1), s.drop_first()));
    }
}

/// Merging a payload whose every item is already canonical changes nothing.
proof fn lemma_apply_deps_noop(d: SpecDoc, s: Seq<(Seq<char>, SpecDepValue)>)
    requires
        forall|i: int| 0 <= i < s.len() ==> item_stable(d, (#[trigger] s[i]).0, s[i].1),
    ensures
        apply_deps(d, s) == d,
    decreases s.len(),
{
    if s.len() > 0 {
        lemma_apply_dep_noop(d, s[0].0, s[0].1);
        assert(forall|i: int| 0 <= i < s.drop_first().len() ==> s.drop_first()[i] == s[i + 1]);
        lemma_apply_deps_noop(d, s.drop_first());
    }
}

/// LAW — synthesis is idempotent: with the dependency payload unchanged
/// and its names pairwise distinct, running synthesis twice yields exactly
/// the document the first run produced.  A payload entry for the
/// toolchain's own dependency is covered: the second run's reset of the
/// pin is overwritten in place by the re-merge.
pub proof fn lemma_synthesis_idempotent(d: SpecDoc, s: Seq<(Seq<char>, SpecDepValue)>)
    requires
        distinct_keys(s),
    ensures
        synth_spec(synth_spec(d, s), s) == synth_spec(d, s),
{
    lemma_lib_deps_distinct();
    let a1 = set_in_section(d, lib_path(), crate_type_key(), crate_type_val());
    lemma_set_in_section_establishes(d, lib_path(), crate_type_key(), crate_type_val());
    let b1 = set_in_section(a1, deps_path(), toolchain_dep_key(), wildcard_val());
    lemma_set_in_section_establishes(a1, deps_path(), toolchain_dep_key(), wildcard_val());
    lemma_set_in_section_preserves(
        a1,
        deps_path(),
        toolchain_dep_key(),
        wildcard_val(),
        lib_path(),
        crate_type_key(),
        crate_type_val(),
    );
    let full = apply_deps(b1, s);
    lemma_apply_deps_keeps_entry(b1, s, lib_path(), crate_type_key(), crate_type_val());
    lemma_apply_deps_all_stable(b1, s);
    // the second run: the library setting is already canonical
    lemma_set_in_section_noop(full, lib_path(), crate_type_key(), crate_type_val());
    if keys_missing(s, toolchain_dep_key()) {
        lemma_apply_deps_keeps_entry(b1, s, deps_path(), toolchain_dep_key(), wildcard_val());
        lemma_set_in_section_noop(full, deps_path(), toolchain_dep_key(), wildcard_val());
        lemma_apply_deps_noop(full, s);
    } else {
        lemma_apply_deps_keeps_deps_sec(b1, s);
        lemma_apply_deps_restore(full, s);
    }
}

/// Setting a well-formed entry keeps a document well-formed.
proof fn lemma_set_in_section_wf(d: SpecDoc, p: Seq<Seq<char>>, k: Seq<char>, v: Seq<char>)
    requires
        wf_doc(d),
        wf_path(p),
        wf_key(k),
        wf_val(v),
    ensures
        wf_doc(set_in_section(d, p, k, v)),
{
    lemma_find_path_props(d.sections, p, 0);
    let r = set_in_section(d, p, k, v);
    match find_path(d.sections, p) {
        Option::Some(j) => {
            let es = d.sections[j].entries;
            lemma_find_key_props(es, k, 0);
            assert(wf_entries(set_entry(es, k, v))) by {
                match find_key(es, k) {
                    Option::Some(i) => {
                        assert(forall|t: int| 0 <= t < es.len() && t != i ==> es.update(i, (k, v))[t]
                            == es[t]);
                    },
                    Option::None => {
                        assert(forall|t: int| 0 <= t < es.len() ==> es.push((k, v))[t] == es[t]);
                    },
                }
            }
            assert(forall|t: int| 0 <= t < r.sections.len() && t != j ==> r.sections[t]
                == d.sections[t]);
        },
        Option::None => {
            assert(wf_entries(seq![(k, v)]));
            assert(forall|t: int| 0 <= t < d.sections.len() ==> r.sections[t] == d.sections[t]);
        },
    }
}

/// The canonical keys, values and paths synthesis writes are well formed.
proof fn lemma_canonical_wf()
    ensures
        wf_path(lib_path()),
        wf_path(deps_path()),
        wf_key(crate_type_key()),
        wf_val(crate_type_val()),
        wf_key(toolchain_dep_key()),
        wf_val(wildcard_val()),
{
    reveal_strlit("lib");
    reveal_strlit("dependencies");
    reveal_strlit("crate-type");
    reveal_strlit("[\"cdylib\"]");
    reveal_strlit("wasm-bindgen");
    reveal_strlit("\"*\"");
    assert(wf_comp("lib"@));
    assert(wf_comp("dependencies"@));
    assert(bracket_delta(crate_type_val()) == 0) by {
        reveal_with_fuel(crate::text::bracket_delta, 12);
    }
    assert(bracket_delta(wildcard_val()) == 0) by {
        reveal_with_fuel(crate::text::bracket_delta, 5);
    }
}

/// A well-formed dependency payload: well-formed names, values and
/// sub-table entries.
pub open spec fn wf_payload_values(s: Seq<(Seq<char>, SpecDepValue)>) -> bool {
    forall|i: int| 0 <= i < s.len() ==> wf_key((#[trigger] s[i]).0) && match s[i].1 {
        SpecDepValue::Simple(t) => wf_val(t),
        SpecDepValue::Table(es) => wf_entries(es) && wf_comp(s[i].0),
    }
}

/// Removing a key keeps an entry list well-formed.
proof fn lemma_remove_key_wf(es: Seq<(Seq<char>, Seq<char>)>, k: Seq<char>)
    requires
        wf_entries(es),
    ensures
        wf_entries(remove_key(es, k)),
    decreases es.len(),
{
    if es.len() > 0 {
        assert(forall|i: int| 0 <= i < es.drop_first().len() ==> es.drop_first()[i] == es[i + 1]);
        lemma_remove_key_wf(es.drop_first(), k);
        if es[0].0 != k {
            let r = seq![es[0]] + remove_key(es.drop_first(), k);
            assert forall|i: int| 0 <= i < r.len() implies wf_key((#[trigger] r[i]).0) && wf_val(
                r[i].1,
            ) by {
                if i > 0 {
                    assert(r[i] == remove_key(es.drop_first(), k)[i - 1]);
                }
            }
        }
    }
}

/// Merging one well-formed dependency keeps a document well-formed.
proof fn lemma_apply_dep_wf(d: SpecDoc, k: Seq<char>, v: SpecDepValue)
    requires
        wf_doc(d),
        wf_key(k),
        match v {
            SpecDepValue::Simple(t) => wf_val(t),
            SpecDepValue::Table(es) => wf_entries(es) && wf_comp(k),
        },
    ensures
        wf_doc(apply_dep(d, k, v)),
{
    lemma_canonical_wf();
    let sub_k = deps_path().push(k);
    match v {
        SpecDepValue::Simple(t) => {
            lemma_remove_prefix_clears(d.sections, sub_k);
            let d1 = SpecDoc { root: d.root, sections: remove_prefix(d.sections, sub_k) };
            assert(wf_doc(d1)) by {
                assert forall|i: int| 0 <= i < d1.sections.len() implies wf_section(
                    #[trigger] d1.sections[i],
                ) by {
                    let j = choose|j: int|
                        0 <= j < d.sections.len() && d1.sections[i] == d.sections[j];
                    assert(wf_section(d.sections[j]));
                }
            }
            lemma_set_in_section_wf(d1, deps_path(), k, t);
        },
        SpecDepValue::Table(es) => {
            let d1 = remove_in_section(d, deps_path(), k);
            lemma_find_path_props(d.sections, deps_path(), 0);
            assert(wf_doc(d1)) by {
                match find_path(d.sections, deps_path()) {
                    Option::Some(j) => {
                        lemma_remove_key_wf(d.sections[j].entries, k);
                        assert(forall|i: int| 0 <= i < d1.sections.len() && i != j
                            ==> (#[trigger] d1.sections[i]) == d.sections[i]);
                    },
                    Option::None => {},
                }
            }
            lemma_remove_deeper_clears(d1.sections, sub_k);
            let d2 = SpecDoc { root: d1.root, sections: remove_deeper(d1.sections, sub_k) };
            assert(wf_doc(d2)) by {
                assert forall|i: int| 0 <= i < d2.sections.len() implies wf_section(
                    #[trigger] d2.sections[i],
                ) by {
                    let j = choose|j: int|
                        0 <= j < d1.sections.len() && d2.sections[i] == d1.sections[j];
                    assert(wf_section(d1.sections[j]));
                }
            }
            let r = replace_section(d2, sub_k, es);
            lemma_find_path_props(d2.sections, sub_k, 0);
            assert(wf_path(sub_k)) by {
                assert(sub_k[0] == "dependencies"@);
                assert(sub_k[1] == k);
            }
            assert(wf_doc(r)) by {
                match find_path(d2.sections, sub_k) {
                    Option::Some(j2) => {
                        assert(forall|i: int| 0 <= i < r.sections.len() && i != j2
                            ==> (#[trigger] r.sections[i]) == d2.sections[i]);
                    },
                    Option::None => {
                        assert(forall|i: int| 0 <= i < d2.sections.len()
                            ==> (#[trigger] r.sections[i]) == d2.sections[i]);
                    },
                }
            }
        },
    }
}

/// Merging a well-formed payload keeps a document well-formed.
proof fn lemma_apply_deps_wf(d: SpecDoc, s: Seq<(Seq<char>, SpecDepValue)>)
    requires
        wf_doc(d),
        wf_payload_values(s),
    ensures
        wf_doc(apply_deps(d, s)),
    decreases s.len(),
{
    if s.len() > 0 {
        lemma_apply_dep_wf(d, s[0].0, s[0].1);
        assert(forall|i: int| 0 <= i < s.drop_first().len() ==> s.drop_first()[i] == s[i + 1]);
        lemma_apply_deps_wf(apply_dep(d, s[0].0, s[0].1), s.drop_first());
    }
}

/// Synthesis with a well-formed payload keeps a document well-formed.
pub proof fn lemma_synth_wf(d: SpecDoc, s: Seq<(Seq<char>, SpecDepValue)>)
    requires
        wf_doc(d),
        wf_payload_values(s),
    ensures
        wf_doc(synth_spec(d, s)),
{
    lemma_canonical_wf();
    lemma_set_in_section_wf(d, lib_path(), crate_type_key(), crate_type_val());
    let a1 = set_in_section(d, lib_path(), crate_type_key(), crate_type_val());
    lemma_set_in_section_wf(a1, deps_path(), toolchain_dep_key(), wildcard_val());
    lemma_apply_deps_wf(set_in_section(a1, deps_path(), toolchain_dep_key(), wildcard_val()), s);
}

/// LAW — re-synthesis is byte-identical: serializing a synthesized
/// manifest, parsing that text back and synthesizing again with the same
/// payload writes exactly the same text, provided the payload is
/// well-formed and names its dependencies once each.
pub proof fn lemma_resynthesis_byte_identical(d: SpecDoc, s: Seq<(Seq<char>, SpecDepValue)>)
    requires
        wf_doc(d),
        wf_payload_values(s),
        distinct_keys(s),
    ensures
        parse_doc(ser_doc(synth_spec(d, s))) == Option::Some(synth_spec(d, s)),
        ser_doc(synth_spec(parse_doc(ser_doc(synth_spec(d, s)))->Some_0, s)) == ser_doc(
            synth_spec(d, s),
        ),
{
    lemma_synth_wf(d, s);
    lemma_parse_of_serialized(synth_spec(d, s));
    lemma_synthesis_idempotent(d, s);
}



/// The document after a run of entry lines.
pub open spec fn apply_entries(d: SpecDoc, es: Seq<(Seq<char>, Seq<char>)>) -> SpecDoc
    decreases es.len(),
{
    if es.len() == 0 {
        d
    } else {
        apply_entries(append_entry(d, es[0]), es.drop_first())
    }
}

/// The document after one whole serialized section.
pub open spec fn apply_section_doc(d: SpecDoc, sec: SpecSection) -> SpecDoc {
    apply_entries(push_section(d, sec.path), sec.entries)
}

/// The document after a run of serialized sections.
pub open spec fn apply_sections_doc(d: SpecDoc, ss: Seq<SpecSection>) -> SpecDoc
    decreases ss.len(),
{
    if ss.len() == 0 {
        d
    } else {
        apply_sections_doc(apply_section_doc(d, ss[0]), ss.drop_first())
    }
}

/// Parsing consumes one whole line at a time.
proof fn lemma_parse_line_step(d: SpecDoc, line: Seq<char>, rest: Seq<char>)
    requires
        forall|i: int| 0 <= i < line.len() ==> line[i] != '\n',
    ensures
        parse_from_spec(d, line + seq!['\n'] + rest) == match apply_line(d, line) {
            Option::Some(d2) => parse_from_spec(d2, rest),
            Option::None => Option::None::<SpecDoc>,
        },
{
    let s = line + seq!['\n'] + rest;
    assert(s[line.len() as int] == '\n');
    assert(forall|t: int| 0 <= t < line.len() ==> s[t] == line[t]);
    lemma_find_unique(s, '\n', 0, line.len() as int);
    assert(s.subrange(0, line.len() as int) =~= line);
    assert(s.subrange(line.len() as int + 1, s.len() as int) =~= rest);
}

/// A serialized entry line parses back to exactly its entry.
proof fn lemma_apply_entry_line(d: SpecDoc, k: Seq<char>, v: Seq<char>)
    requires
        wf_key(k),
        wf_val(v),
    ensures
        apply_line(d, k + seq![' ', '=', ' '] + v) == Option::Some(append_entry(d, (k, v))),
{
    let line = k + seq![' ', '=', ' '] + v;
    let t = if v.len() > 0 {
        line
    } else {
        k + seq![' ', '=']
    };
    if v.len() > 0 {
        assert(line[0] == k[0]);
        assert(line[line.len() - 1] == v[v.len() - 1]);
        lemma_trimmed_fixed(line);
    } else {
        assert(line =~= k + seq![' ', '=', ' ']);
        assert(line[0] == k[0]);
        lemma_trim_front_range(line, 0);
        assert(trim_front(line) =~= line);
        assert(line[line.len() - 1] == ' ');
        assert(line[line.len() - 2] == '=');
        lemma_trim_back_range(line, line.len() - 1);
        assert(trimmed(line) =~= line.subrange(0, line.len() - 1));
        assert(line.subrange(0, line.len() - 1) =~= t);
    }
    assert(trimmed(line) == t);
    assert(t[0] == k[0]);
    assert(t.len() > 0);
    assert(t[0] != '#' && t[0] != '[');
    // the first `=` sits right after the key and its following space
    let j = k.len() as int + 1;
    assert(t[j] == '=');
    assert(forall|i: int| 0 <= i < k.len() ==> t[i] == k[i]);
    assert(t[k.len() as int] == ' ');
    lemma_find_unique(t, '=', 0, j);
    assert(0 <= j < t.len());
    // the key side trims back to the key
    let kp = t.subrange(0, j);
    assert(kp =~= k + seq![' ']);
    lemma_trim_front_range(kp, 0);
    assert(trim_front(kp) =~= kp);
    lemma_trim_back_range(kp, k.len() as int);
    assert(trimmed(kp) =~= k);
    // the value side trims front to the value
    let vp = t.subrange(j + 1, t.len() as int);
    if v.len() > 0 {
        assert(vp =~= seq![' '] + v);
        assert(vp[0] == ' ');
        assert(vp[1] == v[0]);
        lemma_trim_front_range(vp, 1);
        assert(trim_front(vp) =~= v);
        lemma_trim_back_range(v, v.len() as int);
        assert(trimmed(vp) =~= v);
    } else {
        assert(vp =~= Seq::<char>::empty());
        assert(trimmed(vp) =~= v);
    }
    assert(trimmed(kp) == k && trimmed(vp) == v);
    assert(k.len() > 0);
}

/// A run of serialized entry lines parses back to exactly those entries.
proof fn lemma_parse_entries(d: SpecDoc, es: Seq<(Seq<char>, Seq<char>)>, rest: Seq<char>)
    requires
        wf_entries(es),
    ensures
        parse_from_spec(d, ser_entries(es) + rest) == parse_from_spec(apply_entries(d, es), rest),
    decreases es.len(),
{
    if es.len() == 0 {
        assert(ser_entries(es) + rest =~= rest);
    } else {
        let e = es[0];
        let line = e.0 + seq![' ', '=', ' '] + e.1;
        assert(wf_key(e.0) && wf_val(e.1));
        assert(ser_entry(e) =~= line + seq!['\n']);
        assert(ser_entries(es) + rest =~= line + seq!['\n'] + (ser_entries(es.drop_first()) + rest));
        assert forall|i: int| 0 <= i < line.len() implies line[i] != '\n' by {
            if i < e.0.len() {
                assert(line[i] == e.0[i]);
            } else if i < e.0.len() + 3 {
                assert(line[i] == seq![' ', '=', ' '][i - e.0.len()]);
            } else {
                assert(line[i] == e.1[i - e.0.len() - 3]);
            }
        }
        lemma_parse_line_step(d, line, ser_entries(es.drop_first()) + rest);
        lemma_apply_entry_line(d, e.0, e.1);
        assert forall|i: int| 0 <= i < es.drop_first().len() implies wf_key(
            (#[trigger] es.drop_first()[i]).0,
        ) && wf_val(es.drop_first()[i].1) by {
            assert(es.drop_first()[i] == es[i + 1]);
            assert(wf_key(es[i + 1].0) && wf_val(es[i + 1].1));
        }
        lemma_parse_entries(append_entry(d, e), es.drop_first(), rest);
    }
}

/// No character of a serialized path is a line feed.
pub proof fn lemma_ser_path_no_newline(p: Seq<Seq<char>>)
    requires
        wf_path(p),
    ensures
        forall|i: int| 0 <= i < ser_path(p).len() ==> ser_path(p)[i] != '\n',
    decreases p.len(),
{
    if p.len() <= 1 {
    } else {
        assert(wf_path(p.drop_first())) by {
            assert(forall|i: int| 0 <= i < p.drop_first().len() ==> p.drop_first()[i] == p[i + 1]);
        }
        lemma_ser_path_no_newline(p.drop_first());
        let s = ser_path(p);
        assert(s =~= p[0] + seq!['.'] + ser_path(p.drop_first()));
        assert forall|i: int| 0 <= i < s.len() implies s[i] != '\n' by {
            if i < p[0].len() {
                assert(s[i] == p[0][i]);
            } else if i == p[0].len() {
                assert(s[i] == '.');
            } else {
                assert(s[i] == ser_path(p.drop_first())[i - p[0].len() - 1]);
            }
        }
    }
}

/// A serialized path parses back to exactly its components.
proof fn lemma_parse_path_ser(p: Seq<Seq<char>>)
    requires
        wf_path(p),
    ensures
        parse_path_spec(ser_path(p)) == Option::Some(p),
        ser_path(p).len() > 0,
    decreases p.len(),
{
    if p.len() == 1 {
        let s = ser_path(p);
        assert(s == p[0]);
        lemma_find_none(s, '.', 0);
        lemma_trimmed_fixed(s);
        assert(seq![s] =~= p);
    } else {
        let s = ser_path(p);
        assert(s =~= p[0] + seq!['.'] + ser_path(p.drop_first()));
        let j = p[0].len() as int;
        assert(s[j] == '.');
        assert(forall|i: int| 0 <= i < j ==> s[i] == p[0][i]);
        lemma_find_unique(s, '.', 0, j);
        assert(s.subrange(0, j) =~= p[0]);
        lemma_trimmed_fixed(p[0]);
        assert(wf_path(p.drop_first())) by {
            assert(forall|i: int| 0 <= i < p.drop_first().len() ==> p.drop_first()[i] == p[i + 1]);
        }
        lemma_parse_path_ser(p.drop_first());
        assert(s.subrange(j + 1, s.len() as int) =~= ser_path(p.drop_first()));
        assert(seq![p[0]] + p.drop_first() =~= p);
    }
}

/// A serialized header line parses back to exactly its section opening.
pub proof fn lemma_apply_header_line(d: SpecDoc, p: Seq<Seq<char>>)
    requires
        wf_path(p),
    ensures
        apply_line(d, seq!['['] + ser_path(p) + seq![']']) == Option::Some(push_section(d, p)),
{
    lemma_parse_path_ser(p);
    let line = seq!['['] + ser_path(p) + seq![']'];
    assert(line[0] == '[');
    assert(line[line.len() - 1] == ']');
    lemma_trimmed_fixed(line);
    assert(trimmed(line) == line);
    assert(line.len() >= 2);
    assert(line.subrange(1, line.len() - 1) =~= ser_path(p));
}

/// Entry lines land in the root when no section is open.
pub proof fn lemma_apply_entries_root(d: SpecDoc, es: Seq<(Seq<char>, Seq<char>)>)
    requires
        d.sections.len() == 0,
    ensures
        apply_entries(d, es) == (SpecDoc { root: d.root + es, sections: d.sections }),
    decreases es.len(),
{
    if es.len() == 0 {
        assert(d.root + es =~= d.root);
        assert(apply_entries(d, es) =~~= SpecDoc { root: d.root + es, sections: d.sections });
    } else {
        let d1 = append_entry(d, es[0]);
        lemma_apply_entries_root(d1, es.drop_first());
        assert(d.root.push(es[0]) + es.drop_first() =~= d.root + es);
        assert(apply_entries(d, es) =~~= SpecDoc { root: d.root + es, sections: d.sections });
    }
}

/// Entry lines land in the last open section.
pub proof fn lemma_apply_entries_last(d: SpecDoc, es: Seq<(Seq<char>, Seq<char>)>)
    requires
        d.sections.len() > 0,
    ensures
        apply_entries(d, es) == (SpecDoc {
            root: d.root,
            sections: d.sections.update(
                d.sections.len() - 1,
                SpecSection {
                    path: d.sections.last().path,
                    entries: d.sections.last().entries + es,
                },
            ),
        }),
    decreases es.len(),
{
    let n = d.sections.len() - 1;
    if es.len() == 0 {
        assert(d.sections.last().entries + es =~= d.sections.last().entries);
        assert(d.sections.update(n, SpecSection { path: d.sections.last().path, entries: d.sections.last().entries + es }) =~~= d.sections);
        assert(apply_entries(d, es) =~~= SpecDoc {
            root: d.root,
            sections: d.sections.update(
                n,
                SpecSection { path: d.sections.last().path, entries: d.sections.last().entries + es },
            ),
        });
    } else {
        let d1 = append_entry(d, es[0]);
        assert(d1.sections.len() == d.sections.len());
        assert(d1.sections.last() =~~= SpecSection {
            path: d.sections.last().path,
            entries: d.sections.last().entries.push(es[0]),
        });
        lemma_apply_entries_last(d1, es.drop_first());
        assert(d.sections.last().entries.push(es[0]) + es.drop_first() =~= d.sections.last().entries
            + es);
        assert(d1.sections.update(
            n,
            SpecSection {
                path: d1.sections.last().path,
                entries: d1.sections.last().entries + es.drop_first(),
            },
        ) =~~= d.sections.update(
            n,
            SpecSection { path: d.sections.last().path, entries: d.sections.last().entries + es },
        ));
        assert(apply_entries(d, es) =~~= SpecDoc {
            root: d.root,
            sections: d.sections.update(
                n,
                SpecSection { path: d.sections.last().path, entries: d.sections.last().entries + es },
            ),
        });
    }
}

/// One serialized section appends exactly itself.
pub proof fn lemma_apply_section(d: SpecDoc, sec: SpecSection)
    ensures
        apply_section_doc(d, sec) == (SpecDoc { root: d.root, sections: d.sections.push(sec) }),
{
    let d1 = push_section(d, sec.path);
    lemma_apply_entries_last(d1, sec.entries);
    assert(d1.sections.last() =~~= SpecSection { path: sec.path, entries: Seq::empty() });
    assert(Seq::<(Seq<char>, Seq<char>)>::empty() + sec.entries =~= sec.entries);
    assert(d1.sections.update(d1.sections.len() - 1, SpecSection { path: sec.path, entries: sec.entries })
        =~~= d.sections.push(sec));
    assert(apply_section_doc(d, sec) =~~= SpecDoc { root: d.root, sections: d.sections.push(sec) });
}

/// A run of serialized sections appends exactly those sections.
pub proof fn lemma_apply_sections_concat(d: SpecDoc, ss: Seq<SpecSection>)
    ensures
        apply_sections_doc(d, ss) == (SpecDoc { root: d.root, sections: d.sections + ss }),
    decreases ss.len(),
{
    if ss.len() == 0 {
        assert(d.sections + ss =~= d.sections);
        assert(apply_sections_doc(d, ss) =~~= SpecDoc { root: d.root, sections: d.sections + ss });
    } else {
        lemma_apply_section(d, ss[0]);
        let d1 = apply_section_doc(d, ss[0]);
        lemma_apply_sections_concat(d1, ss.drop_first());
        assert(d.sections.push(ss[0]) + ss.drop_first() =~= d.sections + ss);
        assert(apply_sections_doc(d, ss) =~~= SpecDoc { root: d.root, sections: d.sections + ss });
    }
}

/// Serialized sections parse back to exactly those sections.
proof fn lemma_parse_sections(d: SpecDoc, ss: Seq<SpecSection>, rest: Seq<char>)
    requires
        forall|i: int| 0 <= i < ss.len() ==> wf_section(#[trigger] ss[i]),
    ensures
        parse_from_spec(d, ser_sections(ss) + rest) == parse_from_spec(apply_sections_doc(d, ss), rest),
    decreases ss.len(),
{
    if ss.len() == 0 {
        assert(ser_sections(ss) + rest =~= rest);
    } else {
        let s0 = ss[0];
        let header = seq!['['] + ser_path(s0.path) + seq![']'];
        assert(ser_section(s0) =~= header + seq!['\n'] + ser_entries(s0.entries));
        assert(ser_sections(ss) + rest =~= header + seq!['\n'] + (ser_entries(s0.entries) + (ser_sections(
            ss.drop_first(),
        ) + rest)));
        lemma_ser_path_no_newline(s0.path);
        assert forall|i: int| 0 <= i < header.len() implies header[i] != '\n' by {
            if i == 0 {
                assert(header[i] == '[');
            } else if i < header.len() - 1 {
                assert(header[i] == ser_path(s0.path)[i - 1]);
            } else {
                assert(header[i] == ']');
            }
        }
        lemma_parse_line_step(d, header, ser_entries(s0.entries) + (ser_sections(ss.drop_first()) + rest));
        lemma_apply_header_line(d, s0.path);
        let d1 = push_section(d, s0.path);
        lemma_parse_entries(d1, s0.entries, ser_sections(ss.drop_first()) + rest);
        assert(forall|i: int| 0 <= i < ss.drop_first().len() ==> ss.drop_first()[i] == ss[i + 1]);
        lemma_parse_sections(apply_entries(d1, s0.entries), ss.drop_first(), rest);
    }
}

/// No character of a serialized path is a bracket.
pub proof fn lemma_ser_path_bracket_free(p: Seq<Seq<char>>)
    requires
        wf_path(p),
    ensures
        forall|i: int| 0 <= i < ser_path(p).len() ==> ser_path(p)[i] != '[' && ser_path(p)[i] != ']',
    decreases p.len(),
{
    if p.len() <= 1 {
    } else {
        assert(wf_path(p.drop_first())) by {
            assert(forall|i: int| 0 <= i < p.drop_first().len() ==> p.drop_first()[i] == p[i + 1]);
        }
        lemma_ser_path_bracket_free(p.drop_first());
        let s = ser_path(p);
        assert(s =~= p[0] + seq!['.'] + ser_path(p.drop_first()));
        assert forall|i: int| 0 <= i < s.len() implies s[i] != '[' && s[i] != ']' by {
            if i < p[0].len() {
                assert(s[i] == p[0][i]);
            } else if i == p[0].len() {
                assert(s[i] == '.');
            } else {
                assert(s[i] == ser_path(p.drop_first())[i - p[0].len() - 1]);
            }
        }
    }
}

/// The serialized entries of a well-formed document are bracket-neutral
/// and untouched by the joining pass.
proof fn lemma_join_ser_entries(es: Seq<(Seq<char>, Seq<char>)>)
    requires
        wf_entries(es),
    ensures
        join_from(ser_entries(es), 0) == ser_entries(es),
        bracket_delta(ser_entries(es)) == 0,
    decreases es.len(),
{
    if es.len() == 0 {
        assert(join_from(ser_entries(es), 0) =~= ser_entries(es));
    } else {
        let e = es[0];
        let line = e.0 + seq![' ', '=', ' '] + e.1;
        assert(wf_key(e.0) && wf_val(e.1));
        assert forall|i: int| 0 <= i < line.len() implies line[i] != '\n' by {
            if i < e.0.len() {
                assert(line[i] == e.0[i]);
            } else if i < e.0.len() + 3 {
                assert(line[i] == seq![' ', '=', ' '][i - e.0.len()]);
            } else {
                assert(line[i] == e.1[i - e.0.len() - 3]);
            }
        }
        assert(bracket_delta(line) == 0) by {
            lemma_bracket_free_delta(e.0);
            lemma_bracket_free_delta(seq![' ', '=', ' ']);
            lemma_bracket_delta_concat(e.0, seq![' ', '=', ' ']);
            lemma_bracket_delta_concat(e.0 + seq![' ', '=', ' '], e.1);
        }
        assert(wf_entries(es.drop_first())) by {
            assert forall|i: int| 0 <= i < es.drop_first().len() implies wf_key(
                (#[trigger] es.drop_first()[i]).0,
            ) && wf_val(es.drop_first()[i].1) by {
                assert(es.drop_first()[i] == es[i + 1]);
            }
        }
        lemma_join_ser_entries(es.drop_first());
        let rest = ser_entries(es.drop_first());
        let nl_rest = seq!['\n'] + rest;
        assert(ser_entries(es) =~= line + nl_rest);
        lemma_join_concat(line, nl_rest, 0);
        lemma_join_no_newline(line, 0);
        assert(join_from(nl_rest, 0) =~= seq!['\n'] + join_from(rest, 0)) by {
            assert(nl_rest[0] == '\n');
            assert(nl_rest.drop_first() =~= rest);
        }
        assert(join_from(ser_entries(es), 0) =~= ser_entries(es));
        assert(bracket_delta(ser_entries(es)) == 0) by {
            lemma_bracket_delta_concat(line, nl_rest);
            lemma_bracket_delta_concat(seq!['\n'], rest);
            lemma_bracket_free_delta(seq!['\n']);
        }
    }
}

/// The serialized sections of a well-formed document are bracket-neutral
/// and untouched by the joining pass.
proof fn lemma_join_ser_sections(ss: Seq<SpecSection>)
    requires
        forall|i: int| 0 <= i < ss.len() ==> wf_section(#[trigger] ss[i]),
    ensures
        join_from(ser_sections(ss), 0) == ser_sections(ss),
        bracket_delta(ser_sections(ss)) == 0,
    decreases ss.len(),
{
    if ss.len() == 0 {
        assert(join_from(ser_sections(ss), 0) =~= ser_sections(ss));
    } else {
        let s0 = ss[0];
        let header = seq!['['] + ser_path(s0.path) + seq![']'];
        lemma_ser_path_no_newline(s0.path);
        lemma_ser_path_bracket_free(s0.path);
        assert forall|i: int| 0 <= i < header.len() implies header[i] != '\n' by {
            if i == 0 {
                assert(header[i] == '[');
            } else if i < header.len() - 1 {
                assert(header[i] == ser_path(s0.path)[i - 1]);
            } else {
                assert(header[i] == ']');
            }
        }
        assert(bracket_delta(header) == 0) by {
            lemma_bracket_delta_single('[');
            lemma_bracket_delta_single(']');
            lemma_bracket_free_delta(ser_path(s0.path));
            lemma_bracket_delta_concat(seq!['['], ser_path(s0.path));
            lemma_bracket_delta_concat(seq!['['] + ser_path(s0.path), seq![']']);
        }
        lemma_join_ser_entries(s0.entries);
        assert(forall|i: int| 0 <= i < ss.drop_first().len() ==> ss.drop_first()[i] == ss[i + 1]);
        lemma_join_ser_sections(ss.drop_first());
        let body = ser_entries(s0.entries) + ser_sections(ss.drop_first());
        let nl_body = seq!['\n'] + body;
        assert(ser_sections(ss) =~= header + nl_body);
        lemma_join_concat(header, nl_body, 0);
        lemma_join_no_newline(header, 0);
        lemma_join_concat(ser_entries(s0.entries), ser_sections(ss.drop_first()), 0);
        assert(join_from(body, 0) =~= body);
        assert(join_from(nl_body, 0) =~= seq!['\n'] + join_from(body, 0)) by {
            assert(nl_body[0] == '\n');
            assert(nl_body.drop_first() =~= body);
        }
        assert(join_from(ser_sections(ss), 0) =~= ser_sections(ss));
        assert(bracket_delta(ser_sections(ss)) == 0) by {
            lemma_bracket_delta_concat(ser_entries(s0.entries), ser_sections(ss.drop_first()));
            lemma_bracket_delta_concat(seq!['\n'], body);
            lemma_bracket_free_delta(seq!['\n']);
            lemma_bracket_delta_concat(header, nl_body);
        }
    }
}

/// The joining pass leaves a well-formed document's canonical text alone.
pub proof fn lemma_join_ser_doc(d: SpecDoc)
    requires
        wf_doc(d),
    ensures
        join_from(ser_doc(d), 0) == ser_doc(d),
{
    lemma_join_ser_entries(d.root);
    lemma_join_ser_sections(d.sections);
    lemma_join_concat(ser_entries(d.root), ser_sections(d.sections), 0);
}

/// LAW — round trip: parsing the canonical serialization of a well-formed
/// document yields that document back, exactly.
pub proof fn lemma_parse_of_serialized(d: SpecDoc)
    requires
        wf_doc(d),
    ensures
        parse_doc(ser_doc(d)) == Option::Some(d),
{
    let empty = SpecDoc::empty();
    lemma_join_ser_doc(d);
    assert(ser_doc(d) =~= ser_entries(d.root) + (ser_sections(d.sections) + Seq::<char>::empty()));
    lemma_parse_entries(empty, d.root, ser_sections(d.sections) + Seq::<char>::empty());
    lemma_apply_entries_root(empty, d.root);
    let d1 = apply_entries(empty, d.root);
    assert(d1 == SpecDoc { root: Seq::<(Seq<char>, Seq<char>)>::empty() + d.root, sections: Seq::<SpecSection>::empty() });
    lemma_parse_sections(d1, d.sections, Seq::<char>::empty());
    lemma_apply_sections_concat(d1, d.sections);
    let d2 = apply_sections_doc(d1, d.sections);
    assert(d2 =~~= d) by {
        assert(Seq::<(Seq<char>, Seq<char>)>::empty() + d.root =~= d.root);
        assert(Seq::<SpecSection>::empty() + d.sections =~= d.sections);
    }
    lemma_find_none(Seq::<char>::empty(), '\n', 0);
    assert(trimmed(Seq::<char>::empty()) =~= Seq::<char>::empty());
    assert(parse_from_spec(d2, Seq::<char>::empty()) == Option::Some(d2));
}

} // verus!
