//! Manifest synthesis: the dependency payload model, and the rewriting of a
//! parsed manifest document.  Synthesis forces the library section's
//! artifact-kind entry to the canonical single-element list, pins the
//! toolchain's own dependency to a wildcard version, and then merges every
//! payload entry into the dependencies section, the payload winning on any
//! key collision.

use vstd::prelude::*;
use vstd::string::*;
use crate::text::str_eq_str;
use crate::config::{Pair, Section, TomlDoc, SpecSection, SpecDoc};

verus! {

/// One dependency's specification: verbatim value text, or a sub-table of
/// entries (a bracketed `[dependencies.<name>]` block).
pub enum DepValue {
    Simple(String),
    Table(Vec<Pair>),
}

/// The mathematical shape of a dependency value.
pub ghost enum SpecDepValue {
    Simple(Seq<char>),
    Table(Seq<(Seq<char>, Seq<char>)>),
}

impl View for DepValue {
    type V = SpecDepValue;

    open spec fn view(&self) -> SpecDepValue {
        match self {
            DepValue::Simple(s) => SpecDepValue::Simple(s@),
            DepValue::Table(es) => SpecDepValue::Table(es@.map_values(|p: Pair| p@)),
        }
    }
}

/// A dependency table: names with their specifications, in payload order.
pub struct DepSpec {
    pub entries: Vec<(String, DepValue)>,
}

impl View for DepSpec {
    type V = Seq<(Seq<char>, SpecDepValue)>;

    open spec fn view(&self) -> Seq<(Seq<char>, SpecDepValue)> {
        self.entries@.map_values(|e: (String, DepValue)| (e.0@, e.1@))
    }
}

impl DepSpec {
    /// The empty dependency table.
    pub fn new() -> (r: DepSpec)
        ensures
            r@ == Seq::<(Seq<char>, SpecDepValue)>::empty(),
    {
        let r = DepSpec { entries: Vec::new() };
        proof {
            assert(r@ =~= Seq::<(Seq<char>, SpecDepValue)>::empty());
        }
        r
    }
}

/// The header path of the library-settings section.
pub open spec fn lib_path() -> Seq<Seq<char>> {
    seq!["lib"@]
}

/// The header path of the dependencies section.
pub open spec fn deps_path() -> Seq<Seq<char>> {
    seq!["dependencies"@]
}

/// The artifact-kind key in the library section.
pub open spec fn crate_type_key() -> Seq<char> {
    "crate-type"@
}

/// The canonical artifact-kind value: a single-element list naming the
/// target output kind.
pub open spec fn crate_type_val() -> Seq<char> {
    "[\"cdylib\"]"@
}

/// The toolchain's own dependency name.
pub open spec fn toolchain_dep_key() -> Seq<char> {
    "wasm-bindgen"@
}

/// The wildcard version the toolchain dependency is pinned to.
pub open spec fn wildcard_val() -> Seq<char> {
    "\"*\""@
}

/// First entry with the given key, at or after `i`.
pub open spec fn find_key_from(es: Seq<(Seq<char>, Seq<char>)>, k: Seq<char>, i: int) -> Option<int>
    decreases es.len() - i,
{
    if i < 0 || i >= es.len() {
        Option::None
    } else if es[i].0 == k {
        Option::Some(i)
    } else {
        find_key_from(es, k, i + 1)
    }
}

/// First entry with the given key.
pub open spec fn find_key(es: Seq<(Seq<char>, Seq<char>)>, k: Seq<char>) -> Option<int> {
    find_key_from(es, k, 0)
}

/// The value at a key, if any (the first occurrence decides).
pub open spec fn lookup(es: Seq<(Seq<char>, Seq<char>)>, k: Seq<char>) -> Option<Seq<char>> {
    match find_key(es, k) {
        Option::Some(j) => Option::Some(es[j].1),
        Option::None => Option::None,
    }
}

/// Set a key to a value: overwrite the first occurrence, or append.
pub open spec fn set_entry(es: Seq<(Seq<char>, Seq<char>)>, k: Seq<char>, v: Seq<char>) -> Seq<(Seq<char>, Seq<char>)> {
    match find_key(es, k) {
        Option::Some(j) => es.update(j, (k, v)),
        Option::None => es.push((k, v)),
    }
}

/// Drop every entry with the given key.
pub open spec fn remove_key(es: Seq<(Seq<char>, Seq<char>)>, k: Seq<char>) -> Seq<(Seq<char>, Seq<char>)>
    decreases es.len(),
{
    if es.len() == 0 {
        Seq::empty()
    } else if es[0].0 == k {
        remove_key(es.drop_first(), k)
    } else {
        seq![es[0]] + remove_key(es.drop_first(), k)
    }
}

/// First section with the given path, at or after `i`.
pub open spec fn find_path_from(ss: Seq<SpecSection>, p: Seq<Seq<char>>, i: int) -> Option<int>
    decreases ss.len() - i,
{
    if i < 0 || i >= ss.len() {
        Option::None
    } else if ss[i].path == p {
        Option::Some(i)
    } else {
        find_path_from(ss, p, i + 1)
    }
}

/// First section with the given path.
pub open spec fn find_path(ss: Seq<SpecSection>, p: Seq<Seq<char>>) -> Option<int> {
    find_path_from(ss, p, 0)
}

/// Does `p` start with `pre`?
pub open spec fn path_has_prefix(p: Seq<Seq<char>>, pre: Seq<Seq<char>>) -> bool {
    pre.len() <= p.len() && p.subrange(0, pre.len() as int) == pre
}

/// Drop every section whose path starts with `pre`.
pub open spec fn remove_prefix(ss: Seq<SpecSection>, pre: Seq<Seq<char>>) -> Seq<SpecSection>
    decreases ss.len(),
{
    if ss.len() == 0 {
        Seq::empty()
    } else if path_has_prefix(ss[0].path, pre) {
        remove_prefix(ss.drop_first(), pre)
    } else {
        seq![ss[0]] + remove_prefix(ss.drop_first(), pre)
    }
}

/// Drop every section strictly below `pre`: prefixed by it but longer.
pub open spec fn remove_deeper(ss: Seq<SpecSection>, pre: Seq<Seq<char>>) -> Seq<SpecSection>
    decreases ss.len(),
{
    if ss.len() == 0 {
        Seq::empty()
    } else if path_has_prefix(ss[0].path, pre) && ss[0].path.len() > pre.len() {
        remove_deeper(ss.drop_first(), pre)
    } else {
        seq![ss[0]] + remove_deeper(ss.drop_first(), pre)
    }
}

/// Give the section at path `p` exactly the entries `es`, replacing it in
/// place, or appending the section when it does not exist.
pub open spec fn replace_section(d: SpecDoc, p: Seq<Seq<char>>, es: Seq<(Seq<char>, Seq<char>)>) -> SpecDoc {
    match find_path(d.sections, p) {
        Option::Some(j) => SpecDoc {
            root: d.root,
            sections: d.sections.update(j, SpecSection { path: d.sections[j].path, entries: es }),
        },
        Option::None => SpecDoc {
            root: d.root,
            sections: d.sections.push(SpecSection { path: p, entries: es }),
        },
    }
}

/// Set `k = v` inside the section at path `p`, creating the section at the
/// end of the document when it does not exist.
pub open spec fn set_in_section(d: SpecDoc, p: Seq<Seq<char>>, k: Seq<char>, v: Seq<char>) -> SpecDoc {
    match find_path(d.sections, p) {
        Option::Some(j) => SpecDoc {
            root: d.root,
            sections: d.sections.update(
                j,
                SpecSection { path: d.sections[j].path, entries: set_entry(d.sections[j].entries, k, v) },
            ),
        },
        Option::None => SpecDoc {
            root: d.root,
            sections: d.sections.push(SpecSection { path: p, entries: seq![(k, v)] }),
        },
    }
}

/// Drop the entry `k` from the section at path `p`, if that section exists.
pub open spec fn remove_in_section(d: SpecDoc, p: Seq<Seq<char>>, k: Seq<char>) -> SpecDoc {
    match find_path(d.sections, p) {
        Option::Some(j) => SpecDoc {
            root: d.root,
            sections: d.sections.update(
                j,
                SpecSection { path: d.sections[j].path, entries: remove_key(d.sections[j].entries, k) },
            ),
        },
        Option::None => d,
    }
}

/// Merge one payload dependency into the document, replacing every prior
/// representation of that name under the dependencies section.
pub open spec fn apply_dep(d: SpecDoc, k: Seq<char>, v: SpecDepValue) -> SpecDoc {
    match v {
        SpecDepValue::Simple(t) => {
            let d1 = SpecDoc { root: d.root, sections: remove_prefix(d.sections, deps_path().push(k)) };
            set_in_section(d1, deps_path(), k, t)
        },
        SpecDepValue::Table(es) => {
            let d1 = remove_in_section(d, deps_path(), k);
            let d2 = SpecDoc { root: d1.root, sections: remove_deeper(d1.sections, deps_path().push(k)) };
            replace_section(d2, deps_path().push(k), es)
        },
    }
}

/// Merge a whole payload, first entry first: a later entry with the same
/// name wins.
pub open spec fn apply_deps(d: SpecDoc, s: Seq<(Seq<char>, SpecDepValue)>) -> SpecDoc
    decreases s.len(),
{
    if s.len() == 0 {
        d
    } else {
        apply_deps(apply_dep(d, s[0].0, s[0].1), s.drop_first())
    }
}

/// Manifest synthesis: canonical artifact kind, pinned toolchain
/// dependency, then the payload merge.
pub open spec fn synth_spec(d: SpecDoc, s: Seq<(Seq<char>, SpecDepValue)>) -> SpecDoc {
    let d1 = set_in_section(d, lib_path(), crate_type_key(), crate_type_val());
    let d2 = set_in_section(d1, deps_path(), toolchain_dep_key(), wildcard_val());
    apply_deps(d2, s)
}

/// The dependency table described by a parsed payload document, read from
/// its dependencies section: a `k = v` entry gives a simple specification, a
/// `[dependencies.<name>]` block gives a sub-table.  A block nested deeper
/// than one level under the dependencies section is not supported and fails
/// the extraction.
pub open spec fn extract_from(ss: Seq<SpecSection>, i: int) -> Option<Seq<(Seq<char>, SpecDepValue)>>
    decreases ss.len() - i,
{
    if i < 0 || i >= ss.len() {
        Option::Some(Seq::empty())
    } else {
        let s = ss[i];
        let rest = extract_from(ss, i + 1);
        if s.path == deps_path() {
            match rest {
                Option::None => Option::None,
                Option::Some(r) => Option::Some(
                    s.entries.map_values(|e: (Seq<char>, Seq<char>)| (e.0, SpecDepValue::Simple(e.1))) + r,
                ),
            }
        } else if s.path.len() == 2 && s.path[0] == "dependencies"@ {
            match rest {
                Option::None => Option::None,
                Option::Some(r) => Option::Some(seq![(s.path[1], SpecDepValue::Table(s.entries))] + r),
            }
        } else if s.path.len() > 2 && s.path[0] == "dependencies"@ {
            Option::None
        } else {
            rest
        }
    }
}

/// The dependency table of a whole payload document.
pub open spec fn extract_deps_spec(d: SpecDoc) -> Option<Seq<(Seq<char>, SpecDepValue)>> {
    extract_from(d.sections, 0)
}

/// Executable dependency extraction.
pub fn extract_dependencies(doc: &TomlDoc) -> (r: Option<DepSpec>)
    ensures
        match r {
            Option::Some(ds) => extract_deps_spec(doc@) == Option::Some(ds@),
            Option::None => extract_deps_spec(doc@) is None,
        },
{
    let ghost ss = doc@.sections;
    let dp = deps_path_vec();
    let mut out: Vec<(String, DepValue)> = Vec::new();
    let n = doc.sections.len();
    let mut i: usize = 0;
    proof {
        assert(out@.map_values(|e: (String, DepValue)| (e.0@, e.1@))
            =~= Seq::<(Seq<char>, SpecDepValue)>::empty());
    }
    while i < n
        invariant
            0 <= i <= n,
            n == doc.sections@.len(),
            ss == doc@.sections,
            dp.deep_view() == deps_path(),
            extract_from(ss, 0) == match extract_from(ss, i as int) {
                Option::Some(r) => Option::Some(
                    out@.map_values(|e: (String, DepValue)| (e.0@, e.1@)) + r,
                ),
                Option::None => Option::None::<Seq<(Seq<char>, SpecDepValue)>>,
            },
        decreases n - i,
    {
        let ghost acc = out@.map_values(|e: (String, DepValue)| (e.0@, e.1@));
        let sec = &doc.sections[i];
        if path_eq(&sec.path, &dp) {
            let m = sec.entries.len();
            let mut j: usize = 0;
            while j < m
                invariant
                    0 <= j <= m,
                    m == sec.entries@.len(),
                    sec == &doc.sections[i as int],
                    0 <= i < doc.sections@.len(),
                    out@.map_values(|e: (String, DepValue)| (e.0@, e.1@)) == acc + sec@.entries.map_values(
                        |e: (Seq<char>, Seq<char>)| (e.0, SpecDepValue::Simple(e.1)),
                    ).subrange(0, j as int),
                decreases m - j,
            {
                let ghost before = out@.map_values(|e: (String, DepValue)| (e.0@, e.1@));
                out.push((sec.entries[j].key.clone(), DepValue::Simple(sec.entries[j].val.clone())));
                proof {
                    let mapped = sec@.entries.map_values(
                        |e: (Seq<char>, Seq<char>)| (e.0, SpecDepValue::Simple(e.1)),
                    );
                    assert(out@.map_values(|e: (String, DepValue)| (e.0@, e.1@)) =~= before.push(
                        mapped[j as int],
                    ));
                    assert(before.push(mapped[j as int]) =~= acc + mapped.subrange(0, j + 1));
                }
                j = j + 1;
            }
            proof {
                let mapped = sec@.entries.map_values(
                    |e: (Seq<char>, Seq<char>)| (e.0, SpecDepValue::Simple(e.1)),
                );
                assert(mapped.subrange(0, m as int) =~= mapped);
                assert(forall|r: Seq<(Seq<char>, SpecDepValue)>| (acc + mapped) + r =~= acc + (mapped + r));
            }
        } else if sec.path.len() >= 2 && str_eq_str(sec.path[0].as_str(), "dependencies") {
            if sec.path.len() == 2 {
                let ghost before = out@.map_values(|e: (String, DepValue)| (e.0@, e.1@));
                out.push((sec.path[1].clone(), DepValue::Table(clone_pairs(&sec.entries))));
                proof {
                    let item = (ss[i as int].path[1], SpecDepValue::Table(ss[i as int].entries));
                    assert(sec@.path[0] == "dependencies"@);
                    assert(sec@.path[1] == sec.path@[1]@);
                    assert(out@.map_values(|e: (String, DepValue)| (e.0@, e.1@)) =~= before.push(item));
                    assert(forall|r: Seq<(Seq<char>, SpecDepValue)>| (acc + seq![item]) + r =~= acc + (
                    seq![item] + r));
                }
            } else {
                proof {
                    assert(sec@.path[0] == "dependencies"@);
                    assert(sec@.path.len() > 2);
                }
                return Option::None;
            }
        } else {
            proof {
                assert(ss[i as int].path == deps_path() ==> sec.path.deep_view() == deps_path());
                if ss[i as int].path.len() >= 2 && ss[i as int].path[0] == "dependencies"@ {
                    assert(sec.path@[0]@ == "dependencies"@);
                    assert(false);
                }
            }
        }
        i = i + 1;
    }
    proof {
        assert(extract_from(ss, n as int) == Option::Some(Seq::<(Seq<char>, SpecDepValue)>::empty()));
        assert(out@.map_values(|e: (String, DepValue)| (e.0@, e.1@)) + Seq::<(
            Seq<char>,
            SpecDepValue,
        )>::empty() =~= out@.map_values(|e: (String, DepValue)| (e.0@, e.1@)));
    }
    Option::Some(DepSpec { entries: out })
}

fn find_key_vec(es: &Vec<Pair>, k: &str) -> (r: Option<usize>)
    ensures
        match r {
            Option::Some(j) => j < es@.len() && find_key(es@.map_values(|p: Pair| p@), k@)
                == Option::Some(j as int),
            Option::None => find_key(es@.map_values(|p: Pair| p@), k@) is None,
        },
{
    let ghost v = es@.map_values(|p: Pair| p@);
    let n = es.len();
    let mut i: usize = 0;
    while i < n
        invariant
            0 <= i <= n,
            n == es@.len(),
            v == es@.map_values(|p: Pair| p@),
            find_key(v, k@) == find_key_from(v, k@, i as int),
        decreases n - i,
    {
        if str_eq_str(es[i].key.as_str(), k) {
            return Option::Some(i);
        }
        i = i + 1;
    }
    Option::None
}

fn set_entry_vec(es: &mut Vec<Pair>, k: String, v: String)
    ensures
        final(es)@.map_values(|p: Pair| p@) == set_entry(old(es)@.map_values(|p: Pair| p@), k@, v@),
{
    let ghost v0 = es@.map_values(|p: Pair| p@);
    let pair = Pair { key: k, val: v };
    let ghost e = pair@;
    match find_key_vec(es, pair.key.as_str()) {
        Option::Some(j) => {
            let slot = &mut es[j];
            *slot = pair;
            proof {
                assert(final(es)@.map_values(|p: Pair| p@) =~= v0.update(j as int, e));
            }
        },
        Option::None => {
            es.push(pair);
            proof {
                assert(final(es)@.map_values(|p: Pair| p@) =~= v0.push(e));
            }
        },
    }
}

fn remove_key_vec(es: &Vec<Pair>, k: &str) -> (r: Vec<Pair>)
    ensures
        r@.map_values(|p: Pair| p@) == remove_key(es@.map_values(|p: Pair| p@), k@),
{
    let ghost v = es@.map_values(|p: Pair| p@);
    let n = es.len();
    let mut out: Vec<Pair> = Vec::new();
    let mut i: usize = 0;
    proof {
        assert(v.subrange(0, v.len() as int) =~= v);
        assert(out@.map_values(|p: Pair| p@) + remove_key(v, k@) =~= remove_key(v, k@));
    }
    while i < n
        invariant
            0 <= i <= n,
            n == es@.len(),
            v == es@.map_values(|p: Pair| p@),
            remove_key(v, k@) == out@.map_values(|p: Pair| p@) + remove_key(
                v.subrange(i as int, v.len() as int),
                k@,
            ),
        decreases n - i,
    {
        let ghost pre = out@.map_values(|p: Pair| p@);
        let ghost tail = v.subrange(i as int, v.len() as int);
        proof {
            assert(tail[0] == v[i as int]);
            assert(tail.drop_first() =~= v.subrange(i + 1, v.len() as int));
        }
        if !str_eq_str(es[i].key.as_str(), k) {
            out.push(Pair { key: es[i].key.clone(), val: es[i].val.clone() });
            proof {
                assert(out@.map_values(|p: Pair| p@) =~= pre.push(v[i as int]));
                assert(pre.push(v[i as int]) =~= pre + seq![tail[0]]);
                assert(pre + (seq![tail[0]] + remove_key(tail.drop_first(), k@)) =~= pre.push(
                    v[i as int],
                ) + remove_key(tail.drop_first(), k@));
            }
        }
        i = i + 1;
    }
    proof {
        assert(v.subrange(n as int, v.len() as int) =~= Seq::<(Seq<char>, Seq<char>)>::empty());
        assert(out@.map_values(|p: Pair| p@) + Seq::<(Seq<char>, Seq<char>)>::empty() =~= out@.map_values(
            |p: Pair| p@,
        ));
    }
    out
}

/// Executable equality of two paths.
fn path_eq(a: &Vec<String>, b: &Vec<String>) -> (r: bool)
    ensures
        r == (a.deep_view() == b.deep_view()),
{
    let n = a.len();
    if n != b.len() {
        proof {
            assert(a.deep_view().len() == a@.len());
            assert(b.deep_view().len() == b@.len());
        }
        return false;
    }
    let mut i: usize = 0;
    while i < n
        invariant
            0 <= i <= n,
            n == a@.len(),
            n == b@.len(),
            forall|j: int| 0 <= j < i ==> a.deep_view()[j] == b.deep_view()[j],
        decreases n - i,
    {
        if !str_eq_str(a[i].as_str(), b[i].as_str()) {
            proof {
                assert(a.deep_view()[i as int] == a@[i as int]@);
                assert(b.deep_view()[i as int] == b@[i as int]@);
            }
            return false;
        }
        i = i + 1;
    }
    proof {
        assert(a.deep_view() =~= b.deep_view());
    }
    true
}

fn find_section_vec(ss: &Vec<Section>, p: &Vec<String>) -> (r: Option<usize>)
    ensures
        match r {
            Option::Some(j) => j < ss@.len() && find_path(ss@.map_values(|s: Section| s@), p.deep_view())
                == Option::Some(j as int),
            Option::None => find_path(ss@.map_values(|s: Section| s@), p.deep_view()) is None,
        },
{
    let ghost v = ss@.map_values(|s: Section| s@);
    let n = ss.len();
    let mut i: usize = 0;
    while i < n
        invariant
            0 <= i <= n,
            n == ss@.len(),
            v == ss@.map_values(|s: Section| s@),
            find_path(v, p.deep_view()) == find_path_from(v, p.deep_view(), i as int),
        decreases n - i,
    {
        if path_eq(&ss[i].path, p) {
            return Option::Some(i);
        }
        i = i + 1;
    }
    Option::None
}

fn has_prefix_vec(p: &Vec<String>, pre: &Vec<String>) -> (r: bool)
    ensures
        r == path_has_prefix(p.deep_view(), pre.deep_view()),
{
    let n = pre.len();
    if n > p.len() {
        proof {
            assert(!path_has_prefix(p.deep_view(), pre.deep_view()));
        }
        return false;
    }
    let mut i: usize = 0;
    while i < n
        invariant
            0 <= i <= n,
            n == pre@.len(),
            n <= p@.len(),
            forall|j: int| 0 <= j < i ==> p.deep_view()[j] == pre.deep_view()[j],
        decreases n - i,
    {
        if !str_eq_str(p[i].as_str(), pre[i].as_str()) {
            proof {
                let sub = p.deep_view().subrange(0, n as int);
                assert(sub[i as int] == p.deep_view()[i as int]);
            }
            return false;
        }
        i = i + 1;
    }
    proof {
        assert(p.deep_view().subrange(0, n as int) =~= pre.deep_view());
    }
    true
}

/// A fresh copy of a string list.
fn clone_strings(v: &Vec<String>) -> (r: Vec<String>)
    ensures
        r.deep_view() == v.deep_view(),
{
    let n = v.len();
    let mut out: Vec<String> = Vec::new();
    let mut i: usize = 0;
    while i < n
        invariant
            0 <= i <= n,
            n == v@.len(),
            out@.len() == i,
            forall|j: int| 0 <= j < i ==> out.deep_view()[j] == v.deep_view()[j],
        decreases n - i,
    {
        out.push(v[i].clone());
        i = i + 1;
    }
    proof {
        assert(out.deep_view() =~= v.deep_view());
    }
    out
}

/// A fresh copy of an entry list.
pub fn clone_pairs(v: &Vec<Pair>) -> (r: Vec<Pair>)
    ensures
        r@.map_values(|p: Pair| p@) == v@.map_values(|p: Pair| p@),
{
    let n = v.len();
    let mut out: Vec<Pair> = Vec::new();
    let mut i: usize = 0;
    while i < n
        invariant
            0 <= i <= n,
            n == v@.len(),
            out@.len() == i,
            forall|j: int| 0 <= j < i ==> (#[trigger] out@[j])@ == v@[j]@,
        decreases n - i,
    {
        out.push(Pair { key: v[i].key.clone(), val: v[i].val.clone() });
        i = i + 1;
    }
    proof {
        assert(out@.map_values(|p: Pair| p@) =~= v@.map_values(|p: Pair| p@));
    }
    out
}

/// The dependencies-section path, as a fresh value.
pub fn deps_path_vec() -> (r: Vec<String>)
    ensures
        r.deep_view() == deps_path(),
{
    let mut r: Vec<String> = Vec::new();
    r.push(String::from_str("dependencies"));
    proof {
        assert(r.deep_view() =~= deps_path());
    }
    r
}

fn lib_path_vec() -> (r: Vec<String>)
    ensures
        r.deep_view() == lib_path(),
{
    let mut r: Vec<String> = Vec::new();
    r.push(String::from_str("lib"));
    proof {
        assert(r.deep_view() =~= lib_path());
    }
    r
}

fn doc_set_in_section(doc: TomlDoc, p: &Vec<String>, k: String, v: String) -> (r: TomlDoc)
    ensures
        r@ == set_in_section(doc@, p.deep_view(), k@, v@),
{
    let ghost d0 = doc@;
    let ghost kk = k@;
    let ghost vv = v@;
    let mut doc = doc;
    match find_section_vec(&doc.sections, p) {
        Option::Some(j) => {
            let ghost old_sec = d0.sections[j as int];
            let mut entries = clone_pairs(&doc.sections[j].entries);
            set_entry_vec(&mut entries, k, v);
            let sec = &mut doc.sections[j];
            sec.entries = entries;
            proof {
                let sp = set_in_section(d0, p.deep_view(), kk, vv);
                assert(doc@.sections =~~= sp.sections);
                assert(doc@ =~~= sp);
            }
            doc
        },
        Option::None => {
            let mut entries: Vec<Pair> = Vec::new();
            entries.push(Pair { key: k, val: v });
            doc.sections.push(Section { path: clone_strings(p), entries });
            proof {
                let sp = set_in_section(d0, p.deep_view(), kk, vv);
                assert(doc@.sections =~~= sp.sections);
                assert(doc@ =~~= sp);
            }
            doc
        },
    }
}

fn doc_remove_in_section(doc: TomlDoc, p: &Vec<String>, k: &str) -> (r: TomlDoc)
    ensures
        r@ == remove_in_section(doc@, p.deep_view(), k@),
{
    let ghost d0 = doc@;
    let mut doc = doc;
    match find_section_vec(&doc.sections, p) {
        Option::Some(j) => {
            let cleaned = remove_key_vec(&doc.sections[j].entries, k);
            let sec = &mut doc.sections[j];
            sec.entries = cleaned;
            proof {
                let sp = remove_in_section(d0, p.deep_view(), k@);
                assert(doc@.sections =~~= sp.sections);
                assert(doc@ =~~= sp);
            }
            doc
        },
        Option::None => doc,
    }
}

fn doc_remove_deeper(doc: TomlDoc, pre: &Vec<String>) -> (r: TomlDoc)
    ensures
        r@ == (SpecDoc { root: doc@.root, sections: remove_deeper(doc@.sections, pre.deep_view()) }),
{
    let ghost d0 = doc@;
    let ghost v = d0.sections;
    let TomlDoc { root, sections } = doc;
    let n = sections.len();
    let mut out: Vec<Section> = Vec::new();
    let mut i: usize = 0;
    proof {
        assert(v.subrange(0, v.len() as int) =~= v);
        assert(out@.map_values(|s: Section| s@) + remove_deeper(v, pre.deep_view()) =~= remove_deeper(
            v,
            pre.deep_view(),
        ));
    }
    while i < n
        invariant
            0 <= i <= n,
            n == sections@.len(),
            v == sections@.map_values(|s: Section| s@),
            remove_deeper(v, pre.deep_view()) == out@.map_values(|s: Section| s@) + remove_deeper(
                v.subrange(i as int, v.len() as int),
                pre.deep_view(),
            ),
        decreases n - i,
    {
        let ghost prefix_acc = out@.map_values(|s: Section| s@);
        let ghost tail = v.subrange(i as int, v.len() as int);
        proof {
            assert(tail[0] == v[i as int]);
            assert(tail.drop_first() =~= v.subrange(i + 1, v.len() as int));
        }
        if !(has_prefix_vec(&sections[i].path, pre) && sections[i].path.len() > pre.len()) {
            let copy = Section {
                path: clone_strings(&sections[i].path),
                entries: clone_pairs(&sections[i].entries),
            };
            proof {
                assert(copy@ =~~= v[i as int]);
                assert(sections[i as int].path@.len() == v[i as int].path.len());
            }
            out.push(copy);
            proof {
                assert(out@.map_values(|s: Section| s@) =~= prefix_acc.push(v[i as int]));
                assert(prefix_acc + (seq![tail[0]] + remove_deeper(tail.drop_first(), pre.deep_view()))
                    =~= prefix_acc.push(v[i as int]) + remove_deeper(tail.drop_first(), pre.deep_view()));
            }
        } else {
            proof {
                assert(sections[i as int].path@.len() == v[i as int].path.len());
            }
        }
        i = i + 1;
    }
    proof {
        assert(v.subrange(n as int, v.len() as int) =~= Seq::<SpecSection>::empty());
        assert(out@.map_values(|s: Section| s@) + Seq::<SpecSection>::empty() =~= out@.map_values(
            |s: Section| s@,
        ));
    }
    TomlDoc { root, sections: out }
}

fn doc_remove_prefix(doc: TomlDoc, pre: &Vec<String>) -> (r: TomlDoc)
    ensures
        r@ == (SpecDoc { root: doc@.root, sections: remove_prefix(doc@.sections, pre.deep_view()) }),
{
    let ghost d0 = doc@;
    let ghost v = d0.sections;
    let TomlDoc { root, sections } = doc;
    let n = sections.len();
    let mut out: Vec<Section> = Vec::new();
    let mut i: usize = 0;
    proof {
        assert(v.subrange(0, v.len() as int) =~= v);
        assert(out@.map_values(|s: Section| s@) + remove_prefix(v, pre.deep_view()) =~= remove_prefix(
            v,
            pre.deep_view(),
        ));
    }
    while i < n
        invariant
            0 <= i <= n,
            n == sections@.len(),
            v == sections@.map_values(|s: Section| s@),
            remove_prefix(v, pre.deep_view()) == out@.map_values(|s: Section| s@) + remove_prefix(
                v.subrange(i as int, v.len() as int),
                pre.deep_view(),
            ),
        decreases n - i,
    {
        let ghost prefix_acc = out@.map_values(|s: Section| s@);
        let ghost tail = v.subrange(i as int, v.len() as int);
        proof {
            assert(tail[0] == v[i as int]);
            assert(tail.drop_first() =~= v.subrange(i + 1, v.len() as int));
        }
        if !has_prefix_vec(&sections[i].path, pre) {
            let copy = Section {
                path: clone_strings(&sections[i].path),
                entries: clone_pairs(&sections[i].entries),
            };
            proof {
                assert(copy@ =~~= v[i as int]);
            }
            out.push(copy);
            proof {
                assert(out@.map_values(|s: Section| s@) =~= prefix_acc.push(v[i as int]));
                assert(prefix_acc + (seq![tail[0]] + remove_prefix(tail.drop_first(), pre.deep_view()))
                    =~= prefix_acc.push(v[i as int]) + remove_prefix(tail.drop_first(), pre.deep_view()));
            }
        }
        i = i + 1;
    }
    proof {
        assert(v.subrange(n as int, v.len() as int) =~= Seq::<SpecSection>::empty());
        assert(out@.map_values(|s: Section| s@) + Seq::<SpecSection>::empty() =~= out@.map_values(
            |s: Section| s@,
        ));
    }
    TomlDoc { root, sections: out }
}

fn apply_dep_exec(doc: TomlDoc, k: &String, v: &DepValue) -> (r: TomlDoc)
    ensures
        r@ == apply_dep(doc@, k@, v@),
{
    let ghost d0 = doc@;
    let mut sub_path = deps_path_vec();
    sub_path.push(k.clone());
    proof {
        assert(sub_path.deep_view() =~= deps_path().push(k@));
    }
    match v {
        DepValue::Simple(t) => {
            let doc = doc_remove_prefix(doc, &sub_path);
            let dp = deps_path_vec();
            let r = doc_set_in_section(doc, &dp, k.clone(), t.clone());
            proof {
                assert(r@ =~~= apply_dep(d0, k@, v@));
            }
            r
        },
        DepValue::Table(es) => {
            let dp = deps_path_vec();
            let doc = doc_remove_in_section(doc, &dp, k.as_str());
            let mut doc = doc_remove_deeper(doc, &sub_path);
            let ghost d2 = doc@;
            match find_section_vec(&doc.sections, &sub_path) {
                Option::Some(j) => {
                    let fresh = clone_pairs(es);
                    let sec = &mut doc.sections[j];
                    sec.entries = fresh;
                    proof {
                        let sp = replace_section(d2, sub_path.deep_view(), es@.map_values(|p: Pair| p@));
                        assert(doc@.sections =~~= sp.sections);
                        assert(doc@ =~~= apply_dep(d0, k@, v@));
                    }
                    doc
                },
                Option::None => {
                    doc.sections.push(Section { path: sub_path, entries: clone_pairs(es) });
                    proof {
                        let sp = replace_section(d2, sub_path.deep_view(), es@.map_values(|p: Pair| p@));
                        assert(doc@.sections =~~= sp.sections);
                        assert(doc@ =~~= apply_dep(d0, k@, v@));
                    }
                    doc
                },
            }
        },
    }
}

/// Manifest synthesis, executable: returns the rewritten document.
pub fn synthesize_manifest(doc: TomlDoc, deps: &DepSpec) -> (r: TomlDoc)
    ensures
        r@ == synth_spec(doc@, deps@),
{
    let ghost d0 = doc@;
    let lp = lib_path_vec();
    let doc = doc_set_in_section(doc, &lp, String::from_str("crate-type"), String::from_str("[\"cdylib\"]"));
    let dp = deps_path_vec();
    let mut doc = doc_set_in_section(doc, &dp, String::from_str("wasm-bindgen"), String::from_str("\"*\""));
    let ghost d2 = doc@;
    let n = deps.entries.len();
    let mut i: usize = 0;
    proof {
        assert(deps@.subrange(0, deps@.len() as int) =~= deps@);
    }
    while i < n
        invariant
            0 <= i <= n,
            n == deps.entries@.len(),
            apply_deps(d2, deps@) == apply_deps(doc@, deps@.subrange(i as int, deps@.len() as int)),
        decreases n - i,
    {
        let ghost tail = deps@.subrange(i as int, deps@.len() as int);
        proof {
            assert(tail[0] == deps@[i as int]);
            assert(tail.drop_first() =~= deps@.subrange(i + 1, deps@.len() as int));
        }
        doc = apply_dep_exec(doc, &deps.entries[i].0, &deps.entries[i].1);
        i = i + 1;
    }
    proof {
        assert(deps@.subrange(n as int, deps@.len() as int) =~= Seq::<(Seq<char>, SpecDepValue)>::empty());
        assert(deps@.subrange(0, deps@.len() as int) =~= deps@);
    }
    doc
}

} // verus!
