//! The manifest document model: a line-oriented configuration document made
//! of top-level `key = value` entries followed by bracketed sections, each
//! section a dotted header path with its own entries.  Values are kept as
//! verbatim single-line text.  The serializer below is the canonical writer
//! for this shape; the parser lives in `parse`.

use vstd::prelude::*;
use vstd::string::*;
use crate::text::{is_trimmed, bracket_delta};

verus! {

/// One `key = value` entry.
pub struct Pair {
    pub key: String,
    pub val: String,
}

impl View for Pair {
    type V = (Seq<char>, Seq<char>);

    open spec fn view(&self) -> (Seq<char>, Seq<char>) {
        (self.key@, self.val@)
    }
}

/// One bracketed section: `[path.to.section]` followed by entries.
pub struct Section {
    pub path: Vec<String>,
    pub entries: Vec<Pair>,
}

/// The mathematical shape of a section.
#[verifier::ext_equal]
pub ghost struct SpecSection {
    pub path: Seq<Seq<char>>,
    pub entries: Seq<(Seq<char>, Seq<char>)>,
}

impl View for Section {
    type V = SpecSection;

    open spec fn view(&self) -> SpecSection {
        SpecSection { path: self.path.deep_view(), entries: self.entries@.map_values(|p: Pair| p@) }
    }
}

/// A whole configuration document.
pub struct TomlDoc {
    pub root: Vec<Pair>,
    pub sections: Vec<Section>,
}

/// The mathematical shape of a document.
#[verifier::ext_equal]
pub ghost struct SpecDoc {
    pub root: Seq<(Seq<char>, Seq<char>)>,
    pub sections: Seq<SpecSection>,
}

impl View for TomlDoc {
    type V = SpecDoc;

    open spec fn view(&self) -> SpecDoc {
        SpecDoc { root: self.root@.map_values(|p: Pair| p@), sections: self.sections@.map_values(|s: Section| s@) }
    }
}

impl SpecDoc {
    /// The document with no entries and no sections.
    pub open spec fn empty() -> SpecDoc {
        SpecDoc { root: Seq::empty(), sections: Seq::empty() }
    }
}

/// A key as the serializer may write it and the parser will read it back:
/// non-empty single-line bracket-free text without `=`, not starting like a
/// comment, with no whitespace at its ends.
pub open spec fn wf_key(k: Seq<char>) -> bool {
    &&& k.len() > 0
    &&& is_trimmed(k)
    &&& k[0] != '#'
    &&& forall|i: int| 0 <= i < k.len() ==> k[i] != '\n' && k[i] != '=' && k[i] != '[' && k[i]
        != ']'
}

/// A value that survives the round trip: single-line bracket-neutral text
/// with no whitespace at its ends, so the parser's joining pass leaves the
/// line it sits on alone.
pub open spec fn wf_val(v: Seq<char>) -> bool {
    &&& is_trimmed(v)
    &&& bracket_delta(v) == 0
    &&& forall|i: int| 0 <= i < v.len() ==> v[i] != '\n'
}

/// A header path component: non-empty single-line bracket-free text without
/// dots, with no whitespace at its ends.
pub open spec fn wf_comp(c: Seq<char>) -> bool {
    &&& c.len() > 0
    &&& is_trimmed(c)
    &&& forall|i: int| 0 <= i < c.len() ==> c[i] != '\n' && c[i] != '.' && c[i] != '[' && c[i]
        != ']'
}

pub open spec fn wf_entries(es: Seq<(Seq<char>, Seq<char>)>) -> bool {
    forall|i: int| 0 <= i < es.len() ==> wf_key(#[trigger] es[i].0) && wf_val(es[i].1)
}

pub open spec fn wf_path(p: Seq<Seq<char>>) -> bool {
    p.len() > 0 && forall|i: int| 0 <= i < p.len() ==> wf_comp(#[trigger] p[i])
}

pub open spec fn wf_section(s: SpecSection) -> bool {
    wf_path(s.path) && wf_entries(s.entries)
}

/// A document that the serializer writes canonically and the parser reads
/// back unchanged.
pub open spec fn wf_doc(d: SpecDoc) -> bool {
    &&& wf_entries(d.root)
    &&& forall|i: int| 0 <= i < d.sections.len() ==> wf_section(#[trigger] d.sections[i])
}

/// Serialized text of one entry: `key = value` and a line feed.
pub open spec fn ser_entry(e: (Seq<char>, Seq<char>)) -> Seq<char> {
    e.0 + seq![' ', '=', ' '] + e.1 + seq!['\n']
}

/// Serialized text of an entry list.
pub open spec fn ser_entries(es: Seq<(Seq<char>, Seq<char>)>) -> Seq<char>
    decreases es.len(),
{
    if es.len() == 0 {
        Seq::empty()
    } else {
        ser_entry(es[0]) + ser_entries(es.drop_first())
    }
}

/// Serialized text of a header path: components joined by dots.
pub open spec fn ser_path(p: Seq<Seq<char>>) -> Seq<char>
    decreases p.len(),
{
    if p.len() == 0 {
        Seq::empty()
    } else if p.len() == 1 {
        p[0]
    } else {
        p[0] + seq!['.'] + ser_path(p.drop_first())
    }
}

/// Serialized text of one section: its header line and its entries.
pub open spec fn ser_section(s: SpecSection) -> Seq<char> {
    seq!['['] + ser_path(s.path) + seq![']', '\n'] + ser_entries(s.entries)
}

/// Serialized text of a section list.
pub open spec fn ser_sections(ss: Seq<SpecSection>) -> Seq<char>
    decreases ss.len(),
{
    if ss.len() == 0 {
        Seq::empty()
    } else {
        ser_section(ss[0]) + ser_sections(ss.drop_first())
    }
}

/// Serialized text of a whole document.
pub open spec fn ser_doc(d: SpecDoc) -> Seq<char> {
    ser_entries(d.root) + ser_sections(d.sections)
}

fn write_entries(out: &mut String, es: &Vec<Pair>, i: usize)
    requires
        i <= es@.len(),
    ensures
        final(out)@ == old(out)@ + ser_entries(es@.map_values(|p: Pair| p@).subrange(i as int, es@.len() as int)),
    decreases es@.len() - i,
{
    let ghost ves = es@.map_values(|p: Pair| p@);
    if i == es.len() {
        proof {
            assert(ves.subrange(i as int, ves.len() as int) =~= Seq::<(Seq<char>, Seq<char>)>::empty());
            assert(old(out)@ + Seq::<char>::empty() =~= old(out)@);
        }
    } else {
        out.append(es[i].key.as_str());
        out.append(" = ");
        out.append(es[i].val.as_str());
        out.append("\n");
        proof {
            reveal_strlit(" = ");
            reveal_strlit("\n");
            assert(" = "@ =~= seq![' ', '=', ' ']);
            assert("\n"@ =~= seq!['\n']);
        }
        let ghost mid = out@;
        write_entries(out, es, i + 1);
        proof {
            let tail = ves.subrange(i as int, ves.len() as int);
            assert(tail[0] == ves[i as int]);
            assert(tail.drop_first() =~= ves.subrange(i + 1, ves.len() as int));
            assert(mid =~= old(out)@ + ser_entry(tail[0]));
            assert(final(out)@ =~= old(out)@ + ser_entries(tail));
        }
    }
}

fn write_path(out: &mut String, p: &Vec<String>, i: usize)
    requires
        i <= p@.len(),
    ensures
        final(out)@ == old(out)@ + ser_path(p.deep_view().subrange(i as int, p@.len() as int)),
    decreases p@.len() - i,
{
    let ghost vp = p.deep_view();
    if i == p.len() {
        proof {
            assert(vp.subrange(i as int, vp.len() as int) =~= Seq::<Seq<char>>::empty());
            assert(old(out)@ + Seq::<char>::empty() =~= old(out)@);
        }
    } else if i + 1 == p.len() {
        out.append(p[i].as_str());
        proof {
            let tail = vp.subrange(i as int, vp.len() as int);
            assert(tail.len() == 1);
            assert(tail[0] == vp[i as int]);
            assert(vp[i as int] == p@[i as int]@);
            assert(final(out)@ =~= old(out)@ + ser_path(tail));
        }
    } else {
        out.append(p[i].as_str());
        out.append(".");
        let ghost mid = out@;
        write_path(out, p, i + 1);
        proof {
            reveal_strlit(".");
            let tail = vp.subrange(i as int, vp.len() as int);
            assert(tail[0] == vp[i as int]);
            assert(vp[i as int] == p@[i as int]@);
            assert(tail.drop_first() =~= vp.subrange(i + 1, vp.len() as int));
            assert(mid =~= old(out)@ + vp[i as int] + seq!['.']);
            assert(final(out)@ =~= old(out)@ + ser_path(tail));
        }
    }
}

fn write_sections(out: &mut String, ss: &Vec<Section>, i: usize)
    requires
        i <= ss@.len(),
    ensures
        final(out)@ == old(out)@ + ser_sections(ss@.map_values(|s: Section| s@).subrange(i as int, ss@.len() as int)),
    decreases ss@.len() - i,
{
    let ghost vss = ss@.map_values(|s: Section| s@);
    if i == ss.len() {
        proof {
            assert(vss.subrange(i as int, vss.len() as int) =~= Seq::<SpecSection>::empty());
            assert(old(out)@ + Seq::<char>::empty() =~= old(out)@);
        }
    } else {
        out.append("[");
        write_path(out, &ss[i].path, 0);
        out.append("]\n");
        proof {
            reveal_strlit("[");
            reveal_strlit("]\n");
            assert("["@ =~= seq!['[']);
            assert("]\n"@ =~= seq![']', '\n']);
            assert(ss@[i as int].path.deep_view().subrange(0, ss@[i as int].path@.len() as int)
                =~= ss@[i as int].path.deep_view());
        }
        write_entries(out, &ss[i].entries, 0);
        proof {
            assert(ss@[i as int].entries@.map_values(|p: Pair| p@).subrange(
                0,
                ss@[i as int].entries@.len() as int,
            ) =~= ss@[i as int].entries@.map_values(|p: Pair| p@));
        }
        let ghost mid = out@;
        write_sections(out, ss, i + 1);
        proof {
            let tail = vss.subrange(i as int, vss.len() as int);
            assert(tail[0] == vss[i as int]);
            assert(tail.drop_first() =~= vss.subrange(i + 1, vss.len() as int));
            assert(mid =~= old(out)@ + ser_section(tail[0]));
            assert(final(out)@ =~= old(out)@ + ser_sections(tail));
        }
    }
}

impl TomlDoc {
    /// The empty document.
    pub fn new() -> (r: TomlDoc)
        ensures
            r@ == SpecDoc::empty(),
    {
        let r = TomlDoc { root: Vec::new(), sections: Vec::new() };
        proof {
            assert(r@.root =~= Seq::<(Seq<char>, Seq<char>)>::empty());
            assert(r@.sections =~= Seq::<SpecSection>::empty());
        }
        r
    }

    /// Serialize the whole document to canonical configuration text.
    pub fn serialize(&self) -> (r: String)
        ensures
            r@ == ser_doc(self@),
    {
        let mut out = String::new();
        write_entries(&mut out, &self.root, 0);
        proof {
            assert(self.root@.map_values(|p: Pair| p@).subrange(0, self.root@.len() as int)
                =~= self@.root);
        }
        write_sections(&mut out, &self.sections, 0);
        proof {
            assert(self.sections@.map_values(|s: Section| s@).subrange(0, self.sections@.len() as int)
                =~= self@.sections);
            assert(out@ =~= ser_doc(self@));
        }
        out
    }
}

} // verus!
