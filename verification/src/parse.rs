//! The configuration parser: line-oriented, the inverse of the serializer in
//! `config` on well-formed documents.  A joining pass first folds a
//! bracketed value written across lines back onto its entry's line (line
//! feeds at bracket depth zero stay).  Then, line by line: empty lines and
//! comment lines are skipped; a bracketed line opens a section with a
//! dotted path; any other line must be a `key = value` entry, split at the
//! first `=`, key and value trimmed.  Any line that fits no case is a
//! parse failure.
//!
//! The model is deliberately a line-oriented subset of the full
//! configuration syntax: multi-line strings and inline tables are not
//! understood and fail as a parse error, a dotted key is taken verbatim,
//! and bracket characters inside quoted text take part in the joining
//! pass.  The inputs the pipeline actually meets — scaffold-generated
//! manifests, this crate's canonical output and the documented payload
//! shapes — all lie inside the subset.

use vstd::prelude::*;
use vstd::string::*;
use crate::text::{
    trimmed, find_in, find_from, trim_str, find_char_from, lemma_find_from_props, lemma_find_shift,
};
use crate::text::bracket_delta;
use crate::config::{Pair, Section, TomlDoc, SpecSection, SpecDoc};

verus! {

/// A dotted header path: components split at dots, each trimmed and
/// non-empty.
pub open spec fn parse_path_spec(s: Seq<char>) -> Option<Seq<Seq<char>>>
    decreases s.len(),
{
    match find_in(s, '.') {
        Option::None => {
            let c = trimmed(s);
            if c.len() == 0 {
                Option::None
            } else {
                Option::Some(seq![c])
            }
        },
        Option::Some(j) => {
            if 0 <= j < s.len() {
                let c = trimmed(s.subrange(0, j));
                if c.len() == 0 {
                    Option::None
                } else {
                    match parse_path_spec(s.subrange(j + 1, s.len() as int)) {
                        Option::None => Option::None,
                        Option::Some(rest) => Option::Some(seq![c] + rest),
                    }
                }
            } else {
                Option::None
            }
        },
    }
}

/// An entry lands in the last open section, or among the root entries when
/// no section has been opened yet.
pub open spec fn append_entry(d: SpecDoc, e: (Seq<char>, Seq<char>)) -> SpecDoc {
    if d.sections.len() == 0 {
        SpecDoc { root: d.root.push(e), sections: d.sections }
    } else {
        let n = d.sections.len() - 1;
        let last = d.sections[n];
        SpecDoc {
            root: d.root,
            sections: d.sections.update(n, SpecSection { path: last.path, entries: last.entries.push(e) }),
        }
    }
}

/// A header line opens a new, empty section.
pub open spec fn push_section(d: SpecDoc, p: Seq<Seq<char>>) -> SpecDoc {
    SpecDoc { root: d.root, sections: d.sections.push(SpecSection { path: p, entries: Seq::empty() }) }
}

/// The effect of one line on the document under construction.
pub open spec fn apply_line(d: SpecDoc, line: Seq<char>) -> Option<SpecDoc> {
    let t = trimmed(line);
    if t.len() == 0 {
        Option::Some(d)
    } else if t[0] == '#' {
        Option::Some(d)
    } else if t[0] == '[' {
        if t.len() >= 2 && t[t.len() - 1] == ']' {
            match parse_path_spec(t.subrange(1, t.len() - 1)) {
                Option::Some(p) => Option::Some(push_section(d, p)),
                Option::None => Option::None,
            }
        } else {
            Option::None
        }
    } else {
        match find_in(t, '=') {
            Option::Some(j) => {
                if 0 <= j < t.len() {
                    let k = trimmed(t.subrange(0, j));
                    let v = trimmed(t.subrange(j + 1, t.len() as int));
                    if k.len() == 0 {
                        Option::None
                    } else {
                        Option::Some(append_entry(d, (k, v)))
                    }
                } else {
                    Option::None
                }
            },
            Option::None => Option::None,
        }
    }
}

/// Folding the remaining text, line by line, into the document.
pub open spec fn parse_from_spec(d: SpecDoc, s: Seq<char>) -> Option<SpecDoc>
    decreases s.len(),
{
    match find_in(s, '\n') {
        Option::None => apply_line(d, s),
        Option::Some(j) => {
            if 0 <= j < s.len() {
                match apply_line(d, s.subrange(0, j)) {
                    Option::None => Option::None,
                    Option::Some(d2) => parse_from_spec(d2, s.subrange(j + 1, s.len() as int)),
                }
            } else {
                apply_line(d, s)
            }
        },
    }
}

/// The text with every line feed inside brackets removed: a line feed
/// survives only at bracket depth zero (or below), so a bracketed value
/// written across lines is folded back onto one line.
pub open spec fn join_from(s: Seq<char>, depth: int) -> Seq<char>
    decreases s.len(),
{
    if s.len() == 0 {
        Seq::empty()
    } else {
        let c = s[0];
        let d2: int = if c == '[' {
            depth + 1
        } else if c == ']' {
            depth - 1
        } else {
            depth
        };
        let kept: Seq<char> = if c == '\n' && depth > 0 {
            Seq::empty()
        } else {
            seq![c]
        };
        kept + join_from(s.drop_first(), d2)
    }
}

/// Joining distributes over concatenation, the depth advanced by the first
/// part's bracket nesting.
pub proof fn lemma_join_concat(a: Seq<char>, b: Seq<char>, depth: int)
    ensures
        join_from(a + b, depth) == join_from(a, depth) + join_from(b, depth + bracket_delta(a)),
    decreases a.len(),
{
    if a.len() == 0 {
        assert(a + b =~= b);
        assert(join_from(a, depth) + join_from(b, depth) =~= join_from(b, depth));
    } else {
        let c = a[0];
        let d2: int = if c == '[' {
            depth + 1
        } else if c == ']' {
            depth - 1
        } else {
            depth
        };
        lemma_join_concat(a.drop_first(), b, d2);
        assert((a + b).drop_first() =~= a.drop_first() + b);
        assert((a + b)[0] == a[0]);
        assert(bracket_delta(a) == (if c == '[' { 1int } else if c == ']' { -1int } else { 0int })
            + bracket_delta(a.drop_first()));
        let kept: Seq<char> = if c == '\n' && depth > 0 {
            Seq::empty()
        } else {
            seq![c]
        };
        assert(kept + (join_from(a.drop_first(), d2) + join_from(b, depth + bracket_delta(a)))
            =~= (kept + join_from(a.drop_first(), d2)) + join_from(b, depth + bracket_delta(a)));
    }
}

/// The join of a single character.
pub proof fn lemma_join_single(c: char, depth: int)
    ensures
        join_from(seq![c], depth) == if c == '\n' && depth > 0 {
            Seq::<char>::empty()
        } else {
            seq![c]
        },
{
    let d2: int = if c == '[' {
        depth + 1
    } else if c == ']' {
        depth - 1
    } else {
        depth
    };
    assert(seq![c].drop_first() =~= Seq::<char>::empty());
    assert(join_from(Seq::<char>::empty(), d2) =~= Seq::<char>::empty());
    if c == '\n' && depth > 0 {
        assert(join_from(seq![c], depth) =~= Seq::<char>::empty());
    } else {
        assert(join_from(seq![c], depth) =~= seq![c]);
    }
}

/// A text without line feeds is its own join, at any depth.
pub proof fn lemma_join_no_newline(s: Seq<char>, depth: int)
    requires
        forall|i: int| 0 <= i < s.len() ==> s[i] != '\n',
    ensures
        join_from(s, depth) == s,
    decreases s.len(),
{
    if s.len() > 0 {
        assert(forall|i: int| 0 <= i < s.drop_first().len() ==> s.drop_first()[i] == s[i + 1]);
        let c = s[0];
        let d2: int = if c == '[' {
            depth + 1
        } else if c == ']' {
            depth - 1
        } else {
            depth
        };
        lemma_join_no_newline(s.drop_first(), d2);
        assert(seq![s[0]] + s.drop_first() =~= s);
    } else {
        assert(join_from(s, depth) =~= s);
    }
}

/// The parse of a whole text: the joining pass, then the line fold.
pub open spec fn parse_doc(s: Seq<char>) -> Option<SpecDoc> {
    parse_from_spec(SpecDoc::empty(), join_from(s, 0))
}

/// Executable joining pass.
fn join_lines(s: &str) -> (r: String)
    ensures
        r@ == join_from(s@, 0),
{
    let n = s.unicode_len();
    let mut out = String::new();
    let mut opens: usize = 0;
    let mut closes: usize = 0;
    let mut i: usize = 0;
    proof {
        assert(s@.subrange(0, s@.len() as int) =~= s@);
    }
    while i < n
        invariant
            0 <= i <= n,
            n == s@.len(),
            opens <= i,
            closes <= i,
            join_from(s@, 0) == out@ + join_from(
                s@.subrange(i as int, n as int),
                opens as int - closes as int,
            ),
        decreases n - i,
    {
        let ghost tail = s@.subrange(i as int, n as int);
        proof {
            assert(tail[0] == s@[i as int]);
            assert(tail.drop_first() =~= s@.subrange(i + 1, n as int));
        }
        let c = s.get_char(i);
        let keep: bool = if c == '\n' {
            opens <= closes
        } else {
            true
        };
        if c == '[' {
            opens = opens + 1;
        } else if c == ']' {
            closes = closes + 1;
        }
        if keep {
            let piece = s.substring_char(i, i + 1);
            out.append(piece);
            proof {
                assert(piece@ =~= seq![c]);
            }
        }
        i = i + 1;
    }
    proof {
        assert(s@.subrange(n as int, n as int) =~= Seq::<char>::empty());
        assert(out@ + Seq::<char>::empty() =~= out@);
    }
    out
}

/// Executable dotted-path parser.
fn parse_path(s: &str) -> (r: Option<Vec<String>>)
    ensures
        match r {
            Option::Some(p) => parse_path_spec(s@) == Option::Some(p.deep_view()),
            Option::None => parse_path_spec(s@) is None,
        },
    decreases s@.len(),
{
    let len = s.unicode_len();
    match find_char_from(s, '.', 0) {
        Option::None => {
            let c = trim_str(s);
            if c.as_str().unicode_len() == 0 {
                Option::None
            } else {
                let mut p: Vec<String> = Vec::new();
                p.push(c);
                proof {
                    assert(p.deep_view() =~= seq![trimmed(s@)]);
                }
                Option::Some(p)
            }
        },
        Option::Some(j) => {
            proof {
                lemma_find_from_props(s@, '.', 0);
            }
            let before = s.substring_char(0, j);
            let c = trim_str(before);
            if c.as_str().unicode_len() == 0 {
                return Option::None;
            }
            let after = s.substring_char(j + 1, len);
            match parse_path(after) {
                Option::None => Option::None,
                Option::Some(mut rest) => {
                    rest.insert(0, c);
                    proof {
                        assert(rest.deep_view() =~= seq![trimmed(s@.subrange(0, j as int))]
                            + parse_path_spec(s@.subrange(j + 1, s@.len() as int))->Some_0);
                    }
                    Option::Some(rest)
                },
            }
        },
    }
}

/// Executable effect of one line.
fn apply_line_exec(doc: TomlDoc, line: &str) -> (r: Option<TomlDoc>)
    ensures
        match r {
            Option::Some(d) => apply_line(doc@, line@) == Option::Some(d@),
            Option::None => apply_line(doc@, line@) is None,
        },
{
    let ghost d0 = doc@;
    let t = trim_str(line);
    let tlen = t.as_str().unicode_len();
    if tlen == 0 {
        return Option::Some(doc);
    }
    let c0 = t.as_str().get_char(0);
    if c0 == '#' {
        return Option::Some(doc);
    }
    if c0 == '[' {
        if tlen >= 2 && t.as_str().get_char(tlen - 1) == ']' {
            let inner = t.as_str().substring_char(1, tlen - 1);
            match parse_path(inner) {
                Option::Some(p) => {
                    let mut doc = doc;
                    doc.sections.push(Section { path: p, entries: Vec::new() });
                    proof {
                        let sp = push_section(d0, p.deep_view());
                        assert(doc@.sections =~~= sp.sections);
                        assert(doc@ =~~= sp);
                    }
                    Option::Some(doc)
                },
                Option::None => Option::None,
            }
        } else {
            Option::None
        }
    } else {
        match find_char_from(t.as_str(), '=', 0) {
            Option::Some(j) => {
                proof {
                    lemma_find_from_props(t@, '=', 0);
                }
                let key_part = t.as_str().substring_char(0, j);
                let k = trim_str(key_part);
                if k.as_str().unicode_len() == 0 {
                    return Option::None;
                }
                let val_part = t.as_str().substring_char(j + 1, tlen);
                let v = trim_str(val_part);
                let pair = Pair { key: k, val: v };
                let ghost e = pair@;
                let mut doc = doc;
                if doc.sections.len() == 0 {
                    doc.root.push(pair);
                    proof {
                        let sp = append_entry(d0, e);
                        assert(doc@.root =~~= sp.root);
                        assert(doc@ =~~= sp);
                    }
                } else {
                    let mut last = match doc.sections.pop() {
                        Option::Some(sec) => sec,
                        Option::None => {
                            proof {
                                assert(false);
                            }
                            Section { path: Vec::new(), entries: Vec::new() }
                        },
                    };
                    last.entries.push(pair);
                    doc.sections.push(last);
                    proof {
                        let sp = append_entry(d0, e);
                        assert(doc@.sections =~~= sp.sections);
                        assert(doc@ =~~= sp);
                    }
                }
                Option::Some(doc)
            },
            Option::None => Option::None,
        }
    }
}

fn parse_rest(doc: TomlDoc, text: &str, pos: usize) -> (r: Option<TomlDoc>)
    requires
        pos <= text@.len(),
    ensures
        match r {
            Option::Some(d) => parse_from_spec(doc@, text@.subrange(pos as int, text@.len() as int))
                == Option::Some(d@),
            Option::None => parse_from_spec(doc@, text@.subrange(pos as int, text@.len() as int)) is None,
        },
    decreases text@.len() - pos,
{
    let len = text.unicode_len();
    let ghost sub = text@.subrange(pos as int, text@.len() as int);
    match find_char_from(text, '\n', pos) {
        Option::Some(j) => {
            proof {
                lemma_find_from_props(text@, '\n', pos as int);
                lemma_find_shift(text@, '\n', pos as int, pos as int);
            }
            let line = text.substring_char(pos, j);
            proof {
                assert(line@ =~= sub.subrange(0, j - pos));
            }
            match apply_line_exec(doc, line) {
                Option::None => Option::None,
                Option::Some(d2) => {
                    let r = parse_rest(d2, text, j + 1);
                    proof {
                        assert(text@.subrange(j + 1, text@.len() as int)
                            =~= sub.subrange(j - pos + 1, sub.len() as int));
                    }
                    r
                },
            }
        },
        Option::None => {
            proof {
                lemma_find_shift(text@, '\n', pos as int, pos as int);
            }
            let line = text.substring_char(pos, len);
            proof {
                assert(line@ =~= sub);
            }
            apply_line_exec(doc, line)
        },
    }
}

impl TomlDoc {
    /// Parse configuration text; `None` is a parse failure.
    pub fn parse(text: &str) -> (r: Option<TomlDoc>)
        ensures
            match r {
                Option::Some(d) => parse_doc(text@) == Option::Some(d@),
                Option::None => parse_doc(text@) is None,
            },
    {
        let joined = join_lines(text);
        let doc = TomlDoc::new();
        let r = parse_rest(doc, joined.as_str(), 0);
        proof {
            assert(joined@.subrange(0, joined@.len() as int) =~= joined@);
        }
        r
    }
}

} // verus!
