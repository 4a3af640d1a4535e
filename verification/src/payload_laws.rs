//! Laws about the inline payload: re-serializing a well-formed payload
//! token sequence to configuration text and parsing that text back yields
//! exactly the document described by the tokens.

use vstd::prelude::*;
use crate::text::{
    is_ws_char, is_trimmed, trimmed, lemma_find_unique, lemma_find_none, lemma_trimmed_fixed,
    bracket_delta, lemma_bracket_delta_concat, lemma_bracket_free_delta, lemma_bracket_delta_single,
};
use crate::tokens::{Delim, Tok, open_delim, close_delim};
use crate::reflow::{group_break, leaf_break, reflow_tok, reflow_list};
use crate::config::{SpecSection, SpecDoc, wf_key, wf_comp, wf_path, ser_path};
use crate::parse::{
    append_entry, push_section, apply_line, parse_from_spec, parse_doc, join_from, lemma_join_concat,
    lemma_join_no_newline, lemma_join_single,
};

verus! {

/// The text of a leaf token.
pub open spec fn tok_text(t: Tok) -> Seq<char> {
    match t {
        Tok::Ident(s) => s@,
        Tok::Punct(s) => s@,
        Tok::Literal(s) => s@,
        Tok::Group(_, _) => Seq::empty(),
    }
}

/// An identifier or punctuation token.
pub open spec fn is_word(t: Tok) -> bool {
    t is Ident || t is Punct
}

/// A character that may appear in a payload key or header component: no
/// whitespace and none of the characters that steer the line parser.
pub open spec fn wf_word_char(c: char) -> bool {
    !is_ws_char(c) && c != '\n' && c != '=' && c != '.' && c != '[' && c != ']' && c != '#'
}

/// A well-formed word token.
pub open spec fn wf_word(t: Tok) -> bool {
    &&& is_word(t)
    &&& tok_text(t).len() > 0
    &&& forall|i: int| 0 <= i < tok_text(t).len() ==> wf_word_char(tok_text(t)[i])
}

/// The dot punctuation separating header components.
pub open spec fn is_dot(t: Tok) -> bool {
    t matches Tok::Punct(s) && s@ == seq!['.']
}

/// The equals punctuation separating a key from its value.
pub open spec fn is_eq_tok(t: Tok) -> bool {
    t matches Tok::Punct(s) && s@ == seq!['=']
}

/// The concatenated text of a leaf-token run.
pub open spec fn toks_text(ts: Seq<Tok>) -> Seq<char>
    decreases ts.len(),
{
    if ts.len() == 0 {
        Seq::empty()
    } else {
        tok_text(ts[0]) + toks_text(ts.drop_first())
    }
}

/// A key or header component: word tokens led by an identifier.
pub open spec fn wf_run(ts: Seq<Tok>) -> bool {
    &&& ts.len() > 0
    &&& ts[0] is Ident
    &&& forall|i: int| 0 <= i < ts.len() ==> wf_word(#[trigger] ts[i])
}

/// First dot at or after `i`.
pub open spec fn find_dot(ts: Seq<Tok>, i: int) -> Option<int>
    decreases ts.len() - i,
{
    if i < 0 || i >= ts.len() {
        Option::None
    } else if is_dot(ts[i]) {
        Option::Some(i)
    } else {
        find_dot(ts, i + 1)
    }
}

/// Header contents: component runs separated by dots.
pub open spec fn wf_path_toks(ts: Seq<Tok>) -> bool
    decreases ts.len(),
{
    match find_dot(ts, 0) {
        Option::None => wf_run(ts),
        Option::Some(j) => {
            &&& 0 <= j < ts.len()
            &&& wf_run(ts.subrange(0, j))
            &&& wf_path_toks(ts.subrange(j + 1, ts.len() as int))
        },
    }
}

/// The component texts of header contents.
pub open spec fn path_texts(ts: Seq<Tok>) -> Seq<Seq<char>>
    decreases ts.len(),
{
    match find_dot(ts, 0) {
        Option::None => seq![toks_text(ts)],
        Option::Some(j) => {
            if 0 <= j < ts.len() {
                seq![toks_text(ts.subrange(0, j))] + path_texts(ts.subrange(j + 1, ts.len() as int))
            } else {
                seq![toks_text(ts)]
            }
        },
    }
}

/// An element of a bracketed array value: a literal or punctuation token
/// on one line, without bracket characters of its own.
pub open spec fn wf_item(t: Tok) -> bool {
    &&& t is Literal || t is Punct
    &&& forall|i: int| 0 <= i < tok_text(t).len() ==> tok_text(t)[i] != '\n' && tok_text(t)[i]
        != '[' && tok_text(t)[i] != ']'
}

/// A payload value: a bracket-neutral literal, or a bracketed array of
/// literals and punctuation.
pub open spec fn wf_value(t: Tok) -> bool {
    match t {
        Tok::Literal(s) => s@.len() > 0 && is_trimmed(s@) && bracket_delta(s@) == 0 && forall|i: int|
            0 <= i < s@.len() ==> s@[i] != '\n',
        Tok::Group(d, inner) => d == Delim::Bracket && forall|i: int|
            0 <= i < inner@.len() ==> wf_item(#[trigger] inner@[i]),
        _ => false,
    }
}

/// The value text a payload value re-serializes to.
pub open spec fn value_text(t: Tok) -> Seq<char> {
    match t {
        Tok::Literal(s) => s@,
        Tok::Group(_, inner) => seq!['['] + toks_text(inner@) + seq![']'],
        _ => Seq::empty(),
    }
}

/// First equals token at or after `i`.
pub open spec fn find_eq(ts: Seq<Tok>, i: int) -> Option<int>
    decreases ts.len() - i,
{
    if i < 0 || i >= ts.len() {
        Option::None
    } else if is_eq_tok(ts[i]) {
        Option::Some(i)
    } else {
        find_eq(ts, i + 1)
    }
}

/// A well-formed inline payload: a sequence of bracketed headers and
/// `key = value` groups, a header below the dependencies section at most
/// one level deep.
pub open spec fn wf_payload_toks(ts: Seq<Tok>) -> bool
    decreases ts.len(),
{
    if ts.len() == 0 {
        true
    } else {
        match ts[0] {
            Tok::Group(d, inner) => {
                &&& d == Delim::Bracket
                &&& wf_path_toks(inner@)
                &&& (path_texts(inner@).len() >= 2 && path_texts(inner@)[0] == "dependencies"@
                    ==> path_texts(inner@).len() == 2)
                &&& wf_payload_toks(ts.drop_first())
            },
            _ => match find_eq(ts, 0) {
                Option::Some(j) => {
                    &&& 1 <= j
                    &&& j + 1 < ts.len()
                    &&& wf_run(ts.subrange(0, j))
                    &&& wf_value(ts[j + 1])
                    &&& wf_payload_toks(ts.subrange(j + 2, ts.len() as int))
                },
                Option::None => false,
            },
        }
    }
}

/// What the payload means: headers open sections, `key = value` groups add
/// entries to the last open section.
pub open spec fn payload_apply(d: SpecDoc, ts: Seq<Tok>) -> SpecDoc
    decreases ts.len(),
{
    if ts.len() == 0 {
        d
    } else {
        match ts[0] {
            Tok::Group(_, inner) => payload_apply(push_section(d, path_texts(inner@)), ts.drop_first()),
            _ => match find_eq(ts, 0) {
                Option::Some(j) => {
                    if 0 <= j && j + 2 <= ts.len() {
                        payload_apply(
                            append_entry(d, (toks_text(ts.subrange(0, j)), value_text(ts[j + 1]))),
                            ts.subrange(j + 2, ts.len() as int),
                        )
                    } else {
                        d
                    }
                },
                Option::None => d,
            },
        }
    }
}

/// A token before which the payload grammar may stand: the start of the
/// stream, a header group, or a value.
pub open spec fn prev_ok(prev: Option<Tok>) -> bool {
    match prev {
        Option::None => true,
        Option::Some(t) => t is Group || t is Literal,
    }
}

/// Splitting a reflow at any interior position.
proof fn lemma_reflow_split(ts: Seq<Tok>, j: int, prev: Option<Tok>)
    requires
        0 < j <= ts.len(),
    ensures
        reflow_list(ts, prev) == reflow_list(ts.subrange(0, j), prev) + reflow_list(
            ts.subrange(j, ts.len() as int),
            Option::Some(ts[j - 1]),
        ),
    decreases j,
{
    if j == 1 {
        let sub = ts.subrange(0, 1);
        assert(sub.len() == 1 && sub[0] == ts[0]);
        assert(sub.drop_first() =~= Seq::<Tok>::empty());
        assert(reflow_list(sub.drop_first(), Option::Some(ts[0])) == Seq::<char>::empty());
        assert(ts.subrange(1, ts.len() as int) =~= ts.drop_first());
        assert(reflow_list(sub, prev) =~= reflow_tok(ts[0], prev));
        assert(reflow_list(ts, prev) == reflow_tok(ts[0], prev) + reflow_list(
            ts.drop_first(),
            Option::Some(ts[0]),
        ));
    } else {
        lemma_reflow_split(ts.drop_first(), j - 1, Option::Some(ts[0]));
        assert(ts.drop_first().subrange(0, j - 1) =~= ts.subrange(1, j));
        assert(ts.drop_first().subrange(j - 1, ts.drop_first().len() as int) =~= ts.subrange(
            j,
            ts.len() as int,
        ));
        assert(ts.drop_first()[j - 2] == ts[j - 1]);
        let head = ts.subrange(0, j);
        assert(head[0] == ts[0]);
        assert(head.drop_first() =~= ts.subrange(1, j));
        assert(reflow_tok(ts[0], prev) + (reflow_list(ts.subrange(1, j), Option::Some(ts[0]))
            + reflow_list(ts.subrange(j, ts.len() as int), Option::Some(ts[j - 1]))) =~= (reflow_tok(
            ts[0],
            prev,
        ) + reflow_list(ts.subrange(1, j), Option::Some(ts[0]))) + reflow_list(
            ts.subrange(j, ts.len() as int),
            Option::Some(ts[j - 1]),
        ));
    }
}

/// Word and dot tokens reflow to their plain concatenated text when
/// nothing before them forces a line break.
proof fn lemma_reflow_leaves(ts: Seq<Tok>, prev: Option<Tok>)
    requires
        forall|i: int| 0 <= i < ts.len() ==> (#[trigger] ts[i]) is Ident || ts[i] is Punct,
        match prev {
            Option::None => true,
            Option::Some(t) => t is Ident || t is Punct,
        },
    ensures
        reflow_list(ts, prev) == toks_text(ts),
    decreases ts.len(),
{
    if ts.len() > 0 {
        lemma_reflow_leaves(ts.drop_first(), Option::Some(ts[0]));
        assert(forall|i: int| 0 <= i < ts.drop_first().len() ==> ts.drop_first()[i] == ts[i + 1]);
        assert(reflow_tok(ts[0], prev) == tok_text(ts[0]));
    }
}

/// The joining pass folds re-serialized array elements, broken across
/// lines, back into their plain concatenated text.
proof fn lemma_join_items(ts: Seq<Tok>, prev: Option<Tok>, depth: int)
    requires
        forall|i: int| 0 <= i < ts.len() ==> wf_item(#[trigger] ts[i]),
        depth >= 1,
    ensures
        join_from(reflow_list(ts, prev), depth) == toks_text(ts),
        bracket_delta(reflow_list(ts, prev)) == 0,
    decreases ts.len(),
{
    if ts.len() == 0 {
        assert(join_from(reflow_list(ts, prev), depth) =~= toks_text(ts));
        assert(bracket_delta(Seq::<char>::empty()) == 0);
    } else {
        assert(forall|i: int| 0 <= i < ts.drop_first().len() ==> ts.drop_first()[i] == ts[i + 1]);
        lemma_join_items(ts.drop_first(), Option::Some(ts[0]), depth);
        let brk = leaf_break(prev);
        let text = tok_text(ts[0]);
        let rest = reflow_list(ts.drop_first(), Option::Some(ts[0]));
        assert(reflow_tok(ts[0], prev) == brk + text);
        assert(reflow_list(ts, prev) == (brk + text) + rest);
        assert(bracket_delta(brk) == 0) by {
            if brk.len() > 0 {
                lemma_bracket_delta_single('\n');
                assert(brk =~= seq!['\n']);
            } else {
                assert(brk =~= Seq::<char>::empty());
            }
        }
        lemma_bracket_free_delta(text);
        lemma_bracket_delta_concat(brk, text);
        lemma_bracket_delta_concat(brk + text, rest);
        lemma_join_concat(brk + text, rest, depth);
        lemma_join_concat(brk, text, depth);
        assert(join_from(brk, depth) =~= Seq::<char>::empty()) by {
            if brk.len() > 0 {
                assert(brk =~= seq!['\n']);
                lemma_join_single('\n', depth);
            }
        }
        lemma_join_no_newline(text, depth);
        assert(join_from(brk + text, depth) =~= text);
        assert(join_from(reflow_list(ts, prev), depth) =~= text + toks_text(ts.drop_first()));
    }
}

/// The text of a run of well-formed word tokens is non-empty and made of
/// well-formed word characters.
proof fn lemma_toks_text_chars(ts: Seq<Tok>)
    requires
        forall|i: int| 0 <= i < ts.len() ==> wf_word(#[trigger] ts[i]),
    ensures
        forall|i: int| 0 <= i < toks_text(ts).len() ==> wf_word_char(#[trigger] toks_text(ts)[i]),
        ts.len() > 0 ==> toks_text(ts).len() > 0,
    decreases ts.len(),
{
    if ts.len() > 0 {
        lemma_toks_text_chars(ts.drop_first());
        assert(forall|i: int| 0 <= i < ts.drop_first().len() ==> ts.drop_first()[i] == ts[i + 1]);
        let t0 = tok_text(ts[0]);
        let rest = toks_text(ts.drop_first());
        assert forall|i: int| 0 <= i < toks_text(ts).len() implies wf_word_char(toks_text(ts)[i]) by {
            if i < t0.len() {
                assert(toks_text(ts)[i] == t0[i]);
            } else {
                assert(toks_text(ts)[i] == rest[i - t0.len()]);
            }
        }
    }
}

/// The text of an array's elements has no line feed.
proof fn lemma_items_text_chars(ts: Seq<Tok>)
    requires
        forall|i: int| 0 <= i < ts.len() ==> wf_item(#[trigger] ts[i]),
    ensures
        forall|i: int| 0 <= i < toks_text(ts).len() ==> toks_text(ts)[i] != '\n',
    decreases ts.len(),
{
    if ts.len() > 0 {
        lemma_items_text_chars(ts.drop_first());
        assert(forall|i: int| 0 <= i < ts.drop_first().len() ==> ts.drop_first()[i] == ts[i + 1]);
        let t0 = tok_text(ts[0]);
        let rest = toks_text(ts.drop_first());
        assert forall|i: int| 0 <= i < toks_text(ts).len() implies toks_text(ts)[i] != '\n' by {
            if i < t0.len() {
                assert(toks_text(ts)[i] == t0[i]);
            } else {
                assert(toks_text(ts)[i] == rest[i - t0.len()]);
            }
        }
    }
}

/// Splitting concatenated token text at any position.
proof fn lemma_toks_text_split(ts: Seq<Tok>, j: int)
    requires
        0 <= j <= ts.len(),
    ensures
        toks_text(ts) == toks_text(ts.subrange(0, j)) + toks_text(ts.subrange(j, ts.len() as int)),
    decreases j,
{
    if j == 0 {
        assert(ts.subrange(0, 0) =~= Seq::<Tok>::empty());
        assert(ts.subrange(0, ts.len() as int) =~= ts);
        assert(toks_text(ts.subrange(0, 0)) + toks_text(ts) =~= toks_text(ts));
    } else {
        lemma_toks_text_split(ts.drop_first(), j - 1);
        assert(ts.drop_first().subrange(0, j - 1) =~= ts.subrange(1, j));
        assert(ts.drop_first().subrange(j - 1, ts.drop_first().len() as int) =~= ts.subrange(
            j,
            ts.len() as int,
        ));
        let head = ts.subrange(0, j);
        assert(head[0] == ts[0]);
        assert(head.drop_first() =~= ts.subrange(1, j));
        assert(tok_text(ts[0]) + (toks_text(ts.subrange(1, j)) + toks_text(ts.subrange(j, ts.len() as int)))
            =~= (tok_text(ts[0]) + toks_text(ts.subrange(1, j))) + toks_text(
            ts.subrange(j, ts.len() as int),
        ));
    }
}

/// Header contents spell exactly the serialized form of their component
/// texts, and those components are well-formed.
proof fn lemma_path_toks_text(ts: Seq<Tok>)
    requires
        wf_path_toks(ts),
    ensures
        toks_text(ts) == ser_path(path_texts(ts)),
        wf_path(path_texts(ts)),
        forall|i: int| 0 <= i < ts.len() ==> (#[trigger] ts[i]) is Ident || ts[i] is Punct,
    decreases ts.len(),
{
    match find_dot(ts, 0) {
        Option::None => {
            lemma_find_dot_props(ts, 0);
            lemma_toks_text_chars(ts);
            assert(path_texts(ts) =~= seq![toks_text(ts)]);
            assert(wf_comp(toks_text(ts)));
        },
        Option::Some(j) => {
            lemma_find_dot_props(ts, 0);
            let comp = ts.subrange(0, j);
            let rest = ts.subrange(j + 1, ts.len() as int);
            lemma_path_toks_text(rest);
            lemma_toks_text_chars(comp);
            assert(wf_comp(toks_text(comp)));
            lemma_toks_text_split(ts, j);
            lemma_toks_text_split(ts.subrange(j, ts.len() as int), 1);
            assert(ts.subrange(j, ts.len() as int).subrange(0, 1) =~= seq![ts[j]]);
            assert(ts.subrange(j, ts.len() as int).subrange(1, ts.len() - j) =~= rest);
            assert(toks_text(seq![ts[j]]) =~= seq!['.']) by {
                assert(seq![ts[j]].drop_first() =~= Seq::<Tok>::empty());
                assert(tok_text(ts[j]) + Seq::<char>::empty() =~= tok_text(ts[j]));
            }
            let p = path_texts(ts);
            assert(p =~= seq![toks_text(comp)] + path_texts(rest));
            assert(p.len() >= 2);
            assert(p[0] == toks_text(comp));
            assert(p.drop_first() =~= path_texts(rest));
            assert(ser_path(p) == p[0] + seq!['.'] + ser_path(p.drop_first()));
            assert(toks_text(ts) =~= toks_text(comp) + seq!['.'] + ser_path(path_texts(rest)));
            assert(wf_path(p)) by {
                assert(forall|i: int| 0 <= i < path_texts(rest).len() ==> p[i + 1] == path_texts(rest)[i]);
            }
            assert(forall|i: int| 0 <= i < ts.len() ==> (#[trigger] ts[i]) is Ident || ts[i] is Punct) by {
                assert(forall|i: int| 0 <= i < j ==> ts[i] == comp[i]);
                assert(is_dot(ts[j]));
                assert(forall|i: int| j < i < ts.len() ==> ts[i] == rest[i - j - 1]);
            }
        },
    }
}

/// What a dot search result means.
proof fn lemma_find_dot_props(ts: Seq<Tok>, i: int)
    requires
        0 <= i <= ts.len(),
    ensures
        match find_dot(ts, i) {
            Option::Some(j) => i <= j < ts.len() && is_dot(ts[j]) && forall|t: int|
                i <= t < j ==> !is_dot(#[trigger] ts[t]),
            Option::None => forall|t: int| i <= t < ts.len() ==> !is_dot(#[trigger] ts[t]),
        },
    decreases ts.len() - i,
{
    if i < ts.len() && !is_dot(ts[i]) {
        lemma_find_dot_props(ts, i + 1);
    }
}

/// A non-empty well-formed payload re-serialized after a header or a value
/// starts on a fresh line.
proof fn lemma_reflow_head(ts: Seq<Tok>, prev: Option<Tok>)
    requires
        wf_payload_toks(ts),
        ts.len() > 0,
        prev matches Option::Some(t) && (t is Group || t is Literal),
    ensures
        reflow_list(ts, prev).len() > 0,
        reflow_list(ts, prev)[0] == '\n',
{
    let rt = reflow_tok(ts[0], prev);
    match ts[0] {
        Tok::Group(d, inner) => {
            assert(group_break(prev) =~= seq!['\n']);
            assert(rt == group_break(prev) + open_delim(d) + reflow_list(inner@, Option::None)
                + close_delim(d));
            assert(rt[0] == '\n');
        },
        _ => {
            let j = find_eq(ts, 0)->Some_0;
            assert(wf_run(ts.subrange(0, j)));
            assert(ts.subrange(0, j)[0] == ts[0]);
            assert(ts[0] is Ident);
            assert(leaf_break(prev) =~= seq!['\n']);
            assert(rt == leaf_break(prev) + tok_text(ts[0]));
            assert(rt[0] == '\n');
        },
    }
    assert(reflow_list(ts, prev) == rt + reflow_list(ts.drop_first(), Option::Some(ts[0])));
    assert(reflow_list(ts, prev)[0] == rt[0]);
}

/// A tight serialized entry line (no spaces around `=`) parses back to
/// exactly its entry.
proof fn lemma_apply_entry_line_tight(d: SpecDoc, k: Seq<char>, v: Seq<char>)
    requires
        wf_key(k),
        v.len() > 0,
        is_trimmed(v),
        forall|i: int| 0 <= i < v.len() ==> v[i] != '\n',
    ensures
        apply_line(d, k + seq!['='] + v) == Option::Some(append_entry(d, (k, v))),
{
    let line = k + seq!['='] + v;
    assert(line[0] == k[0]);
    assert(line[line.len() - 1] == v[v.len() - 1]);
    lemma_trimmed_fixed(line);
    let j = k.len() as int;
    assert(line[j] == '=');
    assert(forall|i: int| 0 <= i < j ==> line[i] == k[i]);
    lemma_find_unique(line, '=', 0, j);
    assert(line.subrange(0, j) =~= k);
    lemma_trimmed_fixed(k);
    assert(line.subrange(j + 1, line.len() as int) =~= v);
    lemma_trimmed_fixed(v);
}

/// Consuming the first line of a text whose remainder is empty or starts
/// on a fresh line.
proof fn lemma_parse_head_line(d: SpecDoc, line: Seq<char>, rest: Seq<char>)
    requires
        forall|i: int| 0 <= i < line.len() ==> line[i] != '\n',
        rest.len() == 0 || rest[0] == '\n',
    ensures
        parse_from_spec(d, line + rest) == match apply_line(d, line) {
            Option::None => Option::None::<SpecDoc>,
            Option::Some(d2) => if rest.len() == 0 {
                Option::Some(d2)
            } else {
                parse_from_spec(d2, rest.subrange(1, rest.len() as int))
            },
        },
{
    let s = line + rest;
    if rest.len() == 0 {
        assert(s =~= line);
        lemma_find_none(line, '\n', 0);
    } else {
        assert(s[line.len() as int] == '\n');
        assert(forall|t: int| 0 <= t < line.len() ==> s[t] == line[t]);
        lemma_find_unique(s, '\n', 0, line.len() as int);
        assert(s.subrange(0, line.len() as int) =~= line);
        assert(s.subrange(line.len() as int + 1, s.len() as int) =~= rest.subrange(
            1,
            rest.len() as int,
        ));
    }
}

/// A leading line feed is an empty line: parsing skips it.
proof fn lemma_skip_leading_newline(d: SpecDoc, s: Seq<char>)
    requires
        s.len() > 0,
        s[0] == '\n',
    ensures
        parse_from_spec(d, s) == parse_from_spec(d, s.subrange(1, s.len() as int)),
{
    lemma_find_unique(s, '\n', 0, 0);
    assert(s.subrange(0, 0) =~= Seq::<char>::empty());
    assert(trimmed(Seq::<char>::empty()) =~= Seq::<char>::empty());
}

/// A payload value's text: non-empty single-line trimmed bracket-neutral
/// text, and what its re-serialization after an equals sign joins back to.
proof fn lemma_value_text(t: Tok, prev: Option<Tok>)
    requires
        wf_value(t),
        prev matches Option::Some(p) && p is Punct,
    ensures
        value_text(t).len() > 0,
        is_trimmed(value_text(t)),
        forall|i: int| 0 <= i < value_text(t).len() ==> value_text(t)[i] != '\n',
        join_from(reflow_tok(t, prev), 0) == value_text(t),
        bracket_delta(reflow_tok(t, prev)) == 0,
{
    match t {
        Tok::Literal(_) => {
            assert(leaf_break(prev) =~= Seq::<char>::empty());
            assert(reflow_tok(t, prev) =~= value_text(t));
            lemma_join_no_newline(value_text(t), 0);
        },
        Tok::Group(d, inner) => {
            lemma_items_text_chars(inner@);
            let body = reflow_list(inner@, Option::None);
            lemma_join_items(inner@, Option::None, 1);
            assert(group_break(prev) =~= Seq::<char>::empty());
            let vr = reflow_tok(t, prev);
            assert(vr =~= seq!['['] + (body + seq![']']));
            lemma_join_concat(seq!['['], body + seq![']'], 0);
            lemma_join_single('[', 0);
            lemma_bracket_delta_single('[');
            lemma_bracket_delta_single(']');
            lemma_join_concat(body, seq![']'], 1);
            lemma_join_single(']', 1);
            assert(join_from(vr, 0) =~= seq!['['] + (toks_text(inner@) + seq![']']));
            assert(join_from(vr, 0) =~= value_text(t));
            assert(bracket_delta(vr) == 0) by {
                lemma_bracket_delta_concat(seq!['['], body + seq![']']);
                lemma_bracket_delta_concat(body, seq![']']);
            }
            let vt = value_text(t);
            assert(vt[0] == '[');
            assert(vt[vt.len() - 1] == ']');
            assert forall|i: int| 0 <= i < vt.len() implies vt[i] != '\n' by {
                if 0 < i < vt.len() - 1 {
                    assert(vt[i] == toks_text(inner@)[i - 1]);
                }
            }
        },
        _ => {},
    }
}

/// A key run's re-serialization: a line break where its position demands
/// one, then its plain text.
proof fn lemma_reflow_key(key: Seq<Tok>, prev: Option<Tok>)
    requires
        wf_run(key),
        prev_ok(prev),
    ensures
        reflow_list(key, prev) == leaf_break(prev) + toks_text(key),
{
    assert(forall|i: int| 0 <= i < key.drop_first().len() ==> key.drop_first()[i] == key[i + 1]);
    lemma_reflow_leaves(key.drop_first(), Option::Some(key[0]));
    assert(reflow_tok(key[0], prev) == leaf_break(prev) + tok_text(key[0]));
    assert((leaf_break(prev) + tok_text(key[0])) + toks_text(key.drop_first()) =~= leaf_break(prev)
        + (tok_text(key[0]) + toks_text(key.drop_first())));
}

/// The central induction: parsing the joined re-serialization of a
/// well-formed payload applies exactly the payload's headers and entries.
#[verifier::rlimit(100)]
proof fn lemma_payload_parse(d: SpecDoc, ts: Seq<Tok>, prev: Option<Tok>)
    requires
        wf_payload_toks(ts),
        prev_ok(prev),
    ensures
        parse_from_spec(d, join_from(reflow_list(ts, prev), 0)) == Option::Some(payload_apply(d, ts)),
    decreases ts.len(),
{
    if ts.len() == 0 {
        assert(join_from(reflow_list(ts, prev), 0) =~= Seq::<char>::empty());
        lemma_find_none(Seq::<char>::empty(), '\n', 0);
        assert(trimmed(Seq::<char>::empty()) =~= Seq::<char>::empty());
    } else {
        match ts[0] {
            Tok::Group(delim, inner_vec) => {
                let inner = inner_vec@;
                let p = path_texts(inner);
                lemma_path_toks_text(inner);
                lemma_reflow_leaves(inner, Option::None);
                let header_line = seq!['['] + ser_path(p) + seq![']'];
                let rest = reflow_list(ts.drop_first(), Option::Some(ts[0]));
                assert(group_break(prev) =~= seq!['\n']);
                let rt = reflow_tok(ts[0], prev);
                assert(rt =~= seq!['\n'] + header_line);
                let whole = reflow_list(ts, prev);
                assert(whole =~= rt + rest);
                // line texts are bracket-neutral and line-feed free
                crate::laws::lemma_ser_path_no_newline(p);
                crate::laws::lemma_ser_path_bracket_free(p);
                assert forall|i: int| 0 <= i < header_line.len() implies header_line[i] != '\n' by {
                    if 0 < i < header_line.len() - 1 {
                        assert(header_line[i] == ser_path(p)[i - 1]);
                    }
                }
                assert(bracket_delta(rt) == 0) by {
                    lemma_bracket_delta_single('\n');
                    lemma_bracket_delta_single('[');
                    lemma_bracket_delta_single(']');
                    lemma_bracket_free_delta(ser_path(p));
                    lemma_bracket_delta_concat(seq!['['], ser_path(p));
                    lemma_bracket_delta_concat(seq!['['] + ser_path(p), seq![']']);
                    assert(header_line =~= (seq!['['] + ser_path(p)) + seq![']']);
                    lemma_bracket_delta_concat(seq!['\n'], header_line);
                }
                // the joined whole keeps the header's line shape
                lemma_join_concat(rt, rest, 0);
                assert(join_from(rt, 0) =~= rt) by {
                    lemma_join_no_newline(header_line, 0);
                    assert(rt[0] == '\n');
                    assert(rt.drop_first() =~= header_line);
                }
                let jrest = join_from(rest, 0);
                let joined = join_from(whole, 0);
                assert(joined =~= seq!['\n'] + (header_line + jrest));
                assert(joined[0] == '\n');
                lemma_skip_leading_newline(d, joined);
                assert(joined.subrange(1, joined.len() as int) =~= header_line + jrest);
                if ts.drop_first().len() > 0 {
                    lemma_reflow_head(ts.drop_first(), Option::Some(ts[0]));
                    assert(jrest.len() > 0 && jrest[0] == '\n') by {
                        assert(rest[0] == '\n');
                        assert(jrest =~= seq!['\n'] + join_from(rest.drop_first(), 0));
                    }
                } else {
                    assert(rest =~= Seq::<char>::empty());
                    assert(jrest =~= Seq::<char>::empty());
                }
                lemma_parse_head_line(d, header_line, jrest);
                crate::laws::lemma_apply_header_line(d, p);
                let d2 = push_section(d, p);
                if ts.drop_first().len() > 0 {
                    lemma_payload_parse(d2, ts.drop_first(), Option::Some(ts[0]));
                    lemma_skip_leading_newline(d2, jrest);
                }
                assert(payload_apply(d, ts) == payload_apply(d2, ts.drop_first()));
                assert(parse_from_spec(d, join_from(reflow_list(ts, prev), 0)) == Option::Some(
                    payload_apply(d, ts),
                ));
            },
            _ => {
                lemma_find_eq_props(ts, 0);
                let j = find_eq(ts, 0)->Some_0;
                let key = ts.subrange(0, j);
                let valtok = ts[j + 1];
                let rest_toks = ts.subrange(j + 2, ts.len() as int);
                // split the re-serialization into key, equals, value, rest
                lemma_reflow_split(ts, j, prev);
                let tail = ts.subrange(j, ts.len() as int);
                assert(tail[0] == ts[j]);
                assert(tail.drop_first() =~= ts.subrange(j + 1, ts.len() as int));
                let tail2 = ts.subrange(j + 1, ts.len() as int);
                assert(tail2[0] == ts[j + 1]);
                assert(tail2.drop_first() =~= rest_toks);
                assert(ts[j - 1] == key[j - 1]);
                assert(wf_word(key[j - 1]));
                assert(leaf_break(Option::Some(ts[j - 1])) =~= Seq::<char>::empty());
                assert(reflow_tok(ts[j], Option::Some(ts[j - 1])) =~= seq!['=']) by {
                    assert(tok_text(ts[j]) == seq!['=']);
                }
                lemma_value_text(valtok, Option::Some(ts[j]));
                lemma_reflow_key(key, prev);
                let ib = leaf_break(prev);
                let ktext = toks_text(key);
                let vtext = value_text(valtok);
                let vr = reflow_tok(valtok, Option::Some(ts[j]));
                let rest = reflow_list(rest_toks, Option::Some(valtok));
                let line = ktext + seq!['='] + vtext;
                let whole = reflow_list(ts, prev);
                assert(reflow_list(tail2, Option::Some(ts[j])) == vr + rest);
                assert(reflow_list(tail, Option::Some(ts[j - 1])) == reflow_tok(ts[j], Option::Some(ts[j - 1]))
                    + reflow_list(tail2, Option::Some(ts[j])));
                assert(reflow_list(tail, Option::Some(ts[j - 1])) =~= seq!['='] + (vr + rest));
                assert(whole == reflow_list(key, prev) + reflow_list(tail, Option::Some(ts[j - 1])));
                assert(whole =~= (ib + ktext) + (seq!['='] + (vr + rest)));
                // the key text is a well-formed key
                lemma_toks_text_chars(key);
                assert(ktext[0] == tok_text(key[0])[0] || ktext.len() == 0) by {
                    assert(tok_text(key[0]).len() > 0);
                }
                assert(wf_key(ktext));
                // join the pieces: every leading piece is bracket-neutral
                assert(bracket_delta(ib) == 0 && bracket_delta(ktext) == 0) by {
                    if ib.len() > 0 {
                        lemma_bracket_delta_single('\n');
                        assert(ib =~= seq!['\n']);
                    } else {
                        assert(ib =~= Seq::<char>::empty());
                    }
                    lemma_bracket_free_delta(ktext);
                }
                lemma_bracket_delta_single('=');
                lemma_bracket_delta_concat(ib, ktext);
                lemma_join_concat(ib + ktext, seq!['='] + (vr + rest), 0);
                assert(join_from(ib + ktext, 0) =~= ib + ktext) by {
                    lemma_join_no_newline(ktext, 0);
                    if ib.len() > 0 {
                        assert((ib + ktext)[0] == '\n');
                        assert((ib + ktext).drop_first() =~= ktext);
                    } else {
                        assert(ib + ktext =~= ktext);
                    }
                }
                lemma_join_concat(seq!['='], vr + rest, 0);
                lemma_join_single('=', 0);
                lemma_join_concat(vr, rest, 0);
                let jrest = join_from(rest, 0);
                let joined = join_from(whole, 0);
                assert(joined =~= (ib + ktext) + (seq!['='] + (vtext + jrest)));
                let cont = line + jrest;
                assert(joined =~= ib + cont);
                assert forall|i: int| 0 <= i < line.len() implies line[i] != '\n' by {
                    if i < ktext.len() {
                        assert(line[i] == ktext[i]);
                    } else if i == ktext.len() {
                        assert(line[i] == '=');
                    } else {
                        assert(line[i] == vtext[i - ktext.len() - 1]);
                    }
                }
                if rest_toks.len() > 0 {
                    lemma_reflow_head(rest_toks, Option::Some(valtok));
                    assert(jrest.len() > 0 && jrest[0] == '\n') by {
                        assert(rest[0] == '\n');
                        assert(jrest =~= seq!['\n'] + join_from(rest.drop_first(), 0));
                    }
                } else {
                    assert(rest =~= Seq::<char>::empty());
                    assert(jrest =~= Seq::<char>::empty());
                }
                lemma_apply_entry_line_tight(d, ktext, vtext);
                let d2 = append_entry(d, (ktext, vtext));
                match prev {
                    Option::None => {
                        assert(ib =~= Seq::<char>::empty());
                        assert(joined =~= cont);
                        lemma_parse_head_line(d, line, jrest);
                    },
                    Option::Some(_) => {
                        assert(ib =~= seq!['\n']);
                        assert(joined =~= seq!['\n'] + cont);
                        assert(joined[0] == '\n');
                        lemma_skip_leading_newline(d, joined);
                        assert(joined.subrange(1, joined.len() as int) =~= cont);
                        lemma_parse_head_line(d, line, jrest);
                    },
                }
                if rest_toks.len() > 0 {
                    lemma_payload_parse(d2, rest_toks, Option::Some(valtok));
                    lemma_skip_leading_newline(d2, jrest);
                }
                assert(payload_apply(d, ts) == payload_apply(d2, rest_toks));
                assert(parse_from_spec(d, join_from(reflow_list(ts, prev), 0)) == Option::Some(
                    payload_apply(d, ts),
                ));
            },
        }
    }
}

/// LAW — payload round trip: re-serializing a well-formed inline payload
/// to configuration text and parsing that text back succeeds and yields
/// exactly the document the payload's headers and entries describe.
pub proof fn lemma_payload_round_trip(ts: Seq<Tok>)
    requires
        wf_payload_toks(ts),
    ensures
        parse_doc(reflow_list(ts, Option::None)) == Option::Some(payload_apply(SpecDoc::empty(), ts)),
{
    lemma_payload_parse(SpecDoc::empty(), ts, Option::None);
}

/// The entries before the payload's next header.
pub open spec fn lead_entries(ts: Seq<Tok>) -> Seq<(Seq<char>, Seq<char>)>
    decreases ts.len(),
{
    if ts.len() == 0 {
        Seq::empty()
    } else {
        match ts[0] {
            Tok::Group(_, _) => Seq::empty(),
            _ => match find_eq(ts, 0) {
                Option::Some(j) => {
                    if 0 <= j && j + 2 <= ts.len() {
                        seq![(toks_text(ts.subrange(0, j)), value_text(ts[j + 1]))] + lead_entries(
                            ts.subrange(j + 2, ts.len() as int),
                        )
                    } else {
                        Seq::empty()
                    }
                },
                Option::None => Seq::empty(),
            },
        }
    }
}

/// The payload from its next header on.
pub open spec fn after_lead(ts: Seq<Tok>) -> Seq<Tok>
    decreases ts.len(),
{
    if ts.len() == 0 {
        Seq::empty()
    } else {
        match ts[0] {
            Tok::Group(_, _) => ts,
            _ => match find_eq(ts, 0) {
                Option::Some(j) => {
                    if 0 <= j && j + 2 <= ts.len() {
                        after_lead(ts.subrange(j + 2, ts.len() as int))
                    } else {
                        Seq::empty()
                    }
                },
                Option::None => Seq::empty(),
            },
        }
    }
}

/// The remainder after the leading entries is never longer.
proof fn lemma_after_lead_len(ts: Seq<Tok>)
    ensures
        after_lead(ts).len() <= ts.len(),
    decreases ts.len(),
{
    if ts.len() > 0 {
        match ts[0] {
            Tok::Group(_, _) => {},
            _ => match find_eq(ts, 0) {
                Option::Some(j) => {
                    if 0 <= j && j + 2 <= ts.len() {
                        lemma_after_lead_len(ts.subrange(j + 2, ts.len() as int));
                    }
                },
                Option::None => {},
            },
        }
    }
}

#[via_fn]
proof fn block_sections_decreases(ts: Seq<Tok>) {
    if ts.len() > 0 {
        lemma_after_lead_len(ts.drop_first());
    }
}

/// The sections a payload describes, token block by token block: each
/// header with the entries that follow it.
pub open spec fn block_sections(ts: Seq<Tok>) -> Seq<SpecSection>
    decreases ts.len(),
    via block_sections_decreases
{
    if ts.len() == 0 {
        Seq::empty()
    } else {
        match ts[0] {
            Tok::Group(_, inner) => seq![
                SpecSection { path: path_texts(inner@), entries: lead_entries(ts.drop_first()) },
            ] + block_sections(after_lead(ts.drop_first())),
            _ => Seq::empty(),
        }
    }
}

/// The payload applied to a document: its leading entries extend the
/// document, and its blocks append whole sections.
proof fn lemma_payload_shape(d: SpecDoc, ts: Seq<Tok>)
    requires
        wf_payload_toks(ts),
    ensures
        payload_apply(d, ts) == (SpecDoc {
            root: crate::laws::apply_entries(d, lead_entries(ts)).root,
            sections: crate::laws::apply_entries(d, lead_entries(ts)).sections + block_sections(
                after_lead(ts),
            ),
        }),
    decreases ts.len(),
{
    if ts.len() == 0 {
        assert(crate::laws::apply_entries(d, lead_entries(ts)) == d);
        assert(d.sections + block_sections(after_lead(ts)) =~= d.sections);
        assert(payload_apply(d, ts) =~~= SpecDoc {
            root: d.root,
            sections: d.sections + block_sections(after_lead(ts)),
        });
    } else {
        match ts[0] {
            Tok::Group(_, inner) => {
                let p = path_texts(inner@);
                let drop = ts.drop_first();
                let sec0 = SpecSection { path: p, entries: lead_entries(drop) };
                lemma_payload_shape(push_section(d, p), drop);
                crate::laws::lemma_apply_section(d, sec0);
                assert(crate::laws::apply_section_doc(d, sec0) == crate::laws::apply_entries(
                    push_section(d, p),
                    lead_entries(drop),
                ));
                assert(lead_entries(ts) =~= Seq::<(Seq<char>, Seq<char>)>::empty());
                assert(crate::laws::apply_entries(d, lead_entries(ts)) == d);
                assert(block_sections(after_lead(ts)) == seq![sec0] + block_sections(after_lead(drop)));
                assert(d.sections.push(sec0) + block_sections(after_lead(drop)) =~= d.sections + (
                seq![sec0] + block_sections(after_lead(drop))));
                assert(payload_apply(d, ts) =~~= SpecDoc {
                    root: d.root,
                    sections: d.sections + block_sections(after_lead(ts)),
                });
            },
            _ => {
                lemma_find_eq_props(ts, 0);
                let j = find_eq(ts, 0)->Some_0;
                let e = (toks_text(ts.subrange(0, j)), value_text(ts[j + 1]));
                let rest = ts.subrange(j + 2, ts.len() as int);
                lemma_payload_shape(append_entry(d, e), rest);
                assert(lead_entries(ts) == seq![e] + lead_entries(rest));
                let le = lead_entries(ts);
                assert(le[0] == e);
                assert(le.drop_first() =~= lead_entries(rest));
                assert(crate::laws::apply_entries(d, le) == crate::laws::apply_entries(
                    append_entry(d, e),
                    lead_entries(rest),
                ));
                assert(after_lead(ts) == after_lead(rest));
                assert(payload_apply(d, ts) == payload_apply(append_entry(d, e), rest));
            },
        }
    }
}

/// The names bound by a dependency table.
pub open spec fn dep_names(s: Seq<(Seq<char>, crate::manifest::SpecDepValue)>) -> Set<Seq<char>> {
    Set::new(|k: Seq<char>| exists|i: int| 0 <= i < s.len() && (#[trigger] s[i]).0 == k)
}

/// The keys of an entry list.
pub open spec fn entry_names(es: Seq<(Seq<char>, Seq<char>)>) -> Set<Seq<char>> {
    Set::new(|k: Seq<char>| exists|i: int| 0 <= i < es.len() && (#[trigger] es[i]).0 == k)
}

/// The dependency names one section binds: its entry keys when it is the
/// dependencies section, its own name when it sits one level below it.
pub open spec fn sec_names(sec: SpecSection) -> Set<Seq<char>> {
    if sec.path == crate::manifest::deps_path() {
        entry_names(sec.entries)
    } else if sec.path.len() == 2 && sec.path[0] == "dependencies"@ {
        Set::empty().insert(sec.path[1])
    } else {
        Set::empty()
    }
}

/// The dependency names a section list binds, from position `i` on.
pub open spec fn secs_names(ss: Seq<SpecSection>, i: int) -> Set<Seq<char>>
    decreases ss.len() - i,
{
    if i < 0 || i >= ss.len() {
        Set::empty()
    } else {
        sec_names(ss[i]).union(secs_names(ss, i + 1))
    }
}

/// No section's path sits more than one level below the dependencies
/// section.
pub open spec fn shallow_paths(ss: Seq<SpecSection>) -> bool {
    forall|i: int| 0 <= i < ss.len() ==> !((#[trigger] ss[i]).path.len() > 2 && ss[i].path[0]
        == "dependencies"@)
}

/// Extraction succeeds on shallow sections and binds exactly their names.
proof fn lemma_extract_names(ss: Seq<SpecSection>, i: int)
    requires
        0 <= i <= ss.len(),
        shallow_paths(ss),
    ensures
        crate::manifest::extract_from(ss, i) matches Option::Some(s) && dep_names(s) == secs_names(
            ss,
            i,
        ),
    decreases ss.len() - i,
{
    if i == ss.len() {
        assert(dep_names(Seq::empty()) =~= secs_names(ss, i));
    } else {
        lemma_extract_names(ss, i + 1);
        let r = crate::manifest::extract_from(ss, i + 1)->Some_0;
        let sec = ss[i];
        if sec.path == crate::manifest::deps_path() {
            let mapped = sec.entries.map_values(
                |e: (Seq<char>, Seq<char>)| (e.0, crate::manifest::SpecDepValue::Simple(e.1)),
            );
            let s = mapped + r;
            assert forall|k: Seq<char>| dep_names(s).contains(k) == secs_names(ss, i).contains(k) by {
                if dep_names(s).contains(k) {
                    let t = choose|t: int| 0 <= t < s.len() && s[t].0 == k;
                    if t < mapped.len() {
                        assert(sec.entries[t].0 == k);
                    } else {
                        assert(r[t - mapped.len()].0 == k);
                    }
                }
                if secs_names(ss, i).contains(k) {
                    if sec_names(sec).contains(k) {
                        let t = choose|t: int| 0 <= t < sec.entries.len() && sec.entries[t].0 == k;
                        assert(s[t].0 == k);
                    } else {
                        let t = choose|t: int| 0 <= t < r.len() && r[t].0 == k;
                        assert(s[mapped.len() + t].0 == k);
                    }
                }
            }
            assert(dep_names(s) =~= secs_names(ss, i));
        } else if sec.path.len() == 2 && sec.path[0] == "dependencies"@ {
            let one = seq![(sec.path[1], crate::manifest::SpecDepValue::Table(sec.entries))];
            let s = one + r;
            assert(sec.path != crate::manifest::deps_path());
            assert forall|k: Seq<char>| dep_names(s).contains(k) == secs_names(ss, i).contains(k) by {
                if dep_names(s).contains(k) {
                    let t = choose|t: int| 0 <= t < s.len() && s[t].0 == k;
                    if t >= 1 {
                        assert(r[t - 1].0 == k);
                    }
                }
                if secs_names(ss, i).contains(k) {
                    if sec_names(sec).contains(k) {
                        assert(s[0].0 == k);
                    } else {
                        let t = choose|t: int| 0 <= t < r.len() && r[t].0 == k;
                        assert(s[1 + t].0 == k);
                    }
                }
            }
            assert(dep_names(s) =~= secs_names(ss, i));
        } else {
            assert(!(sec.path.len() > 2 && sec.path[0] == "dependencies"@));
            assert(sec.path != crate::manifest::deps_path()) by {
                if sec.path == crate::manifest::deps_path() {
                    assert(sec.path.len() == 1);
                }
            }
            assert(sec_names(sec) =~= Set::<Seq<char>>::empty());
            assert(dep_names(r) =~= secs_names(ss, i));
        }
    }
}

/// The remainder after the leading entries is itself a well-formed payload.
proof fn lemma_after_lead_wf(ts: Seq<Tok>)
    requires
        wf_payload_toks(ts),
    ensures
        wf_payload_toks(after_lead(ts)),
    decreases ts.len(),
{
    if ts.len() > 0 {
        match ts[0] {
            Tok::Group(_, _) => {},
            _ => {
                let j = find_eq(ts, 0)->Some_0;
                lemma_after_lead_wf(ts.subrange(j + 2, ts.len() as int));
            },
        }
    }
}

/// A well-formed payload's blocks sit at most one level below the
/// dependencies section.
proof fn lemma_blocks_shallow(ts: Seq<Tok>)
    requires
        wf_payload_toks(ts),
    ensures
        shallow_paths(block_sections(after_lead(ts))),
    decreases ts.len(),
{
    lemma_after_lead_len(ts);
    let al = after_lead(ts);
    lemma_after_lead_wf(ts);
    if ts.len() == 0 {
    } else {
        match ts[0] {
            Tok::Group(_, inner) => {
                let drop = ts.drop_first();
                lemma_after_lead_len(drop);
                lemma_after_lead_wf(drop);
                lemma_blocks_shallow(after_lead(drop));
                let blocks = block_sections(ts);
                let sec0 = SpecSection { path: path_texts(inner@), entries: lead_entries(drop) };
                assert(blocks == seq![sec0] + block_sections(after_lead(drop)));
                assert forall|i: int| 0 <= i < blocks.len() implies !((#[trigger] blocks[i]).path.len()
                    > 2 && blocks[i].path[0] == "dependencies"@) by {
                    if i == 0 {
                        assert(blocks[0] == sec0);
                    } else {
                        assert(blocks[i] == block_sections(after_lead(drop))[i - 1]);
                    }
                }
            },
            _ => {
                let j = find_eq(ts, 0)->Some_0;
                lemma_blocks_shallow(ts.subrange(j + 2, ts.len() as int));
                assert(after_lead(ts) == after_lead(ts.subrange(j + 2, ts.len() as int)));
            },
        }
    }
}

/// LAW — payload keys: for every well-formed inline payload, re-serializing
/// the tokens and parsing the resulting configuration text yields a
/// dependency table whose keys are exactly the names the token structure
/// binds under its dependencies section.
pub proof fn lemma_payload_dependency_names(ts: Seq<Tok>)
    requires
        wf_payload_toks(ts),
    ensures
        crate::pipeline::inline_payload_spec(ts) matches Option::Some(ds) && dep_names(ds)
            == secs_names(block_sections(after_lead(ts)), 0),
{
    lemma_payload_parse(SpecDoc::empty(), ts, Option::None);
    lemma_payload_shape(SpecDoc::empty(), ts);
    crate::laws::lemma_apply_entries_root(SpecDoc::empty(), lead_entries(ts));
    let final_doc = payload_apply(SpecDoc::empty(), ts);
    let blocks = block_sections(after_lead(ts));
    assert(final_doc.sections =~= blocks);
    lemma_blocks_shallow(ts);
    lemma_extract_names(blocks, 0);
    assert(crate::manifest::extract_deps_spec(final_doc) == crate::manifest::extract_from(blocks, 0));
}

/// What an equals search result means.
proof fn lemma_find_eq_props(ts: Seq<Tok>, i: int)
    requires
        0 <= i <= ts.len(),
    ensures
        match find_eq(ts, i) {
            Option::Some(j) => i <= j < ts.len() && is_eq_tok(ts[j]) && forall|t: int|
                i <= t < j ==> !is_eq_tok(#[trigger] ts[t]),
            Option::None => forall|t: int| i <= t < ts.len() ==> !is_eq_tok(#[trigger] ts[t]),
        },
    decreases ts.len() - i,
{
    if i < ts.len() && !is_eq_tok(ts[i]) {
        lemma_find_eq_props(ts, i + 1);
    }
}

} // verus!
