//! The library's own model of the annotated input: a token tree with groups,
//! identifiers, literals and punctuation.  The caller converts the host
//! compiler's token stream into this model one token at a time; everything
//! the pipeline decides about tokens is verified over it.

use vstd::prelude::*;
use vstd::string::*;

verus! {

/// The delimiter of a token group.  `Plain` is a group with no delimiter
/// characters around it.
#[derive(Clone, Copy, PartialEq, Eq, Structural)]
pub enum Delim {
    Brace,
    Bracket,
    Parens,
    Plain,
}

/// One token: a delimited group of tokens, an identifier, a literal (its
/// text kept verbatim, quotes included), or punctuation (normally a single
/// character, kept as text).
pub enum Tok {
    Group(Delim, Vec<Tok>),
    Ident(String),
    Literal(String),
    Punct(String),
}

/// The opening delimiter text of a group.
pub open spec fn open_delim(d: Delim) -> Seq<char> {
    match d {
        Delim::Brace => seq!['{'],
        Delim::Bracket => seq!['['],
        Delim::Parens => seq!['('],
        Delim::Plain => Seq::empty(),
    }
}

/// The closing delimiter text of a group.
pub open spec fn close_delim(d: Delim) -> Seq<char> {
    match d {
        Delim::Brace => seq!['}'],
        Delim::Bracket => seq![']'],
        Delim::Parens => seq![')'],
        Delim::Plain => Seq::empty(),
    }
}

/// The text of the module body written into the sub-project's source entry:
/// token texts joined by single spaces, groups wrapped in their delimiters.
pub open spec fn render_tok(t: Tok) -> Seq<char>
    decreases t,
{
    match t {
        Tok::Group(d, ts) => open_delim(d) + render_list(ts@) + close_delim(d),
        Tok::Ident(s) => s@,
        Tok::Literal(s) => s@,
        Tok::Punct(s) => s@,
    }
}

/// The rendering of a token sequence: token texts joined by single spaces.
pub open spec fn render_list(ts: Seq<Tok>) -> Seq<char>
    decreases ts, ts.len(),
{
    if ts.len() == 0 {
        Seq::empty()
    } else if ts.len() == 1 {
        render_tok(ts[0])
    } else {
        render_tok(ts[0]) + seq![' '] + render_list(ts.drop_first())
    }
}

impl Tok {
    /// Executable rendering of one token.
    pub fn render(&self) -> (r: String)
        ensures
            r@ == render_tok(*self),
        decreases self, 0int,
    {
        match self {
            Tok::Group(d, ts) => {
                let mut out = match d {
                    Delim::Brace => String::from_str("{"),
                    Delim::Bracket => String::from_str("["),
                    Delim::Parens => String::from_str("("),
                    Delim::Plain => String::new(),
                };
                proof {
                    reveal_strlit("{");
                    reveal_strlit("[");
                    reveal_strlit("(");
                    assert(out@ =~= open_delim(*d));
                }
                let inner = render_tokens(ts);
                out.append(inner.as_str());
                match d {
                    Delim::Brace => {
                        out.append("}");
                        proof {
                            reveal_strlit("}");
                            assert(out@ =~= open_delim(*d) + render_list(ts@) + close_delim(*d));
                        }
                    },
                    Delim::Bracket => {
                        out.append("]");
                        proof {
                            reveal_strlit("]");
                            assert(out@ =~= open_delim(*d) + render_list(ts@) + close_delim(*d));
                        }
                    },
                    Delim::Parens => {
                        out.append(")");
                        proof {
                            reveal_strlit(")");
                            assert(out@ =~= open_delim(*d) + render_list(ts@) + close_delim(*d));
                        }
                    },
                    Delim::Plain => {
                        proof {
                            assert(out@ =~= open_delim(*d) + render_list(ts@) + close_delim(*d));
                        }
                    },
                }
                out
            },
            Tok::Ident(s) => {
                let mut out = String::new();
                out.append(s.as_str());
                proof {
                    assert(out@ =~= s@);
                }
                out
            },
            Tok::Literal(s) => {
                let mut out = String::new();
                out.append(s.as_str());
                proof {
                    assert(out@ =~= s@);
                }
                out
            },
            Tok::Punct(s) => {
                let mut out = String::new();
                out.append(s.as_str());
                proof {
                    assert(out@ =~= s@);
                }
                out
            },
        }
    }
}

/// Executable rendering of a token sequence, joined by single spaces.
pub fn render_tokens(ts: &Vec<Tok>) -> (r: String)
    ensures
        r@ == render_list(ts@),
    decreases ts@, ts@.len() + 1,
{
    let r = render_tokens_from(ts, 0);
    proof {
        assert(ts@.subrange(0, ts@.len() as int) =~= ts@);
    }
    r
}

fn render_tokens_from(ts: &Vec<Tok>, i: usize) -> (r: String)
    requires
        i <= ts@.len(),
    ensures
        r@ == render_list(ts@.subrange(i as int, ts@.len() as int)),
    decreases ts@, ts@.len() - i,
{
    let n = ts.len();
    if i == n {
        proof {
            assert(ts@.subrange(i as int, ts@.len() as int) =~= Seq::<Tok>::empty());
        }
        String::new()
    } else if i + 1 == n {
        let r = ts[i].render();
        proof {
            let tail = ts@.subrange(i as int, ts@.len() as int);
            assert(tail.len() == 1);
            assert(tail[0] == ts@[i as int]);
        }
        r
    } else {
        let mut out = ts[i].render();
        out.append(" ");
        let rest = render_tokens_from(ts, i + 1);
        out.append(rest.as_str());
        proof {
            reveal_strlit(" ");
            let tail = ts@.subrange(i as int, ts@.len() as int);
            assert(tail[0] == ts@[i as int]);
            assert(tail.drop_first() =~= ts@.subrange(i + 1, ts@.len() as int));
            assert(" "@ =~= seq![' ']);
            assert(out@ =~= render_tok(tail[0]) + seq![' '] + render_list(tail.drop_first()));
        }
        out
    }
}

} // verus!
