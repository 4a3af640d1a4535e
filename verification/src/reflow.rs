//! Re-serialization of a payload token sequence into configuration-file
//! text.  Each group is wrapped in its original delimiter characters and its
//! contents serialized recursively.  A newline is inserted before any
//! identifier, literal or punctuation token that immediately follows a
//! group or a literal, and before any group not preceded by punctuation;
//! a token right after punctuation stays glued to it, keeping compound
//! punctuation together.  Each bracketed header or key/value pair thereby
//! lands on a line of its own; inside a bracketed value the breaks fall
//! between its elements, which the parser's line joining folds back.

use vstd::prelude::*;
use vstd::string::*;
use crate::tokens::{Delim, Tok, open_delim, close_delim};

verus! {

/// The newline inserted before a group, suppressed when the previous token
/// is punctuation.
pub open spec fn group_break(prev: Option<Tok>) -> Seq<char> {
    match prev {
        Option::Some(Tok::Punct(_)) => Seq::empty(),
        _ => seq!['\n'],
    }
}

/// The newline inserted before an identifier, literal or punctuation token
/// that follows a group or a literal.
pub open spec fn leaf_break(prev: Option<Tok>) -> Seq<char> {
    match prev {
        Option::Some(Tok::Group(_, _)) => seq!['\n'],
        Option::Some(Tok::Literal(_)) => seq!['\n'],
        _ => Seq::empty(),
    }
}

/// The configuration text produced for one token, given the token that
/// preceded it in its stream (`None` at the start of a stream).
pub open spec fn reflow_tok(t: Tok, prev: Option<Tok>) -> Seq<char>
    decreases t, 0int,
{
    match t {
        Tok::Group(d, ts) => group_break(prev) + open_delim(d) + reflow_list(ts@, Option::None) + close_delim(d),
        Tok::Ident(s) => leaf_break(prev) + s@,
        Tok::Literal(s) => leaf_break(prev) + s@,
        Tok::Punct(s) => leaf_break(prev) + s@,
    }
}

/// The configuration text produced for a token sequence: each token's text
/// in turn, every token seeing its predecessor.
pub open spec fn reflow_list(ts: Seq<Tok>, prev: Option<Tok>) -> Seq<char>
    decreases ts, ts.len() + 1,
{
    if ts.len() == 0 {
        Seq::empty()
    } else {
        reflow_tok(ts[0], prev) + reflow_list(ts.drop_first(), Option::Some(ts[0]))
    }
}

/// The view of an optional borrowed token.
pub open spec fn prev_view(p: Option<&Tok>) -> Option<Tok> {
    match p {
        Option::Some(t) => Option::Some(*t),
        Option::None => Option::None,
    }
}

/// Executable re-serialization of one token.
pub fn token_tree_to_toml(tree: &Tok, prev: Option<&Tok>) -> (r: String)
    ensures
        r@ == reflow_tok(*tree, prev_view(prev)),
    decreases tree, 0int,
{
    let group_prev: bool = match prev {
        Option::Some(Tok::Group(_, _)) => true,
        _ => false,
    };
    let literal_prev: bool = match prev {
        Option::Some(Tok::Literal(_)) => true,
        _ => false,
    };
    let punct_prev: bool = match prev {
        Option::Some(Tok::Punct(_)) => true,
        _ => false,
    };
    match tree {
        Tok::Group(d, ts) => {
            let mut out = if punct_prev {
                String::new()
            } else {
                String::from_str("\n")
            };
            proof {
                reveal_strlit("\n");
                assert(out@ =~= group_break(prev_view(prev)));
            }
            match d {
                Delim::Brace => {
                    out.append("{");
                    proof {
                        reveal_strlit("{");
                        assert(out@ =~= group_break(prev_view(prev)) + open_delim(*d));
                    }
                },
                Delim::Bracket => {
                    out.append("[");
                    proof {
                        reveal_strlit("[");
                        assert(out@ =~= group_break(prev_view(prev)) + open_delim(*d));
                    }
                },
                Delim::Parens => {
                    out.append("(");
                    proof {
                        reveal_strlit("(");
                        assert(out@ =~= group_break(prev_view(prev)) + open_delim(*d));
                    }
                },
                Delim::Plain => {
                    proof {
                        assert(out@ =~= group_break(prev_view(prev)) + open_delim(*d));
                    }
                },
            }
            let inner = token_stream_to_toml(ts);
            out.append(inner.as_str());
            match d {
                Delim::Brace => {
                    out.append("}");
                    proof {
                        reveal_strlit("}");
                        assert(out@ =~= reflow_tok(*tree, prev_view(prev)));
                    }
                },
                Delim::Bracket => {
                    out.append("]");
                    proof {
                        reveal_strlit("]");
                        assert(out@ =~= reflow_tok(*tree, prev_view(prev)));
                    }
                },
                Delim::Parens => {
                    out.append(")");
                    proof {
                        reveal_strlit(")");
                        assert(out@ =~= reflow_tok(*tree, prev_view(prev)));
                    }
                },
                Delim::Plain => {
                    proof {
                        assert(out@ =~= reflow_tok(*tree, prev_view(prev)));
                    }
                },
            }
            out
        },
        Tok::Ident(s) => {
            let mut out = if group_prev || literal_prev {
                String::from_str("\n")
            } else {
                String::new()
            };
            proof {
                reveal_strlit("\n");
                assert(out@ =~= leaf_break(prev_view(prev)));
            }
            out.append(s.as_str());
            proof {
                assert(out@ =~= reflow_tok(*tree, prev_view(prev)));
            }
            out
        },
        Tok::Literal(s) => {
            let mut out = if group_prev || literal_prev {
                String::from_str("\n")
            } else {
                String::new()
            };
            proof {
                reveal_strlit("\n");
                assert(out@ =~= leaf_break(prev_view(prev)));
            }
            out.append(s.as_str());
            proof {
                assert(out@ =~= reflow_tok(*tree, prev_view(prev)));
            }
            out
        },
        Tok::Punct(s) => {
            let mut out = if group_prev || literal_prev {
                String::from_str("\n")
            } else {
                String::new()
            };
            proof {
                reveal_strlit("\n");
                assert(out@ =~= leaf_break(prev_view(prev)));
            }
            out.append(s.as_str());
            proof {
                assert(out@ =~= reflow_tok(*tree, prev_view(prev)));
            }
            out
        },
    }
}

/// Executable re-serialization of a whole token stream.
pub fn token_stream_to_toml(tokens: &Vec<Tok>) -> (r: String)
    ensures
        r@ == reflow_list(tokens@, Option::None),
    decreases tokens@, tokens@.len() + 2,
{
    let r = reflow_from(tokens, 0, Option::None);
    proof {
        assert(tokens@.subrange(0, tokens@.len() as int) =~= tokens@);
    }
    r
}

fn reflow_from(tokens: &Vec<Tok>, i: usize, prev: Option<&Tok>) -> (r: String)
    requires
        i <= tokens@.len(),
    ensures
        r@ == reflow_list(tokens@.subrange(i as int, tokens@.len() as int), prev_view(prev)),
    decreases tokens@, tokens@.len() - i + 1,
{
    let n = tokens.len();
    if i == n {
        proof {
            assert(tokens@.subrange(i as int, tokens@.len() as int) =~= Seq::<Tok>::empty());
        }
        String::new()
    } else {
        let first = &tokens[i];
        let mut out = token_tree_to_toml(first, prev);
        let rest = reflow_from(tokens, i + 1, Option::Some(first));
        out.append(rest.as_str());
        proof {
            let tail = tokens@.subrange(i as int, tokens@.len() as int);
            assert(tail[0] == tokens@[i as int]);
            assert(tail.drop_first() =~= tokens@.subrange(i + 1, tokens@.len() as int));
            assert(out@ =~= reflow_tok(tail[0], prev_view(prev)) + reflow_list(tail.drop_first(), Option::Some(tail[0])));
        }
        out
    }
}

} // verus!
