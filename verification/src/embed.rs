//! The embedder: re-emits the original declaration followed by two constant
//! bindings, a fixed-size byte-sequence constant holding the built artifact
//! and a string constant holding the loader text.  The visibility and the
//! loader constant's name follow the chosen embedding convention.

use vstd::prelude::*;
use vstd::string::*;
use crate::tokens::Tok;
use crate::tokens::{render_list, render_tokens};

verus! {

/// Which names and visibility the emitted constants get.
#[derive(Clone, Copy, PartialEq, Eq, Structural)]
pub enum EmbedConvention {
    /// `pub const wasm` and `pub const loader`.
    Exported,
    /// `const wasm` and `const js_loader`.
    Internal,
}

/// The decimal digit characters.
pub open spec fn digit_char(d: int) -> char {
    seq!['0', '1', '2', '3', '4', '5', '6', '7', '8', '9'][d]
}

/// Decimal text of a non-negative number.
pub open spec fn dec_str(n: int) -> Seq<char>
    decreases n,
{
    if n < 0 {
        Seq::empty()
    } else if n < 10 {
        seq![digit_char(n)]
    } else {
        dec_str(n / 10) + seq![digit_char(n % 10)]
    }
}

/// Decimal texts of a byte sequence, joined by commas.
pub open spec fn byte_list(b: Seq<u8>) -> Seq<char>
    decreases b.len(),
{
    if b.len() == 0 {
        Seq::empty()
    } else if b.len() == 1 {
        dec_str(b[0] as int)
    } else {
        dec_str(b[0] as int) + seq![','] + byte_list(b.drop_first())
    }
}

/// One character of loader text inside the emitted string literal:
/// backslashes and double quotes are escaped.
pub open spec fn escape_char(c: char) -> Seq<char> {
    if c == '\\' {
        seq!['\\', '\\']
    } else if c == '"' {
        seq!['\\', '"']
    } else {
        seq![c]
    }
}

/// Loader text made safe for a string literal.
pub open spec fn escaped(s: Seq<char>) -> Seq<char>
    decreases s.len(),
{
    if s.len() == 0 {
        Seq::empty()
    } else {
        escape_char(s[0]) + escaped(s.drop_first())
    }
}

/// The whole emitted output: the original declaration, then the two
/// constant bindings.
pub open spec fn embed_text(input: Seq<Tok>, binary: Seq<u8>, loader: Seq<char>, conv: EmbedConvention) -> Seq<char> {
    let vis = if conv == EmbedConvention::Exported {
        "pub "@
    } else {
        ""@
    };
    let loader_name = if conv == EmbedConvention::Exported {
        "loader"@
    } else {
        "js_loader"@
    };
    render_list(input) + "\n"@ + vis + "const wasm: [u8; "@ + dec_str(binary.len() as int)
        + "] = ["@ + byte_list(binary) + "];\n"@ + vis + "const "@ + loader_name + ": &str = \""@
        + escaped(loader) + "\";\n"@
}

fn digit_string(d: u8) -> (r: String)
    requires
        d < 10,
    ensures
        r@ == seq![digit_char(d as int)],
{
    let r = if d == 0 {
        String::from_str("0")
    } else if d == 1 {
        String::from_str("1")
    } else if d == 2 {
        String::from_str("2")
    } else if d == 3 {
        String::from_str("3")
    } else if d == 4 {
        String::from_str("4")
    } else if d == 5 {
        String::from_str("5")
    } else if d == 6 {
        String::from_str("6")
    } else if d == 7 {
        String::from_str("7")
    } else if d == 8 {
        String::from_str("8")
    } else {
        String::from_str("9")
    };
    proof {
        reveal_strlit("0");
        reveal_strlit("1");
        reveal_strlit("2");
        reveal_strlit("3");
        reveal_strlit("4");
        reveal_strlit("5");
        reveal_strlit("6");
        reveal_strlit("7");
        reveal_strlit("8");
        reveal_strlit("9");
        assert(r@ =~= seq![digit_char(d as int)]);
    }
    r
}

/// Decimal text of one byte.
fn byte_dec_string(n: u8) -> (r: String)
    ensures
        r@ == dec_str(n as int),
{
    if n < 10 {
        digit_string(n)
    } else if n < 100 {
        let mut r = digit_string(n / 10);
        let low = digit_string(n % 10);
        r.append(low.as_str());
        proof {
            assert((n / 10) as int == n as int / 10);
            assert((n % 10) as int == n as int % 10);
            assert(dec_str(n as int) == dec_str(n as int / 10) + seq![digit_char(n as int % 10)]);
            assert(dec_str(n as int / 10) == seq![digit_char(n as int / 10)]);
            assert(r@ =~= dec_str(n as int));
        }
        r
    } else {
        let mut r = digit_string(n / 100);
        let mid = digit_string((n / 10) % 10);
        let low = digit_string(n % 10);
        r.append(mid.as_str());
        r.append(low.as_str());
        proof {
            assert(dec_str(n as int) == dec_str(n as int / 10) + seq![digit_char(n as int % 10)]);
            assert(dec_str(n as int / 10) == dec_str(n as int / 100) + seq![digit_char(
                (n as int / 10) % 10,
            )]);
            assert(n as int / 10 / 10 == n as int / 100);
            assert(r@ =~= dec_str(n as int));
        }
        r
    }
}

/// Decimal text of a length.
fn usize_dec_string(n: usize) -> (r: String)
    ensures
        r@ == dec_str(n as int),
    decreases n,
{
    if n < 10 {
        let d: u8 = (n as u8) % 10;
        let r = digit_string(d);
        proof {
            assert(d as int == n as int);
        }
        r
    } else {
        let mut r = usize_dec_string(n / 10);
        let low = digit_string((n % 10) as u8);
        r.append(low.as_str());
        proof {
            assert(r@ =~= dec_str(n as int));
        }
        r
    }
}

fn append_byte_list(out: &mut String, b: &Vec<u8>)
    ensures
        final(out)@ == old(out)@ + byte_list(b@),
{
    let n = b.len();
    let mut i: usize = 0;
    proof {
        assert(old(out)@ + byte_list(b@) == old(out)@ + byte_list(b@.subrange(0, b@.len() as int)) || n == 0) by {
            assert(b@.subrange(0, b@.len() as int) =~= b@);
        }
        assert(b@.subrange(0, b@.len() as int) =~= b@);
    }
    while i < n
        invariant
            0 <= i <= n,
            n == b@.len(),
            old(out)@ + byte_list(b@) == out@ + byte_list(b@.subrange(i as int, b@.len() as int)),
        decreases n - i,
    {
        let ghost tail = b@.subrange(i as int, b@.len() as int);
        proof {
            assert(tail[0] == b@[i as int]);
            assert(tail.drop_first() =~= b@.subrange(i + 1, b@.len() as int));
        }
        let ghost before = out@;
        let piece = byte_dec_string(b[i]);
        out.append(piece.as_str());
        if i + 1 < n {
            out.append(",");
            proof {
                reveal_strlit(",");
                assert(","@ =~= seq![',']);
                assert(out@ =~= before + dec_str(tail[0] as int) + seq![',']);
                assert(before + byte_list(tail) =~= out@ + byte_list(tail.drop_first()));
            }
        } else {
            proof {
                assert(tail.len() == 1);
                assert(before + byte_list(tail) =~= out@ + byte_list(tail.drop_first()));
                assert(tail.drop_first() =~= b@.subrange(i + 1, b@.len() as int));
            }
        }
        i = i + 1;
    }
    proof {
        assert(b@.subrange(n as int, b@.len() as int) =~= Seq::<u8>::empty());
        assert(out@ + Seq::<char>::empty() =~= out@);
    }
}

fn append_escaped(out: &mut String, s: &str)
    ensures
        final(out)@ == old(out)@ + escaped(s@),
{
    let n = s.unicode_len();
    let mut i: usize = 0;
    proof {
        assert(s@.subrange(0, s@.len() as int) =~= s@);
    }
    while i < n
        invariant
            0 <= i <= n,
            n == s@.len(),
            old(out)@ + escaped(s@) == out@ + escaped(s@.subrange(i as int, s@.len() as int)),
        decreases n - i,
    {
        let ghost tail = s@.subrange(i as int, s@.len() as int);
        proof {
            assert(tail[0] == s@[i as int]);
            assert(tail.drop_first() =~= s@.subrange(i + 1, s@.len() as int));
        }
        let ghost before = out@;
        let c = s.get_char(i);
        if c == '\\' {
            out.append("\\\\");
            proof {
                reveal_strlit("\\\\");
                assert("\\\\"@ =~= seq!['\\', '\\']);
            }
        } else if c == '"' {
            out.append("\\\"");
            proof {
                reveal_strlit("\\\"");
                assert("\\\""@ =~= seq!['\\', '"']);
            }
        } else {
            let piece = s.substring_char(i, i + 1);
            out.append(piece);
            proof {
                assert(piece@ =~= seq![c]);
            }
        }
        proof {
            assert(out@ =~= before + escape_char(c));
            assert(before + escaped(tail) =~= out@ + escaped(tail.drop_first()));
        }
        i = i + 1;
    }
    proof {
        assert(s@.subrange(n as int, s@.len() as int) =~= Seq::<char>::empty());
        assert(out@ + Seq::<char>::empty() =~= out@);
    }
}

/// Executable embedder: the final output text.
pub fn embed_output(input: &Vec<Tok>, binary: &Vec<u8>, loader: &str, conv: EmbedConvention) -> (r: String)
    ensures
        r@ == embed_text(input@, binary@, loader@, conv),
{
    let mut out = render_tokens(input);
    out.append("\n");
    let exported = match conv {
        EmbedConvention::Exported => true,
        EmbedConvention::Internal => false,
    };
    if exported {
        out.append("pub ");
    }
    out.append("const wasm: [u8; ");
    let len_text = usize_dec_string(binary.len());
    out.append(len_text.as_str());
    out.append("] = [");
    append_byte_list(&mut out, binary);
    out.append("];\n");
    if exported {
        out.append("pub ");
    }
    out.append("const ");
    if exported {
        out.append("loader");
    } else {
        out.append("js_loader");
    }
    out.append(": &str = \"");
    append_escaped(&mut out, loader);
    out.append("\";\n");
    proof {
        reveal_strlit("");
        assert(""@ =~= Seq::<char>::empty());
        assert(out@ =~= embed_text(input@, binary@, loader@, conv));
    }
    out
}

} // verus!
