//! Declaration extraction: scans the annotated input's leading tokens,
//! skipping visibility and container-keyword tokens, and yields the module
//! name (the first remaining identifier) together with the position of the
//! first brace-delimited group, which is the module body.  A declaration
//! with no identifier before the body yields the empty name; the failure
//! only manifests downstream, when the empty name produces unusable paths.

use vstd::prelude::*;
use vstd::string::*;
use crate::text::str_eq_str;
use crate::tokens::{Delim, Tok};

verus! {

/// The identifier texts skipped while looking for the module name.
pub open spec fn is_skipped_keyword(s: Seq<char>) -> bool {
    s == "pub"@ || s == "mod"@
}

/// Position of the first brace-delimited group at or after `i`.
pub open spec fn body_index_from(ts: Seq<Tok>, i: int) -> Option<int>
    decreases ts.len() - i,
{
    if i < 0 || i >= ts.len() {
        Option::None
    } else if ts[i] matches Tok::Group(Delim::Brace, _) {
        Option::Some(i)
    } else {
        body_index_from(ts, i + 1)
    }
}

/// Position of the module body: the first brace-delimited group.
pub open spec fn body_index(ts: Seq<Tok>) -> Option<int> {
    body_index_from(ts, 0)
}

/// The module name found scanning from `i`: the first identifier that is
/// not a skipped keyword, the scan stopping at the body group.  Empty when
/// no such identifier exists.
pub open spec fn name_from(ts: Seq<Tok>, i: int) -> Seq<char>
    decreases ts.len() - i,
{
    if i < 0 || i >= ts.len() {
        Seq::empty()
    } else {
        match ts[i] {
            Tok::Group(d, _) => {
                if d == Delim::Brace {
                    Seq::empty()
                } else {
                    name_from(ts, i + 1)
                }
            },
            Tok::Ident(s) => {
                if is_skipped_keyword(s@) {
                    name_from(ts, i + 1)
                } else {
                    s@
                }
            },
            _ => name_from(ts, i + 1),
        }
    }
}

/// The extracted module name.
pub open spec fn module_name(ts: Seq<Tok>) -> Seq<char> {
    name_from(ts, 0)
}

/// Executable extraction: the module name and the body group's position.
pub fn extract_declaration(input: &Vec<Tok>) -> (r: (String, Option<usize>))
    ensures
        r.0@ == module_name(input@),
        match r.1 {
            Option::Some(i) => body_index(input@) == Option::Some(i as int),
            Option::None => body_index(input@) is None,
        },
{
    let n = input.len();
    let mut name: Option<String> = Option::None;
    let mut i: usize = 0;
    while i < n
        invariant
            0 <= i <= n,
            n == input@.len(),
            body_index(input@) == body_index_from(input@, i as int),
            match name {
                Option::Some(nm) => nm@ == module_name(input@),
                Option::None => module_name(input@) == name_from(input@, i as int),
            },
        decreases n - i,
    {
        match &input[i] {
            Tok::Group(Delim::Brace, _) => {
                let picked = match name {
                    Option::Some(nm) => nm,
                    Option::None => String::new(),
                };
                proof {
                    assert(name_from(input@, i as int) =~= Seq::<char>::empty());
                }
                return (picked, Option::Some(i));
            },
            Tok::Ident(s) => {
                if name.is_none() && !str_eq_str(s.as_str(), "pub") && !str_eq_str(s.as_str(), "mod") {
                    name = Option::Some(s.clone());
                }
            },
            _ => {},
        }
        i = i + 1;
    }
    let picked = match name {
        Option::Some(nm) => nm,
        Option::None => String::new(),
    };
    proof {
        assert(name_from(input@, n as int) =~= Seq::<char>::empty());
    }
    (picked, Option::None)
}

} // verus!
