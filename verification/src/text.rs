//! Character-level text helpers shared by the configuration parser and
//! serializer: whitespace trimming and character search, each with a
//! mathematical definition and an executable mirror.

use vstd::prelude::*;
use vstd::string::*;

verus! {

/// Horizontal whitespace that the configuration syntax ignores around keys,
/// values and header lines.  Line feeds are significant (they end a line) and
/// are deliberately not included.
pub open spec fn is_ws_char(c: char) -> bool {
    c == ' ' || c == '\t' || c == '\r'
}

/// `s` without its leading whitespace.
pub open spec fn trim_front(s: Seq<char>) -> Seq<char>
    decreases s.len(),
{
    if s.len() > 0 && is_ws_char(s[0]) {
        trim_front(s.drop_first())
    } else {
        s
    }
}

/// `s` without its trailing whitespace.
pub open spec fn trim_back(s: Seq<char>) -> Seq<char>
    decreases s.len(),
{
    if s.len() > 0 && is_ws_char(s[s.len() - 1]) {
        trim_back(s.drop_last())
    } else {
        s
    }
}

/// `s` without leading and trailing whitespace.
pub open spec fn trimmed(s: Seq<char>) -> Seq<char> {
    trim_back(trim_front(s))
}

/// A sequence that neither starts nor ends with whitespace is its own trim.
pub open spec fn is_trimmed(s: Seq<char>) -> bool {
    &&& (s.len() > 0 ==> !is_ws_char(s[0]))
    &&& (s.len() > 0 ==> !is_ws_char(s[s.len() - 1]))
}

/// Index of the first occurrence of `c` in `s` at or after `i`.
pub open spec fn find_from(s: Seq<char>, c: char, i: int) -> Option<int>
    decreases s.len() - i,
{
    if i < 0 || i >= s.len() {
        Option::None
    } else if s[i] == c {
        Option::Some(i)
    } else {
        find_from(s, c, i + 1)
    }
}

/// Index of the first occurrence of `c` in `s`.
pub open spec fn find_in(s: Seq<char>, c: char) -> Option<int> {
    find_from(s, c, 0)
}

pub proof fn lemma_trim_front_range(s: Seq<char>, i: int)
    requires
        0 <= i <= s.len(),
        forall|j: int| 0 <= j < i ==> is_ws_char(s[j]),
        i == s.len() || !is_ws_char(s[i]),
    ensures
        trim_front(s) =~= s.subrange(i, s.len() as int),
    decreases i,
{
    if i == 0 {
        if s.len() > 0 && is_ws_char(s[0]) {
            assert(false);
        }
        assert(trim_front(s) =~= s.subrange(0, s.len() as int));
    } else {
        let t = s.drop_first();
        assert(forall|j: int| 0 <= j < i - 1 ==> is_ws_char(t[j]));
        lemma_trim_front_range(t, i - 1);
        assert(t.subrange(i - 1, t.len() as int) =~= s.subrange(i, s.len() as int));
    }
}

pub proof fn lemma_trim_back_range(s: Seq<char>, i: int)
    requires
        0 <= i <= s.len(),
        forall|j: int| i <= j < s.len() ==> is_ws_char(s[j]),
        i == 0 || !is_ws_char(s[i - 1]),
    ensures
        trim_back(s) =~= s.subrange(0, i),
    decreases s.len() - i,
{
    if i == s.len() {
        if s.len() > 0 && is_ws_char(s[s.len() - 1]) {
            assert(false);
        }
        assert(trim_back(s) =~= s.subrange(0, i));
    } else {
        let t = s.drop_last();
        lemma_trim_back_range(t, i);
        assert(t.subrange(0, i) =~= s.subrange(0, i));
    }
}

/// Trimming a sequence that is already trimmed changes nothing.
pub proof fn lemma_trimmed_fixed(s: Seq<char>)
    requires
        is_trimmed(s),
    ensures
        trimmed(s) == s,
{
    lemma_trim_front_range(s, 0);
    assert(s.subrange(0, s.len() as int) =~= s);
    lemma_trim_back_range(s, s.len() as int);
}

/// The trim of any sequence is trimmed, and made only of its characters.
pub proof fn lemma_trimmed_shape(s: Seq<char>)
    ensures
        is_trimmed(trimmed(s)),
        exists|i: int, j: int|
            0 <= i <= j <= s.len() && trimmed(s) =~= s.subrange(i, j),
    decreases s.len(),
{
    lemma_trim_front_shape(s);
    let f = trim_front(s);
    let i = choose|i: int| 0 <= i <= s.len() && f =~= s.subrange(i, s.len() as int) && (f.len() > 0 ==> !is_ws_char(f[0]));
    lemma_trim_back_shape(f);
    let j = choose|j: int| 0 <= j <= f.len() && trim_back(f) =~= f.subrange(0, j) && (trim_back(f).len() > 0 ==> !is_ws_char(trim_back(f)[trim_back(f).len() - 1]));
    assert(f.subrange(0, j) =~= s.subrange(i, i + j));
    if trimmed(s).len() > 0 {
        assert(trimmed(s)[0] == f[0]);
    }
}

proof fn lemma_trim_front_shape(s: Seq<char>)
    ensures
        exists|i: int|
            0 <= i <= s.len() && trim_front(s) =~= s.subrange(i, s.len() as int) && (trim_front(s).len() > 0 ==> !is_ws_char(trim_front(s)[0])),
    decreases s.len(),
{
    if s.len() > 0 && is_ws_char(s[0]) {
        let t = s.drop_first();
        lemma_trim_front_shape(t);
        let i = choose|i: int| 0 <= i <= t.len() && trim_front(t) =~= t.subrange(i, t.len() as int) && (trim_front(t).len() > 0 ==> !is_ws_char(trim_front(t)[0]));
        assert(t.subrange(i, t.len() as int) =~= s.subrange(i + 1, s.len() as int));
        assert(0 <= i + 1 <= s.len() && trim_front(s) =~= s.subrange(i + 1, s.len() as int));
    } else {
        assert(s.subrange(0, s.len() as int) =~= s);
        assert(0 <= 0 <= s.len() && trim_front(s) =~= s.subrange(0, s.len() as int));
    }
}

proof fn lemma_trim_back_shape(s: Seq<char>)
    ensures
        exists|j: int|
            0 <= j <= s.len() && trim_back(s) =~= s.subrange(0, j) && (trim_back(s).len() > 0 ==> !is_ws_char(trim_back(s)[trim_back(s).len() - 1])),
    decreases s.len(),
{
    if s.len() > 0 && is_ws_char(s[s.len() - 1]) {
        let t = s.drop_last();
        lemma_trim_back_shape(t);
        let j = choose|j: int| 0 <= j <= t.len() && trim_back(t) =~= t.subrange(0, j) && (trim_back(t).len() > 0 ==> !is_ws_char(trim_back(t)[trim_back(t).len() - 1]));
        assert(t.subrange(0, j) =~= s.subrange(0, j));
        assert(0 <= j <= s.len() && trim_back(s) =~= s.subrange(0, j));
    } else {
        assert(s.subrange(0, s.len() as int) =~= s);
        assert(0 <= s.len() && trim_back(s) =~= s.subrange(0, s.len() as int));
    }
}

/// Bracket nesting change over a text: one deeper per `[`, one shallower
/// per `]`.
pub open spec fn bracket_delta(s: Seq<char>) -> int
    decreases s.len(),
{
    if s.len() == 0 {
        0
    } else {
        let head: int = if s[0] == '[' {
            1
        } else if s[0] == ']' {
            -1
        } else {
            0
        };
        head + bracket_delta(s.drop_first())
    }
}

/// The nesting change of one character.
pub proof fn lemma_bracket_delta_single(c: char)
    ensures
        bracket_delta(seq![c]) == if c == '[' {
            1int
        } else if c == ']' {
            -1int
        } else {
            0int
        },
{
    assert(seq![c].drop_first() =~= Seq::<char>::empty());
    assert(bracket_delta(Seq::<char>::empty()) == 0);
}

/// Bracket nesting adds up over concatenation.
pub proof fn lemma_bracket_delta_concat(a: Seq<char>, b: Seq<char>)
    ensures
        bracket_delta(a + b) == bracket_delta(a) + bracket_delta(b),
    decreases a.len(),
{
    if a.len() == 0 {
        assert(a + b =~= b);
    } else {
        lemma_bracket_delta_concat(a.drop_first(), b);
        assert((a + b).drop_first() =~= a.drop_first() + b);
        assert((a + b)[0] == a[0]);
    }
}

/// A text without brackets does not change the nesting.
pub proof fn lemma_bracket_free_delta(s: Seq<char>)
    requires
        forall|i: int| 0 <= i < s.len() ==> s[i] != '[' && s[i] != ']',
    ensures
        bracket_delta(s) == 0,
    decreases s.len(),
{
    if s.len() > 0 {
        assert(forall|i: int| 0 <= i < s.drop_first().len() ==> s.drop_first()[i] == s[i + 1]);
        lemma_bracket_free_delta(s.drop_first());
    }
}

/// What a search result means: the first hit at or after the start.
pub proof fn lemma_find_from_props(s: Seq<char>, c: char, i: int)
    requires
        0 <= i <= s.len(),
    ensures
        match find_from(s, c, i) {
            Option::Some(j) => i <= j < s.len() && s[j] == c && forall|t: int| i <= t < j ==> s[t] != c,
            Option::None => forall|t: int| i <= t < s.len() ==> s[t] != c,
        },
    decreases s.len() - i,
{
    if i < s.len() && s[i] != c {
        lemma_find_from_props(s, c, i + 1);
    }
}

/// A position that is a hit, with no hit before it, is the search result.
pub proof fn lemma_find_unique(s: Seq<char>, c: char, i: int, j: int)
    requires
        0 <= i <= j < s.len(),
        s[j] == c,
        forall|t: int| i <= t < j ==> s[t] != c,
    ensures
        find_from(s, c, i) == Option::Some(j),
    decreases j - i,
{
    if i < j {
        lemma_find_unique(s, c, i + 1, j);
    }
}

/// No hit from `i` on means the search fails.
pub proof fn lemma_find_none(s: Seq<char>, c: char, i: int)
    requires
        0 <= i <= s.len(),
        forall|t: int| i <= t < s.len() ==> s[t] != c,
    ensures
        find_from(s, c, i) == Option::None::<int>,
    decreases s.len() - i,
{
    if i < s.len() {
        lemma_find_none(s, c, i + 1);
    }
}

/// Searching a suffix finds the same hit, shifted.
pub proof fn lemma_find_shift(s: Seq<char>, c: char, pos: int, i: int)
    requires
        0 <= pos <= i <= s.len(),
    ensures
        find_from(s.subrange(pos, s.len() as int), c, i - pos) == match find_from(s, c, i) {
            Option::Some(j) => Option::Some(j - pos),
            Option::None => Option::None,
        },
    decreases s.len() - i,
{
    if i < s.len() {
        lemma_find_shift(s, c, pos, i + 1);
    }
}

/// Executable whitespace test.
pub fn ws_char(c: char) -> (r: bool)
    ensures
        r == is_ws_char(c),
{
    c == ' ' || c == '\t' || c == '\r'
}

/// Executable trim: the part of `s` with leading and trailing whitespace
/// removed, as a fresh string.
pub fn trim_str(s: &str) -> (r: String)
    ensures
        r@ == trimmed(s@),
{
    let len: usize = s.unicode_len();
    let mut start: usize = 0;
    while start < len && ws_char(s.get_char(start))
        invariant
            0 <= start <= len,
            len == s@.len(),
            forall|j: int| 0 <= j < start ==> is_ws_char(s@[j]),
        decreases len - start,
    {
        start = start + 1;
    }
    let mut end: usize = len;
    while end > start && ws_char(s.get_char(end - 1))
        invariant
            start <= end <= len,
            len == s@.len(),
            forall|j: int| 0 <= j < start ==> is_ws_char(s@[j]),
            start == len || !is_ws_char(s@[start as int]),
            forall|j: int| end <= j < len ==> is_ws_char(s@[j]),
        decreases end,
    {
        end = end - 1;
    }
    proof {
        lemma_trim_front_range(s@, start as int);
        let f = s@.subrange(start as int, len as int);
        lemma_trim_back_range(f, end - start);
        assert(f.subrange(0, end - start) =~= s@.subrange(start as int, end as int));
    }
    let piece = s.substring_char(start, end);
    String::from_str(piece)
}

/// Executable equality of two string slices, decided character by character.
pub fn str_eq_str(a: &str, b: &str) -> (r: bool)
    ensures
        r == (a@ == b@),
{
    let la: usize = a.unicode_len();
    let lb: usize = b.unicode_len();
    if la != lb {
        return false;
    }
    let mut i: usize = 0;
    while i < la
        invariant
            0 <= i <= la,
            la == a@.len(),
            la == b@.len(),
            forall|j: int| 0 <= j < i ==> a@[j] == b@[j],
        decreases la - i,
    {
        if a.get_char(i) != b.get_char(i) {
            return false;
        }
        i = i + 1;
    }
    proof {
        assert(a@ =~= b@);
    }
    true
}

/// Executable character search from a starting position.
pub fn find_char_from(s: &str, c: char, from: usize) -> (r: Option<usize>)
    ensures
        match r {
            Option::Some(k) => find_from(s@, c, from as int) == Option::Some(k as int),
            Option::None => find_from(s@, c, from as int) == Option::None::<int>,
        },
{
    let len: usize = s.unicode_len();
    let mut i: usize = from;
    while i < len
        invariant
            from <= i,
            len == s@.len(),
            find_from(s@, c, from as int) == find_from(s@, c, i as int),
        decreases len - i,
    {
        if s.get_char(i) == c {
            return Option::Some(i);
        }
        i = i + 1;
    }
    Option::None
}

} // verus!
