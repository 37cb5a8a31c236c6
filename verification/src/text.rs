//! Characters and small searches over text.
//!
//! A string is modelled by the sequence of its characters.  Everything below
//! speaks of `Seq<char>`, and the executable functions are tied to that model.

use vstd::prelude::*;
use vstd::string::StrSliceExecFns;
use vstd::utf8::{encode_utf8, encode_utf8_decode_utf8};

verus! {

/// The characters with the Unicode property `White_Space`.
pub open spec fn is_white_space(c: char) -> bool {
    let u = c as u32;
    ||| 0x09 <= u <= 0x0D
    ||| u == 0x20
    ||| u == 0x85
    ||| u == 0xA0
    ||| u == 0x1680
    ||| 0x2000 <= u <= 0x200A
    ||| u == 0x2028
    ||| u == 0x2029
    ||| u == 0x202F
    ||| u == 0x205F
    ||| u == 0x3000
}

/// `char::is_whitespace` answers whether the character has the Unicode
/// property `White_Space`, which is the list that [`is_white_space`] writes
/// out.
pub assume_specification[ char::is_whitespace ](c: char) -> (r: bool)
    ensures
        r == is_white_space(c),
;

/// The lower-case form of an ASCII capital; every other character stays.
pub open spec fn ascii_lower(c: char) -> char {
    if 'A' <= c <= 'Z' {
        (c as u32 + 32) as char
    } else {
        c
    }
}

/// `s` with each ASCII capital in lower case.
pub open spec fn ascii_lowercase(s: Seq<char>) -> Seq<char> {
    Seq::new(s.len(), |i: int| ascii_lower(s[i]))
}

/// `str::to_ascii_lowercase` maps the letters `A` to `Z` to `a` to `z` and
/// copies every other character.
pub assume_specification[ str::to_ascii_lowercase ](s: &str) -> (r: String)
    ensures
        r@ == ascii_lowercase(s@),
;

/// `s` without the white space at its start.
pub open spec fn trim_start(s: Seq<char>) -> Seq<char>
    decreases s.len(),
{
    if s.len() > 0 && is_white_space(s[0]) {
        trim_start(s.drop_first())
    } else {
        s
    }
}

/// `s` without the white space at its end.
pub open spec fn trim_end(s: Seq<char>) -> Seq<char>
    decreases s.len(),
{
    if s.len() > 0 && is_white_space(s.last()) {
        trim_end(s.drop_last())
    } else {
        s
    }
}

/// `s` without the white space at either end.
pub open spec fn trim(s: Seq<char>) -> Seq<char> {
    trim_end(trim_start(s))
}

/// The lower-case form of a text has white space where the text has it.
pub(crate) proof fn lemma_lower_keeps_white_space(c: char)
    ensures
        is_white_space(ascii_lower(c)) == is_white_space(c),
        ascii_lower(ascii_lower(c)) == ascii_lower(c),
{
}

/// Trimming and lowering can be done in either order.
pub(crate) proof fn lemma_trim_lowercase(s: Seq<char>)
    ensures
        trim(ascii_lowercase(s)) == ascii_lowercase(trim(s)),
        ascii_lowercase(ascii_lowercase(s)) == ascii_lowercase(s),
{
    lemma_trim_start_lowercase(s);
    lemma_trim_end_lowercase(trim_start(s));
    assert forall|i: int| 0 <= i < s.len() implies ascii_lowercase(ascii_lowercase(s))[i]
        == ascii_lowercase(s)[i] by {
        lemma_lower_keeps_white_space(s[i]);
    }
    assert(ascii_lowercase(ascii_lowercase(s)) =~= ascii_lowercase(s));
}

proof fn lemma_trim_start_lowercase(s: Seq<char>)
    ensures
        trim_start(ascii_lowercase(s)) == ascii_lowercase(trim_start(s)),
    decreases s.len(),
{
    if s.len() > 0 {
        lemma_lower_keeps_white_space(s[0]);
        assert(ascii_lowercase(s).drop_first() =~= ascii_lowercase(s.drop_first()));
        lemma_trim_start_lowercase(s.drop_first());
    }
}

proof fn lemma_trim_end_lowercase(s: Seq<char>)
    ensures
        trim_end(ascii_lowercase(s)) == ascii_lowercase(trim_end(s)),
    decreases s.len(),
{
    if s.len() > 0 {
        lemma_lower_keeps_white_space(s.last());
        assert(ascii_lowercase(s).drop_last() =~= ascii_lowercase(s.drop_last()));
        lemma_trim_end_lowercase(s.drop_last());
    }
}

/// A trimmed text has no white space at its ends, and trimming it again
/// changes nothing.
pub(crate) proof fn lemma_trim_twice(s: Seq<char>)
    ensures
        trim(trim(s)) == trim(s),
{
    lemma_trim_start_ends(s);
    lemma_trim_end_ends(trim_start(s));
}

proof fn lemma_trim_start_ends(s: Seq<char>)
    ensures
        trim_start(s).len() > 0 ==> !is_white_space(trim_start(s)[0]),
    decreases s.len(),
{
    if s.len() > 0 && is_white_space(s[0]) {
        lemma_trim_start_ends(s.drop_first());
    }
}

proof fn lemma_trim_end_ends(s: Seq<char>)
    ensures
        trim_end(s).len() > 0 ==> !is_white_space(trim_end(s).last()) && trim_end(s)[0] == s[0],
    decreases s.len(),
{
    if s.len() > 0 && is_white_space(s.last()) {
        lemma_trim_end_ends(s.drop_last());
    }
}

/// Nothing is left of a trimmed text if and only if all of it is white space.
pub(crate) proof fn lemma_trim_blank(s: Seq<char>)
    ensures
        trim(s).len() == 0 <==> forall|i: int|
            0 <= i < s.len() ==> is_white_space(#[trigger] s[i]),
    decreases s.len(),
{
    lemma_trim_start_ends(s);
    if s.len() > 0 && is_white_space(s[0]) {
        let rest = s.drop_first();
        lemma_trim_blank(rest);
        assert forall|i: int| 1 <= i < s.len() implies #[trigger] s[i] == rest[i - 1] by {}
        if trim(rest).len() > 0 {
            let k = choose|k: int| 0 <= k < rest.len() && !is_white_space(#[trigger] rest[k]);
            assert(s[k + 1] == rest[k]);
        }
    } else if s.len() > 0 {
        lemma_trim_end_keeps(s);
    }
}

proof fn lemma_trim_end_keeps(s: Seq<char>)
    requires
        s.len() > 0,
        !is_white_space(s[0]),
    ensures
        trim_end(s).len() > 0,
    decreases s.len(),
{
    if is_white_space(s.last()) {
        lemma_trim_end_keeps(s.drop_last());
    }
}

/// Trimming takes away the white space at both ends, all of it and nothing
/// else: what is left is the part of the text between two places.
pub proof fn law_trim(s: Seq<char>) -> (span: (int, int))
    ensures
        0 <= span.0 <= span.1 <= s.len(),
        trim(s) == s.subrange(span.0, span.1),
        forall|i: int| 0 <= i < span.0 ==> is_white_space(#[trigger] s[i]),
        forall|i: int| span.1 <= i < s.len() ==> is_white_space(#[trigger] s[i]),
        span.0 < span.1 ==> !is_white_space(s[span.0]) && !is_white_space(s[span.1 - 1]),
{
    let from = lemma_trim_start_place(s);
    let rest = s.skip(from);
    let kept = lemma_trim_end_place(rest);
    assert(rest.take(kept) =~= s.subrange(from, from + kept));
    assert forall|i: int| from + kept <= i < s.len() implies is_white_space(#[trigger] s[i]) by {
        assert(rest[i - from] == s[i]);
    }
    if kept > 0 {
        assert(rest[0] == s[from] && rest[kept - 1] == s[from + kept - 1]);
    }
    (from, from + kept)
}

proof fn lemma_trim_start_place(s: Seq<char>) -> (from: int)
    ensures
        0 <= from <= s.len(),
        trim_start(s) == s.skip(from),
        forall|i: int| 0 <= i < from ==> is_white_space(#[trigger] s[i]),
        from < s.len() ==> !is_white_space(s[from]),
    decreases s.len(),
{
    if s.len() > 0 && is_white_space(s[0]) {
        let rest = s.drop_first();
        let from = lemma_trim_start_place(rest);
        assert(rest.skip(from) =~= s.skip(from + 1));
        assert forall|i: int| 0 <= i < from + 1 implies is_white_space(#[trigger] s[i]) by {
            if i > 0 {
                assert(rest[i - 1] == s[i]);
            }
        }
        from + 1
    } else {
        assert(s.skip(0) =~= s);
        0
    }
}

proof fn lemma_trim_end_place(s: Seq<char>) -> (kept: int)
    ensures
        0 <= kept <= s.len(),
        trim_end(s) == s.take(kept),
        forall|i: int| kept <= i < s.len() ==> is_white_space(#[trigger] s[i]),
        kept > 0 ==> !is_white_space(s[kept - 1]),
    decreases s.len(),
{
    if s.len() > 0 && is_white_space(s.last()) {
        let init = s.drop_last();
        let kept = lemma_trim_end_place(init);
        assert(init.take(kept) =~= s.take(kept));
        assert forall|i: int| kept <= i < s.len() implies is_white_space(#[trigger] s[i]) by {
            if i < init.len() {
                assert(init[i] == s[i]);
            }
        }
        kept
    } else {
        assert(s.take(s.len() as int) =~= s);
        s.len() as int
    }
}

/// Lowering keeps the length, turns `A` to `Z` into `a` to `z`, and leaves
/// every other character.
pub proof fn law_ascii_lowercase(s: Seq<char>)
    ensures
        ascii_lowercase(s).len() == s.len(),
        forall|i: int|
            0 <= i < s.len() ==> (#[trigger] ascii_lowercase(s)[i]) as int == (if 0x41 <= s[i] as int
                <= 0x5A {
                s[i] as int + 32
            } else {
                s[i] as int
            }),
{
}

/// The characters of a string, one by one.
pub(crate) fn chars_of(s: &str) -> (r: Vec<char>)
    ensures
        r@ == s@,
{
    let mut v: Vec<char> = Vec::new();
    for c in it: s.chars()
        invariant
            it.seq() == s@,
            v@ == s@.take(it.index() as int),
    {
        v.push(c);
    }
    v
}

/// Drops the white space at both ends.
pub(crate) fn trimmed(s: &str) -> (r: &str)
    ensures
        r@ == trim(s@),
{
    let v = chars_of(s);
    let n = v.len();
    let mut from: usize = 0;
    assert(s@.skip(0) =~= s@);
    while from < n && v[from].is_whitespace()
        invariant
            v@ == s@,
            n == v@.len(),
            from <= n,
            trim_start(s@) == trim_start(s@.skip(from as int)),
        decreases n - from,
    {
        assert(s@.skip(from as int).drop_first() =~= s@.skip(from + 1));
        from = from + 1;
    }
    assert(trim_start(s@) == s@.skip(from as int));
    let mut to: usize = n;
    assert(s@.skip(from as int) =~= s@.subrange(from as int, to as int));
    while from < to && v[to - 1].is_whitespace()
        invariant
            v@ == s@,
            n == v@.len(),
            from <= to <= n,
            trim(s@) == trim_end(s@.subrange(from as int, to as int)),
        decreases to,
    {
        assert(s@.subrange(from as int, to as int).drop_last() =~= s@.subrange(
            from as int,
            to - 1,
        ));
        to = to - 1;
    }
    s.substring_char(from, to)
}

/// Two strings are equal when their UTF-8 forms are.
pub(crate) fn str_eq(a: &str, b: &str) -> (r: bool)
    ensures
        r == (a@ == b@),
{
    let x = a.as_bytes();
    let y = b.as_bytes();
    proof {
        encode_utf8_decode_utf8(a@);
        encode_utf8_decode_utf8(b@);
    }
    if x.len() != y.len() {
        return false;
    }
    let n = x.len();
    for i in 0..n
        invariant
            n == x@.len() == y@.len(),
            x@ == encode_utf8(a@),
            y@ == encode_utf8(b@),
            forall|j: int| 0 <= j < i ==> x@[j] == y@[j],
    {
        if x[i] != y[i] {
            return false;
        }
    }
    assert(x@ =~= y@);
    true
}

/// Whether `pattern` stands somewhere in `text`.
pub open spec fn contains(text: Seq<char>, pattern: Seq<char>) -> bool {
    exists|i: int| #[trigger] occurs_at(text, pattern, i)
}

/// Whether `pattern` stands in `text` at place `i`.
pub open spec fn occurs_at(text: Seq<char>, pattern: Seq<char>, i: int) -> bool {
    &&& 0 <= i
    &&& i + pattern.len() <= text.len()
    &&& text.subrange(i, i + pattern.len()) == pattern
}

/// Looks for `pattern` in `text`.
pub(crate) fn str_contains(text: &str, pattern: &str) -> (r: bool)
    ensures
        r == contains(text@, pattern@),
{
    let t = chars_of(text);
    let p = chars_of(pattern);
    if p.len() > t.len() {
        return false;
    }
    let last = t.len() - p.len();
    let mut i: usize = 0;
    while i <= last
        invariant
            t@ == text@,
            p@ == pattern@,
            last == t@.len() - p@.len(),
            i <= last + 1,
            forall|j: int| 0 <= j < i ==> !#[trigger] occurs_at(t@, p@, j),
        decreases last + 1 - i,
    {
        let mut k: usize = 0;
        while k < p.len() && t[i + k] == p[k]
            invariant
                k <= p@.len(),
                i + p.len() <= t.len(),
                forall|j: int| 0 <= j < k ==> t@[i + j] == p@[j],
            decreases p@.len() - k,
        {
            k = k + 1;
        }
        if k == p.len() {
            assert(t@.subrange(i as int, i + p@.len()) =~= p@);
            assert(occurs_at(t@, p@, i as int));
            return true;
        }
        assert(!occurs_at(t@, p@, i as int)) by {
            if occurs_at(t@, p@, i as int) {
                assert(t@.subrange(i as int, i + p@.len())[k as int] == t@[i + k]);
            }
        }
        i = i + 1;
    }
    false
}

} // verus!
