//! Text normalization: canonical decomposition followed by the removal of
//! combining marks, so that pointed and unpointed spellings meet.
//!
//! Decomposition and the test for a combining mark come from the
//! `unicode-normalization` crate. Their results are named here, not
//! defined: the contracts say how this crate combines them.

use unicode_normalization::UnicodeNormalization;
use vstd::prelude::*;

verus! {

/// The canonical decomposition (NFD) of a string, as
/// `unicode-normalization` computes it.
pub uninterp spec fn nfd(s: Seq<char>) -> Seq<char>;

/// Whether `unicode-normalization` classes a code point as a combining mark
/// (general category Mark).
pub uninterp spec fn combining_mark(c: char) -> bool;

/// Runs `UnicodeNormalization::nfd` over `val` and gathers the code points
/// that the iterator yields. The contract only names the outcome: it is the
/// decomposition of `val`, whatever that is.
#[verifier::external_body]
fn decompose(val: &str) -> (r: Vec<char>)
    ensures
        r@ == nfd(val@),
{
    val.nfd().collect()
}

/// `unicode_normalization::char::is_combining_mark` is a table lookup on the
/// code point; the contract names its answer.
pub assume_specification[ unicode_normalization::char::is_combining_mark ](c: char) -> (b: bool)
    ensures
        b == combining_mark(c),
;

/// `String::push` appends one code point to the end of the string.
pub assume_specification[ String::push ](s: &mut String, ch: char)
    ensures
        final(s)@ == old(s)@.push(ch),
;

/// The test that a code point passes when it is no combining mark.
pub open spec fn unmarked() -> spec_fn(char) -> bool {
    |c: char| !combining_mark(c)
}

/// A sequence of code points without its combining marks.
pub open spec fn strip_marks_spec(s: Seq<char>) -> Seq<char> {
    s.filter(unmarked())
}

/// Stripping marks goes code point by code point.
pub proof fn lemma_strip_marks_push(s: Seq<char>, c: char)
    ensures
        strip_marks_spec(s.push(c)) == if combining_mark(c) {
            strip_marks_spec(s)
        } else {
            strip_marks_spec(s).push(c)
        },
{
    s.lemma_filter_push(c, unmarked());
}

/// The canonical form of a text: its decomposition without combining marks.
pub open spec fn normalize_spec(s: Seq<char>) -> Seq<char> {
    strip_marks_spec(nfd(s))
}

/// The code points of a string.
pub fn chars_of(s: &str) -> (v: Vec<char>)
    ensures
        v@ == s@,
{
    let mut v: Vec<char> = Vec::new();
    for c in it: s.chars()
        invariant
            it.seq() == s@,
            v@ == it.seq().take(it.index() as int),
    {
        v.push(c);
    }
    v
}

/// The string made of the code points `v[from..to]`.
pub fn string_of(v: &Vec<char>, from: usize, to: usize) -> (s: String)
    requires
        from <= to <= v.len(),
    ensures
        s@ == v@.subrange(from as int, to as int),
{
    let mut s = String::new();
    let mut i: usize = from;
    while i < to
        invariant
            from <= i <= to <= v.len(),
            s@ == v@.subrange(from as int, i as int),
        decreases to - i,
    {
        s.push(v[i]);
        i += 1;
    }
    s
}

/// Drops the combining marks from a sequence of code points.
pub fn strip_marks(chars: &Vec<char>) -> (r: String)
    ensures
        r@ == strip_marks_spec(chars@),
{
    let mut r = String::new();
    let mut i: usize = 0;
    while i < chars.len()
        invariant
            i <= chars.len(),
            r@ == strip_marks_spec(chars@.take(i as int)),
        decreases chars.len() - i,
    {
        let c = chars[i];
        proof {
            lemma_strip_marks_push(chars@.take(i as int), c);
            assert(chars@.take(i + 1) =~= chars@.take(i as int).push(c));
        }
        if !unicode_normalization::char::is_combining_mark(c) {
            r.push(c);
        }
        i += 1;
    }
    assert(chars@.take(chars.len() as int) =~= chars@);
    r
}

/// Puts a text into canonical form: decomposes it and drops every combining
/// mark. Total; the result depends on the text alone.
pub fn normalize(val: &str) -> (r: String)
    ensures
        r@ == normalize_spec(val@),
{
    let decomposed = decompose(val);
    strip_marks(&decomposed)
}

/// Stripping marks leaves no mark behind.
pub proof fn lemma_strip_marks_leaves_none(s: Seq<char>, i: int)
    requires
        0 <= i < strip_marks_spec(s).len(),
    ensures
        !combining_mark(strip_marks_spec(s)[i]),
{
    s.lemma_filter_pred(unmarked(), i);
}

/// Stripping marks from a sequence that has none changes nothing.
pub proof fn lemma_strip_marks_fixes_mark_free(s: Seq<char>)
    requires
        forall|i: int| 0 <= i < s.len() ==> !combining_mark(#[trigger] s[i]),
    ensures
        strip_marks_spec(s) == s,
    decreases s.len(),
{
    if s.len() > 0 {
        lemma_strip_marks_fixes_mark_free(s.drop_last());
        lemma_strip_marks_push(s.drop_last(), s.last());
        assert(s.drop_last().push(s.last()) =~= s);
    } else {
        reveal(Seq::filter);
    }
}

/// A canonical form holds no combining mark.
pub proof fn lemma_normalized_has_no_marks(s: Seq<char>, i: int)
    requires
        0 <= i < normalize_spec(s).len(),
    ensures
        !combining_mark(normalize_spec(s)[i]),
{
    lemma_strip_marks_leaves_none(nfd(s), i);
}

/// Normalizing twice gives what normalizing once gives, for every text
/// whose canonical form decomposes to itself.
pub proof fn law_normalize_twice_where_decomposed(s: Seq<char>)
    requires
        nfd(normalize_spec(s)) == normalize_spec(s),
    ensures
        normalize_spec(normalize_spec(s)) == normalize_spec(s),
{
    let once = normalize_spec(s);
    assert forall|i: int| 0 <= i < once.len() implies !combining_mark(#[trigger] once[i]) by {
        lemma_normalized_has_no_marks(s, i);
    }
    lemma_strip_marks_fixes_mark_free(once);
}

} // verus!
