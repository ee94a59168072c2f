//! Search keys from a free-text translation: parenthetical remarks go,
//! the rest is cut at punctuation, and each piece is trimmed and relieved
//! of a leading infinitive marker.
//!
//! Removing the parenthetical remarks is a regular-expression replacement
//! done by the `regex` crate; its result is named here, not defined.

use crate::prefix_tree::strings_view;
use crate::util::{chars_of, string_of};
use crate::word_dto::opt_str_view;
use vstd::prelude::*;

verus! {

/// What `regex` makes of `haystack` when every match of `pattern` in it is
/// replaced by `replacement`; `None` where `regex` does not accept the
/// pattern.
pub uninterp spec fn regex_replace_all(
    pattern: Seq<char>,
    haystack: Seq<char>,
    replacement: Seq<char>,
) -> Option<Seq<char>>;

/// Whether std counts a code point as white space (`char::is_whitespace`).
pub uninterp spec fn white_space(c: char) -> bool;

/// Compiles `pattern` with `regex::Regex::new` and, where that succeeds,
/// hands `haystack` and `replacement` to `Regex::replace_all`. The contract
/// only names the outcome; `None` stands for a pattern that did not compile.
#[verifier::external_body]
fn replace_all(pattern: &str, haystack: &str, replacement: &str) -> (r: Option<String>)
    ensures
        opt_str_view(r) == regex_replace_all(pattern@, haystack@, replacement@),
{
    match regex::Regex::new(pattern) {
        Ok(re) => Some(re.replace_all(haystack, replacement).into_owned()),
        Err(_) => None,
    }
}

/// `char::is_whitespace` tells whether the code point has the Unicode
/// property White_Space; the contract names its answer.
pub assume_specification[ char::is_whitespace ](c: char) -> (b: bool)
    ensures
        b == white_space(c),
;

/// `char::is_ascii_punctuation` holds of the code points U+0021 to U+002F,
/// U+003A to U+0040, U+005B to U+0060 and U+007B to U+007E, and of no other.
pub assume_specification[ char::is_ascii_punctuation ](c: &char) -> (b: bool)
    ensures
        b == ascii_punctuation(*c),
;

/// An ASCII punctuation mark.
pub open spec fn ascii_punctuation(c: char) -> bool {
    let n = c as int;
    ||| 0x21 <= n <= 0x2F
    ||| 0x3A <= n <= 0x40
    ||| 0x5B <= n <= 0x60
    ||| 0x7B <= n <= 0x7E
}

/// The pattern of a parenthetical remark: an opening parenthesis, as few
/// code points as possible, a closing parenthesis.
pub open spec fn remark_pattern() -> Seq<char> {
    "\\(.*?\\)"@
}

/// A translation without its parenthetical remarks. (Where `regex` does not
/// accept the pattern, the text stays as it is.)
pub open spec fn remove_braces_spec(input: Seq<char>) -> Seq<char> {
    match regex_replace_all(remark_pattern(), input, Seq::<char>::empty()) {
        Some(s) => s,
        None => input,
    }
}

/// The pieces of `s` between punctuation marks: one more than there are
/// marks, empty pieces among them.
pub open spec fn split_spec(s: Seq<char>) -> Seq<Seq<char>>
    decreases s.len(),
{
    if s.len() == 0 {
        seq![Seq::<char>::empty()]
    } else {
        let before = split_spec(s.drop_last());
        if ascii_punctuation(s.last()) {
            before.push(Seq::<char>::empty())
        } else {
            before.drop_last().push(before.last().push(s.last()))
        }
    }
}

/// `s` without the white space it starts with.
pub open spec fn trim_start_spec(s: Seq<char>) -> Seq<char>
    decreases s.len(),
{
    if s.len() > 0 && white_space(s.first()) {
        trim_start_spec(s.drop_first())
    } else {
        s
    }
}

/// `s` without the white space it ends with.
pub open spec fn trim_end_spec(s: Seq<char>) -> Seq<char>
    decreases s.len(),
{
    if s.len() > 0 && white_space(s.last()) {
        trim_end_spec(s.drop_last())
    } else {
        s
    }
}

/// `s` without the white space around it.
pub open spec fn trim_spec(s: Seq<char>) -> Seq<char> {
    trim_end_spec(trim_start_spec(s))
}

/// The infinitive marker: "to" and a space.
pub open spec fn marker() -> Seq<char> {
    seq!['t', 'o', ' ']
}

/// `s` without the infinitive marker it starts with, if it starts with
/// one.
pub open spec fn strip_marker_spec(s: Seq<char>) -> Seq<char> {
    if marker().is_prefix_of(s) {
        s.skip(3)
    } else {
        s
    }
}

/// The search key that a piece gives: trimmed, then without a leading
/// marker.
pub open spec fn token_spec(piece: Seq<char>) -> Seq<char> {
    strip_marker_spec(trim_spec(piece))
}

/// The test that a key passes when it is not empty.
pub open spec fn nonempty() -> spec_fn(Seq<char>) -> bool {
    |t: Seq<char>| t.len() > 0
}

/// The keys that a list of pieces gives: one for each piece, in order, the
/// empty ones left out.
pub open spec fn tokens_spec(pieces: Seq<Seq<char>>) -> Seq<Seq<char>> {
    pieces.map_values(|p: Seq<char>| token_spec(p)).filter(nonempty())
}

/// The search keys of a translation that has no parenthetical remarks left.
pub open spec fn translations_spec(text: Seq<char>) -> Seq<Seq<char>> {
    tokens_spec(split_spec(text))
}

/// The keys of one more piece.
proof fn lemma_tokens_push(pieces: Seq<Seq<char>>, piece: Seq<char>)
    ensures
        tokens_spec(pieces.push(piece)) == if token_spec(piece).len() > 0 {
            tokens_spec(pieces).push(token_spec(piece))
        } else {
            tokens_spec(pieces)
        },
{
    let f = |p: Seq<char>| token_spec(p);
    assert(pieces.push(piece).map_values(f) =~= pieces.map_values(f).push(token_spec(piece)));
    pieces.map_values(f).lemma_filter_push(token_spec(piece), nonempty());
}

/// Where `chars[from..to]` stops being white space from the left.
fn skip_white_space(chars: &Vec<char>, from: usize, to: usize) -> (a: usize)
    requires
        from <= to <= chars.len(),
    ensures
        from <= a <= to,
        chars@.subrange(a as int, to as int) == trim_start_spec(
            chars@.subrange(from as int, to as int),
        ),
{
    let mut a: usize = from;
    while a < to && chars[a].is_whitespace()
        invariant
            from <= a <= to <= chars.len(),
            trim_start_spec(chars@.subrange(a as int, to as int)) == trim_start_spec(
                chars@.subrange(from as int, to as int),
            ),
        decreases to - a,
    {
        proof {
            let s = chars@.subrange(a as int, to as int);
            assert(s.first() == chars@[a as int]);
            assert(s.drop_first() =~= chars@.subrange(a + 1, to as int));
        }
        a += 1;
    }
    proof {
        let s = chars@.subrange(a as int, to as int);
        if a < to {
            assert(s.first() == chars@[a as int]);
        }
    }
    a
}

/// Where `chars[from..to]` stops being white space from the right.
fn drop_white_space(chars: &Vec<char>, from: usize, to: usize) -> (b: usize)
    requires
        from <= to <= chars.len(),
    ensures
        from <= b <= to,
        chars@.subrange(from as int, b as int) == trim_end_spec(
            chars@.subrange(from as int, to as int),
        ),
{
    let mut b: usize = to;
    while b > from && chars[b - 1].is_whitespace()
        invariant
            from <= b <= to <= chars.len(),
            trim_end_spec(chars@.subrange(from as int, b as int)) == trim_end_spec(
                chars@.subrange(from as int, to as int),
            ),
        decreases b - from,
    {
        proof {
            let s = chars@.subrange(from as int, b as int);
            assert(s.last() == chars@[b - 1]);
            assert(s.drop_last() =~= chars@.subrange(from as int, b - 1));
        }
        b -= 1;
    }
    proof {
        let s = chars@.subrange(from as int, b as int);
        if b > from {
            assert(s.last() == chars@[b - 1]);
        }
    }
    b
}

/// Whether `chars[from..to]` starts with the infinitive marker.
fn starts_with_marker(chars: &Vec<char>, from: usize, to: usize) -> (b: bool)
    requires
        from <= to <= chars.len(),
    ensures
        b == marker().is_prefix_of(chars@.subrange(from as int, to as int)),
{
    let b = to - from >= 3 && chars[from] == 't' && chars[from + 1] == 'o' && chars[from + 2]
        == ' ';
    proof {
        let s = chars@.subrange(from as int, to as int);
        if s.len() >= 3 {
            assert(s[0] == chars@[from as int]);
            assert(s[1] == chars@[from + 1]);
            assert(s[2] == chars@[from + 2]);
            if b {
                assert(marker() =~= s.subrange(0, 3));
            } else {
                if marker() == s.subrange(0, 3) {
                    assert(s.subrange(0, 3)[0] == 't');
                    assert(s.subrange(0, 3)[1] == 'o');
                    assert(s.subrange(0, 3)[2] == ' ');
                }
            }
        }
    }
    b
}

/// Where `chars[from..to]` begins once a leading infinitive marker is
/// skipped.
fn skip_marker(chars: &Vec<char>, from: usize, to: usize) -> (a: usize)
    requires
        from <= to <= chars.len(),
    ensures
        from <= a <= to,
        chars@.subrange(a as int, to as int) == strip_marker_spec(
            chars@.subrange(from as int, to as int),
        ),
{
    if starts_with_marker(chars, from, to) {
        assert(chars@.subrange(from as int, to as int).skip(3) =~= chars@.subrange(
            from + 3,
            to as int,
        ));
        from + 3
    } else {
        from
    }
}

/// `s` without the infinitive marker it starts with, if it starts with
/// one.
pub fn strip_marker(s: &str) -> (r: String)
    ensures
        r@ == strip_marker_spec(s@),
{
    let chars = chars_of(s);
    let a = skip_marker(&chars, 0, chars.len());
    assert(chars@.subrange(0, chars.len() as int) =~= chars@);
    string_of(&chars, a, chars.len())
}

/// The bounds of the search key inside the piece `chars[from..to]`.
fn token_bounds(chars: &Vec<char>, from: usize, to: usize) -> (r: (usize, usize))
    requires
        from <= to <= chars.len(),
    ensures
        from <= r.0 <= r.1 <= to,
        chars@.subrange(r.0 as int, r.1 as int) == token_spec(
            chars@.subrange(from as int, to as int),
        ),
{
    let a = skip_white_space(chars, from, to);
    let b = drop_white_space(chars, a, to);
    let c = skip_marker(chars, a, b);
    (c, b)
}

/// The search keys of a translation that has no parenthetical remarks left:
/// the text is cut at every ASCII punctuation mark; each piece is trimmed
/// and loses a leading infinitive marker; what is then empty is dropped.
pub fn translations_of(text: &str) -> (r: Vec<String>)
    ensures
        strings_view(r@) == translations_spec(text@),
{
    let chars = chars_of(text);
    let mut r: Vec<String> = Vec::new();
    let mut start: usize = 0;
    let mut i: usize = 0;
    let ghost mut pieces: Seq<Seq<char>> = Seq::empty();
    proof {
        assert(chars@.take(0) =~= Seq::<char>::empty());
        assert(split_spec(chars@.take(0)) =~= pieces.push(chars@.subrange(0, 0)));
        assert(pieces.map_values(|p: Seq<char>| token_spec(p)) =~= Seq::<Seq<char>>::empty());
        assert(tokens_spec(pieces) =~= Seq::<Seq<char>>::empty()) by {
            reveal(Seq::filter);
        }
        assert(strings_view(r@) =~= tokens_spec(pieces));
    }
    while i < chars.len()
        invariant
            start <= i <= chars.len(),
            split_spec(chars@.take(i as int)) == pieces.push(
                chars@.subrange(start as int, i as int),
            ),
            strings_view(r@) == tokens_spec(pieces),
        decreases chars.len() - i,
    {
        let ghost before = split_spec(chars@.take(i as int));
        proof {
            assert(chars@.take(i + 1).drop_last() =~= chars@.take(i as int));
            assert(chars@.take(i + 1).last() == chars@[i as int]);
        }
        if chars[i].is_ascii_punctuation() {
            let ghost piece = chars@.subrange(start as int, i as int);
            let ghost listed = strings_view(r@);
            let (a, b) = token_bounds(&chars, start, i);
            if a < b {
                let token = string_of(&chars, a, b);
                r.push(token);
                assert(strings_view(r@) =~= listed.push(token_spec(piece)));
            }
            proof {
                lemma_tokens_push(pieces, piece);
                pieces = pieces.push(piece);
                assert(chars@.subrange(i + 1, i + 1) =~= Seq::<char>::empty());
            }
            start = i + 1;
        } else {
            proof {
                assert(before.drop_last() =~= pieces);
                assert(before.last().push(chars@[i as int]) =~= chars@.subrange(
                    start as int,
                    i + 1,
                ));
            }
        }
        i += 1;
    }
    let ghost piece = chars@.subrange(start as int, i as int);
    let ghost listed = strings_view(r@);
    let (a, b) = token_bounds(&chars, start, i);
    if a < b {
        let token = string_of(&chars, a, b);
        r.push(token);
        assert(strings_view(r@) =~= listed.push(token_spec(piece)));
    }
    proof {
        lemma_tokens_push(pieces, piece);
        assert(chars@.take(chars.len() as int) =~= chars@);
    }
    r
}

/// A translation without its parenthetical remarks.
pub fn remove_braces(input: &str) -> (r: String)
    ensures
        r@ == remove_braces_spec(input@),
{
    proof {
        reveal_strlit("");
        assert(""@ =~= Seq::<char>::empty());
    }
    match replace_all("\\(.*?\\)", input, "") {
        Some(s) => s,
        None => input.to_owned(),
    }
}

} // verus!
