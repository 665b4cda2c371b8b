//! Text primitives whose behaviour is fixed by the Unicode tables of the
//! standard library, and the ordering of strings.

use vstd::prelude::*;
use vstd::utf8::*;
use vstd::string::*;

verus! {

/// Whether a character has the Unicode `Alphabetic` property.
pub uninterp spec fn unicode_alphabetic(c: char) -> bool;

/// Whether a character has the Unicode `White_Space` property.
pub uninterp spec fn unicode_whitespace(c: char) -> bool;

/// The lowercase form of a text under the Unicode `Lowercase` mapping.
pub uninterp spec fn unicode_lowercase(s: Seq<char>) -> Seq<char>;

/// `char::is_alphabetic` decides the Unicode `Alphabetic` property of its
/// argument; the property itself is not spelled out here.
pub assume_specification[ char::is_alphabetic ](c: char) -> (r: bool)
    ensures
        r == unicode_alphabetic(c),
;

/// `char::is_whitespace` decides the Unicode `White_Space` property of its
/// argument; the property itself is not spelled out here.
pub assume_specification[ char::is_whitespace ](c: char) -> (r: bool)
    ensures
        r == unicode_whitespace(c),
;

/// `str::to_lowercase` returns the lowercase form of the whole text, which
/// depends on nothing but the text.
pub assume_specification[ str::to_lowercase ](s: &str) -> (r: String)
    ensures
        r@ == unicode_lowercase(s@),
;

/// `String::push` appends one character to the end of the string.
pub assume_specification[ String::push ](s: &mut String, c: char)
    ensures
        final(s)@ == old(s)@.push(c),
;

/// What is left of a text once its leading whitespace is removed.
pub open spec fn without_leading_whitespace(s: Seq<char>) -> Seq<char>
    decreases s.len(),
{
    if s.len() > 0 && unicode_whitespace(s[0]) {
        without_leading_whitespace(s.drop_first())
    } else {
        s
    }
}

/// What is left of a text once its trailing whitespace is removed.
pub open spec fn without_trailing_whitespace(s: Seq<char>) -> Seq<char>
    decreases s.len(),
{
    if s.len() > 0 && unicode_whitespace(s.last()) {
        without_trailing_whitespace(s.drop_last())
    } else {
        s
    }
}

/// A text with its leading and trailing whitespace removed.
pub open spec fn trimmed(s: Seq<char>) -> Seq<char> {
    without_trailing_whitespace(without_leading_whitespace(s))
}

/// `str::trim` returns the text without its leading and trailing
/// characters of the `White_Space` property.
pub assume_specification[ str::trim ](s: &str) -> (r: &str)
    ensures
        r@ == trimmed(s@),
;

/// `core::str::from_utf8` accepts exactly the well-formed UTF-8 byte
/// strings, and the text it returns is encoded by the bytes it was given.
#[verifier::external_body]
pub(crate) fn decode_text(bytes: &[u8]) -> (r: Option<&str>)
    ensures
        r is Some <==> valid_utf8(bytes@),
        r is Some ==> r->0.spec_bytes() == bytes@,
{
    match core::str::from_utf8(bytes) {
        Ok(s) => Some(s),
        Err(_) => None,
    }
}

/// The texts held by a sequence of strings.
pub open spec fn texts_of(strings: Seq<String>) -> Seq<Seq<char>> {
    Seq::new(strings.len(), |i: int| strings[i]@)
}

/// Strict lexicographic order of two texts by the code points of their
/// characters; a proper prefix comes before the longer text.
pub open spec fn lex_lt(a: Seq<char>, b: Seq<char>) -> bool
    decreases a.len(),
{
    if b.len() == 0 {
        false
    } else if a.len() == 0 {
        true
    } else if a[0] != b[0] {
        (a[0] as u32) < (b[0] as u32)
    } else {
        lex_lt(a.drop_first(), b.drop_first())
    }
}

/// The `<` of `str` orders texts lexicographically by their bytes, which
/// for UTF-8 is the order of their code points.
#[verifier::external_body]
pub(crate) fn text_lt(a: &str, b: &str) -> (r: bool)
    ensures
        r == lex_lt(a@, b@),
{
    a < b
}

/// No text comes before itself.
pub proof fn lemma_lex_lt_irreflexive(a: Seq<char>)
    ensures
        !lex_lt(a, a),
    decreases a.len(),
{
    if a.len() > 0 {
        lemma_lex_lt_irreflexive(a.drop_first());
    }
}

/// The order is transitive.
pub proof fn lemma_lex_lt_transitive(a: Seq<char>, b: Seq<char>, c: Seq<char>)
    requires
        lex_lt(a, b),
        lex_lt(b, c),
    ensures
        lex_lt(a, c),
    decreases a.len(),
{
    if a.len() > 0 && a[0] == b[0] && b[0] == c[0] {
        lemma_lex_lt_transitive(a.drop_first(), b.drop_first(), c.drop_first());
    }
}

/// Of two different texts one comes before the other.
pub proof fn lemma_lex_lt_total(a: Seq<char>, b: Seq<char>)
    requires
        a != b,
    ensures
        lex_lt(a, b) || lex_lt(b, a),
    decreases a.len(),
{
    if a.len() > 0 && b.len() > 0 && a[0] == b[0] {
        if a.drop_first() == b.drop_first() {
            assert(a =~= seq![a[0]] + a.drop_first());
            assert(b =~= seq![b[0]] + b.drop_first());
        }
        lemma_lex_lt_total(a.drop_first(), b.drop_first());
    } else if a.len() == 0 && b.len() == 0 {
        assert(a =~= b);
    } else if a.len() > 0 && b.len() > 0 {
        assert(a[0] as u32 != b[0] as u32) by {
            char_u32_cast(a[0], a[0] as u32);
            char_u32_cast(b[0], b[0] as u32);
        }
    }
}

} // verus!
