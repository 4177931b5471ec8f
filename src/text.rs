//! Text operations of std and of the `regex` crate that the tokenizer relies on.
use regex::Regex;
use vstd::prelude::*;

verus! {

#[verifier::external_type_specification]
#[verifier::external_body]
pub struct ExRegex(Regex);

/// The pattern that splits lowercased text into words: the two marker
/// substrings, English contraction suffixes, runs of letters, single
/// digits, and runs of other non-space characters.
pub const WORD_PATTERN: &'static str =
    "<start_of_text>|<end_of_text>|'s|'t|'re|'ve|'m|'ll|'d|[\\p{L}]+|[\\p{N}]|[^\\s\\p{L}\\p{N}]+";

/// The contents of some byte vectors.
pub open spec fn byte_views(v: Seq<Vec<u8>>) -> Seq<Seq<u8>> {
    v.map_values(|b: Vec<u8>| b@)
}

/// The lowercase form of a text, as std computes it.
pub uninterp spec fn lower_of(s: Seq<char>) -> Seq<char>;

/// The whitespace-separated fields of a text, as std splits it.
pub uninterp spec fn fields_of(s: Seq<char>) -> Seq<Seq<char>>;

/// The UTF-8 bytes of each match of the word pattern in a text, left to right.
pub uninterp spec fn word_spans(s: Seq<char>) -> Seq<Seq<u8>>;

/// The text that lossy UTF-8 decoding makes of some bytes.
pub uninterp spec fn lossy_text(b: Seq<u8>) -> Seq<char>;

/// `s` with every occurrence of `p`, taken left to right without overlap,
/// replaced by `w`.
pub open spec fn replaced(s: Seq<char>, p: Seq<char>, w: Seq<char>) -> Seq<char>
    decreases s.len(),
{
    if p.len() == 0 || s.len() < p.len() {
        s
    } else if s.subrange(0, p.len() as int) == p {
        w + replaced(s.skip(p.len() as int), p, w)
    } else {
        seq![s[0]] + replaced(s.skip(1), p, w)
    }
}

/// Relies on str::to_lowercase: the result depends on the characters alone.
#[verifier::external_body]
pub(crate) fn lowercase(s: &str) -> (r: String)
    ensures
        r@ == lower_of(s@),
{
    s.to_lowercase()
}

/// Relies on str::split_whitespace: the fields of the line, in order.
#[verifier::external_body]
pub(crate) fn split_fields(s: &str) -> (r: Vec<String>)
    ensures
        r@.map_values(|f: String| f@) == fields_of(s@),
{
    s.split_whitespace().map(String::from).collect()
}

/// Relies on char::from_u32: every code point below the surrogate range is
/// a character.
#[verifier::external_body]
pub(crate) fn char_from_code(c: u32) -> (r: Option<char>)
    ensures
        c < 0xd800 ==> r is Some && (r->0) as u32 == c,
{
    char::from_u32(c)
}

/// Relies on `String::from(char)`: the one-character string.
#[verifier::external_body]
pub(crate) fn char_string(c: char) -> (r: String)
    ensures
        r@ == seq![c],
{
    String::from(c)
}

/// Relies on String::from_utf8_lossy; valid UTF-8 is decoded as it is.
#[verifier::external_body]
pub(crate) fn utf8_lossy(b: &[u8]) -> (r: String)
    ensures
        r@ == lossy_text(b@),
        vstd::utf8::valid_utf8(b@) ==> r@ == vstd::utf8::decode_utf8(b@),
{
    String::from_utf8_lossy(b).into_owned()
}

/// Relies on str::replace with a non-empty pattern: matches are replaced
/// left to right, without overlap.
#[verifier::external_body]
pub(crate) fn replace_all(s: &str, p: &str, w: &str) -> (r: String)
    requires
        p@.len() > 0,
    ensures
        r@ == replaced(s@, p@, w@),
{
    s.replace(p, w)
}

/// Relies on regex::Regex::new; the one pattern admitted is valid, so the
/// call succeeds.
#[verifier::external_body]
pub(crate) fn compile_word_pattern(pattern: &str) -> (r: Regex)
    requires
        pattern@ == WORD_PATTERN@,
{
    Regex::new(pattern).unwrap()
}

/// Relies on regex::Regex::find_iter, on the regex that
/// `compile_word_pattern` builds (the only one this library makes): the
/// bytes of each match, left to right.
#[verifier::external_body]
pub(crate) fn find_words(re: &Regex, text: &str) -> (r: Vec<Vec<u8>>)
    ensures
        byte_views(r@) == word_spans(text@),
{
    re.find_iter(text).map(|m| m.as_str().as_bytes().to_vec()).collect()
}

} // verus!
