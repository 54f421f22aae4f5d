//! The calls into the `regex`, `shellexpand` and `reqwest` crates, with the contracts
//! this library relies on.
use vstd::prelude::*;
use regex::Regex;
use reqwest::header::{HeaderMap, HeaderValue};
use vstd::string::StringSliceAdditionalSpecFns;

verus! {

/// A compiled regular expression of the `regex` crate.
#[verifier::external_type_specification]
#[verifier::external_body]
pub struct ExRegex(regex::Regex);

/// Whether `Regex::new` accepts `pattern` (valid syntax, within the default
/// size limit).
pub uninterp spec fn regex_compiles(pattern: Seq<char>) -> bool;

/// The pattern text a `Regex` was compiled from. Every `Regex` this library
/// holds comes from `Regex::new`, which keeps the pattern it was given.
pub uninterp spec fn regex_source(re: Regex) -> Seq<char>;

/// Whether the regex compiled from `pattern` matches somewhere in
/// `haystack` (what `Regex::is_match` returns).
pub uninterp spec fn regex_finds_match(pattern: Seq<char>, haystack: Seq<char>) -> bool;

/// `Regex::new`. Claimed: it succeeds exactly when `pattern` compiles (a
/// function of the pattern alone, with the default options), and the regex
/// it returns was compiled from `pattern`.
#[verifier::external_body]
pub(crate) fn compile_regex(pattern: &str) -> (r: Option<Regex>)
    ensures
        r is Some <==> regex_compiles(pattern@),
        r matches Some(re) ==> regex_source(re) == pattern@,
{
    Regex::new(pattern).ok()
}

/// `Regex::is_match`. Claimed: the answer depends only on the regex's
/// pattern and on `haystack`; what it is is left to the name
/// `regex_finds_match`.
#[verifier::external_body]
pub(crate) fn regex_is_match(re: &Regex, haystack: &str) -> (b: bool)
    ensures
        b == regex_finds_match(regex_source(*re), haystack@),
{
    re.is_match(haystack)
}

/// Whether `shellexpand::tilde` expands `path`: it starts with `~` followed
/// by `/` or by nothing.
pub open spec fn starts_with_home(path: Seq<char>) -> bool {
    path.len() > 0 && path[0] == '~' && (path.len() == 1 || path[1] == '/')
}

/// `path` with a leading `~` (alone or before `/`) replaced by `home`.
pub open spec fn tilde_expanded(path: Seq<char>, home: Seq<char>) -> Seq<char> {
    if starts_with_home(path) {
        home + path.skip(1)
    } else {
        path
    }
}

/// `shellexpand::tilde` applied to `~` alone: the home directory, or `~`
/// itself when none is known. Nothing is claimed of the result, which
/// depends on the environment.
#[verifier::external_body]
pub(crate) fn home_text() -> String {
    shellexpand::tilde("~").into_owned()
}

/// `shellexpand::tilde_with_context` with `home` as the home directory.
/// Claimed, from its source: a path that starts with `~` alone or `~/`
/// comes back with that `~` replaced by `home`; any other path comes back
/// unchanged.
#[verifier::external_body]
pub(crate) fn expand_tilde(path: &str, home: &str) -> (r: String)
    ensures
        r@ == tilde_expanded(path@, home@),
{
    shellexpand::tilde_with_context(path, || Some(home)).into_owned()
}

/// A map of HTTP headers of the `http` crate (re-exported by `reqwest`).
#[verifier::external_type_specification]
#[verifier::external_body]
#[verifier::reject_recursive_types(T)]
pub struct ExHeaderMap<T>(reqwest::header::HeaderMap<T>);

/// An HTTP header value of the `http` crate (re-exported by `reqwest`).
#[verifier::external_type_specification]
#[verifier::external_body]
pub struct ExHeaderValue(reqwest::header::HeaderValue);

/// What a header map holds: for each (lower-case) header name, the bytes of
/// its values in order.
pub uninterp spec fn header_values(m: HeaderMap) -> Map<Seq<char>, Seq<Seq<u8>>>;

/// The bytes of a header value (what `HeaderValue::as_bytes` returns).
pub uninterp spec fn header_value_bytes(v: HeaderValue) -> Seq<u8>;

/// A byte that a header value may hold: visible ASCII, a tab, or any byte
/// from 128 on.
pub open spec fn header_value_byte(b: u8) -> bool {
    (b >= 32 && b != 127) || b == 9
}

/// A character that a header name may hold (an HTTP token character).
pub open spec fn header_name_char(c: char) -> bool {
    ('a' <= c && c <= 'z') || ('A' <= c && c <= 'Z') || ('0' <= c && c <= '9') || c == '!' || c == '#'
        || c == '$' || c == '%' || c == '&' || c == '\'' || c == '*' || c == '+' || c == '-' || c == '.'
        || c == '^' || c == '_' || c == '`' || c == '|' || c == '~'
}

/// `c` in lower case, for an ASCII letter.
pub open spec fn ascii_lower(c: char) -> char {
    if 'A' <= c && c <= 'Z' {
        ((c as u32) + 32) as char
    } else {
        c
    }
}

/// The contents of a header map without headers.
pub open spec fn no_headers() -> Map<Seq<char>, Seq<Seq<u8>>> {
    Map::empty()
}

/// `HeaderMap::new`. Claimed: the new map holds no header.
#[verifier::external_body]
pub(crate) fn new_header_map() -> (r: HeaderMap)
    ensures
        header_values(r) == no_headers(),
{
    HeaderMap::new()
}

/// `HeaderValue::from_str`. Claimed, from its source: it succeeds exactly
/// when every byte of the UTF-8 encoding of `s` may stand in a header
/// value, and the value then holds those bytes.
#[verifier::external_body]
pub(crate) fn parse_header_value(s: &str) -> (r: Option<HeaderValue>)
    ensures
        r is Some <==> (forall|i: int| 0 <= i < s.spec_bytes().len() ==> header_value_byte(#[trigger] s.spec_bytes()[i])),
        r matches Some(v) ==> header_value_bytes(v) == s.spec_bytes(),
{
    HeaderValue::from_str(s).ok()
}

/// `HeaderMap::insert` with a static name. Claimed, from its source: the
/// name, of 1 to 64 token characters, is taken in lower case, and `value`
/// becomes its only value. Only an empty map is admitted, far from the
/// capacity limit at which `insert` panics.
#[verifier::external_body]
pub(crate) fn insert_header(m: &mut HeaderMap, name: &'static str, value: HeaderValue)
    requires
        header_values(*old(m)) == no_headers(),
        1 <= name@.len() <= 64,
        forall|i: int| 0 <= i < name@.len() ==> header_name_char(#[trigger] name@[i]),
    ensures
        header_values(*final(m)) == header_values(*old(m)).insert(
            name@.map_values(|c: char| ascii_lower(c)),
            seq![header_value_bytes(value)],
        ),
{
    m.insert(name, value);
}

} // verus!
