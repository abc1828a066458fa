//! The trusted boundary around the `regex` crate and around lossy UTF-8
//! decoding. Each wrapper makes one outside call; its contract states what the
//! outside source shows, over the uninterpreted names declared here.

use vstd::prelude::*;

verus! {

/// `regex::bytes::Regex`: the compiled matcher of the regex crate.
#[verifier::external_type_specification]
#[verifier::external_body]
pub struct ExRegex(regex::bytes::Regex);

/// `regex::Error`: what `regex::bytes::Regex::new` returns on a bad pattern.
#[verifier::external_type_specification]
#[verifier::external_body]
pub struct ExRegexError(regex::Error);

/// Whether `regex::bytes::Regex::new` accepts the pattern text. Compilation is
/// deterministic, so acceptance is a function of the text alone.
pub uninterp spec fn pattern_ok(p: Seq<char>) -> bool;

/// The pattern text a compiled `regex::bytes::Regex` holds, i.e. the string it
/// was built from.
pub uninterp spec fn pattern_of(re: regex::bytes::Regex) -> Seq<char>;

/// For each capture-group index of the pattern, in order of opening
/// parenthesis: the group's name, or `None` for an unnamed group. Index 0 is
/// the implicit group for the whole match, always unnamed.
pub uninterp spec fn group_slots(p: Seq<char>) -> Seq<Option<Seq<char>>>;

/// The leftmost match of the pattern in the haystack: for each capture-group
/// index, the captured bytes, or `None` where the group did not participate in
/// the match. `None` overall when the pattern matches nowhere.
pub uninterp spec fn first_match(p: Seq<char>, hay: Seq<u8>) -> Option<Seq<Option<Seq<u8>>>>;

/// Every non-overlapping match of the pattern in the haystack, leftmost first,
/// each with one entry per capture-group index as in `first_match`.
pub uninterp spec fn all_matches(p: Seq<char>, hay: Seq<u8>) -> Seq<Seq<Option<Seq<u8>>>>;

/// What lossy UTF-8 decoding returns on the bytes: the decoded text, with each
/// invalid sequence replaced by the substitution character.
pub uninterp spec fn lossy_decode(b: Seq<u8>) -> Seq<char>;

/// Relies on `regex::bytes::Regex::new`: compiles the pattern text, returning
/// an error exactly when the text is not a valid pattern (or exceeds the
/// default size limit); both are properties of the text alone.
#[verifier::external_body]
pub(crate) fn compile(pattern: &str) -> (r: Result<regex::bytes::Regex, regex::Error>)
    ensures
        r is Ok <==> pattern_ok(pattern@),
        r is Ok ==> pattern_of(r->Ok_0) == pattern@,
{
    regex::bytes::Regex::new(pattern)
}

/// Relies on `regex::bytes::Regex::capture_names`: yields the groups in order
/// of opening parenthesis, `None` for unnamed ones, starting with the implicit
/// unnamed whole-match group; named groups are distinct, since the compiler
/// rejects a duplicate capture group name.
#[verifier::external_body]
pub(crate) fn capture_group_names(re: &regex::bytes::Regex) -> (r: Vec<Option<String>>)
    ensures
        r.deep_view() == group_slots(pattern_of(*re)),
        forall|i: int, j: int|
            0 <= i < j < r.deep_view().len() && #[trigger] r.deep_view()[i] is Some
                && #[trigger] r.deep_view()[j] is Some ==> r.deep_view()[i] != r.deep_view()[j],
{
    re.capture_names().map(|n| n.map(|s| s.to_string())).collect()
}

/// Relies on `regex::bytes::Regex::captures`: returns the leftmost match, with
/// one entry per capture group of the pattern (`None` where the group did not
/// participate), or `None` when the pattern matches nowhere in the haystack.
#[verifier::external_body]
pub(crate) fn captures_first(re: &regex::bytes::Regex, hay: &[u8]) -> (r: Option<
    Vec<Option<Vec<u8>>>,
>)
    ensures
        r is Some <==> first_match(pattern_of(*re), hay@) is Some,
        r is Some ==> r->Some_0.deep_view() == first_match(pattern_of(*re), hay@)->Some_0,
        r is Some ==> r->Some_0.deep_view().len() == group_slots(pattern_of(*re)).len(),
{
    re.captures(hay).map(|caps| caps.iter().map(|m| m.map(|g| g.as_bytes().to_vec())).collect())
}

/// Relies on `regex::bytes::Regex::captures_iter`: yields every successive
/// non-overlapping match in haystack order, each with one entry per capture
/// group; it yields nothing exactly when `captures` finds no match.
#[verifier::external_body]
pub(crate) fn captures_all(re: &regex::bytes::Regex, hay: &[u8]) -> (r: Vec<Vec<Option<Vec<u8>>>>)
    ensures
        r.deep_view() == all_matches(pattern_of(*re), hay@),
        r@.len() == 0 <==> first_match(pattern_of(*re), hay@) is None,
        forall|k: int|
            0 <= k < r.deep_view().len() ==> (#[trigger] r.deep_view()[k]).len() == group_slots(
                pattern_of(*re),
            ).len(),
{
    re.captures_iter(hay).map(
        |caps: regex::bytes::Captures| caps.iter().map(|m| m.map(|g| g.as_bytes().to_vec())).collect(),
    ).collect()
}

/// Relies on `String::from_utf8_lossy`: decodes the bytes as UTF-8, replacing
/// each invalid sequence with the substitution character and never failing;
/// bytes below 0x80 are valid one-byte sequences and decode to themselves.
#[verifier::external_body]
pub(crate) fn decode_lossy(b: &[u8]) -> (r: String)
    ensures
        r@ == lossy_decode(b@),
        (forall|i: int| 0 <= i < b@.len() ==> b@[i] < 128) ==> r@ == b@.map_values(
            |x: u8| x as char,
        ),
{
    String::from_utf8_lossy(b).into_owned()
}

} // verus!
