use vstd::prelude::*;
use vstd::string::*;
use vstd::utf8::*;

verus! {

/// `String::from_utf8` of std: the text that `bytes` spell in UTF-8, and
/// nothing where they are not valid UTF-8. Taken on trust, not proved.
#[verifier::external_body]
pub(crate) fn text_of_utf8(bytes: Vec<u8>) -> (r: Option<String>)
    ensures
        r is Some <==> valid_utf8(bytes@),
        r matches Some(s) ==> s@ == decode_utf8(bytes@),
{
    match String::from_utf8(bytes) {
        Ok(s) => Some(s),
        Err(_) => None,
    }
}

/// Whether the crate regex compiles `pattern`: it is a regular expression,
/// and its program is not too large.
pub uninterp spec fn regex_compiles(pattern: Seq<char>) -> bool;

/// The groups that the regular expression `pattern` captures in its first
/// match in `text`, the whole match first: for each group the text it took,
/// or nothing where it took part in no match. Nothing where `pattern`
/// matches nowhere in `text`.
pub uninterp spec fn regex_captures(pattern: Seq<char>, text: Seq<char>) -> Option<
    Seq<Option<Seq<char>>>,
>;

/// `Regex::new` and `Regex::captures` of the crate regex: compiles
/// `pattern` and gives the groups of its first match in `text`; gives
/// nothing at all where `pattern` does not compile. Taken on trust, not
/// proved: that whether a pattern compiles depends on the pattern alone,
/// and what it captures on the pattern and the text alone. The contract
/// only names the two results, and claims nothing of what a pattern
/// matches.
#[verifier::external_body]
pub(crate) fn captures(pattern: &str, text: &str) -> (r: Option<Option<Vec<Option<String>>>>)
    ensures
        r is Some <==> regex_compiles(pattern@),
        r matches Some(found) ==> found.deep_view() == regex_captures(pattern@, text@),
{
    let re = match regex::Regex::new(pattern) {
        Ok(re) => re,
        Err(_) => return None,
    };
    match re.captures(text) {
        Some(caps) => Some(Some(caps.iter().map(|m| m.map(|g| g.as_str().to_string())).collect())),
        None => Some(None),
    }
}

} // verus!
