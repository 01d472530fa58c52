//! Regular expressions: what the `regex` crate finds in a text.

use vstd::prelude::*;

verus! {

/// The byte ranges of the matches of a pattern, as `regex::Regex::find_iter` gives
/// them; none for a pattern that does not compile.
pub uninterp spec fn regex_spans(pattern: Seq<char>, text: Seq<char>) -> Seq<(usize, usize)>;

/// The groups of the first match of a pattern, as `regex::Regex::captures` gives
/// them, the whole match first; `None` where nothing matches.
pub uninterp spec fn regex_groups(pattern: Seq<char>, text: Seq<char>) -> Option<Seq<Option<Seq<char>>>>;

/// A byte range of the text that begins and ends between characters.
pub open spec fn span_in(text: Seq<char>, span: (usize, usize)) -> bool {
    let b = vstd::utf8::encode_utf8(text);
    &&& span.0 <= span.1 <= b.len()
    &&& vstd::utf8::is_char_boundary(b, span.0 as int)
    &&& vstd::utf8::is_char_boundary(b, span.1 as int)
}

/// The texts of a list of groups.
pub open spec fn group_texts(v: Seq<Option<String>>) -> Seq<Option<Seq<char>>> {
    v.map_values(|o: Option<String>| crate::text::opt_text(o))
}

/// `regex::Regex::find_iter`: the matches are a function of pattern and text, each
/// lies in the text between characters, and each begins no earlier than the one
/// before it ends. Which texts match a pattern is not spelled out.
#[verifier::external_body]
pub(crate) fn find_spans(pattern: &str, text: &str) -> (r: Vec<(usize, usize)>)
    ensures
        r@ == regex_spans(pattern@, text@),
        forall|i: int| 0 <= i < r@.len() ==> span_in(text@, #[trigger] r@[i]),
        forall|i: int, j: int| 0 <= i < j < r@.len() ==> (#[trigger] r@[i]).1 <= (#[trigger] r@[j]).0,
{
    match regex::Regex::new(pattern) {
        Ok(re) => re.find_iter(text).map(|m| (m.start(), m.end())).collect(),
        Err(_) => Vec::new(),
    }
}

/// `regex::Regex::is_match`: whether there is a match at all.
#[verifier::external_body]
pub(crate) fn is_match(pattern: &str, text: &str) -> (r: bool)
    ensures
        r == (regex_spans(pattern@, text@).len() > 0),
{
    match regex::Regex::new(pattern) {
        Ok(re) => re.is_match(text),
        Err(_) => false,
    }
}

/// `regex::Regex::captures`: the groups of the first match are a function of
/// pattern and text. Which texts match a pattern is not spelled out.
#[verifier::external_body]
pub(crate) fn capture_groups(pattern: &str, text: &str) -> (r: Option<Vec<Option<String>>>)
    ensures
        (match r {
            Some(v) => Some(group_texts(v@)),
            None => None,
        }) == regex_groups(pattern@, text@),
{
    let re = regex::Regex::new(pattern).ok()?;
    let caps = re.captures(text)?;
    Some(caps.iter().map(|m| m.map(|g| g.as_str().to_string())).collect())
}

/// The `i`-th group, where the match has one and it took part in the match.
pub open spec fn group(groups: Option<Seq<Option<Seq<char>>>>, i: int) -> Option<Seq<char>> {
    match groups {
        Some(v) => if 0 <= i < v.len() {
            v[i]
        } else {
            None
        },
        None => None,
    }
}

} // verus!
