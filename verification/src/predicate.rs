//! Regex predicates, backed by the `regex` crate.
//!
//! What a regex accepts and which spans its groups capture is the regex
//! crate's business; the library names those results (`regex_accepts`,
//! `regex_group_names`, `regex_captures`) and proves its own logic over the
//! names.

use vstd::prelude::*;
use vstd::string::StringSliceAdditionalSpecFns;
use vstd::utf8::is_char_boundary;
use regex::Regex;

verus! {

#[verifier::external_type_specification]
#[verifier::external_body]
pub struct ExRegex(Regex);

#[verifier::external_type_specification]
#[verifier::external_body]
pub struct ExRegexError(regex::Error);

/// `Regex::clone` (a reference-counted copy of the same compiled program);
/// nothing is stated of the copy, whose type is opaque here.
pub assume_specification[ <Regex as Clone>::clone ](r: &Regex) -> Regex;

/// Whether `Regex::new` compiles the pattern (with the crate's default
/// syntax and size limits).
pub uninterp spec fn regex_accepts(pattern: Seq<char>) -> bool;

/// The names of a compiled pattern's capture groups, in group order: the
/// implicit whole-match group first, then one entry per capturing group.
pub uninterp spec fn regex_group_names(pattern: Seq<char>) -> Seq<Option<Seq<char>>>;

/// The leftmost-first match of a compiled pattern anywhere in `haystack`,
/// as the byte spans of each group (`None` for a group that did not take
/// part), or `None` when the pattern does not match.
pub uninterp spec fn regex_captures(pattern: Seq<char>, haystack: Seq<char>) -> Option<Seq<Option<(usize, usize)>>>;

/// A compiled regex predicate together with its source pattern. The regex is
/// always the one `Regex::new` compiled from the source: values are made only
/// by [`Predicate::new`] and cloned from such values.
#[derive(Debug)]
pub struct Predicate {
    source: String,
    regex: Regex,
}

/// A pattern that the regex crate refused, with its reason.
#[derive(Debug)]
pub struct PredicateError {
    pub error: regex::Error,
}

impl View for Predicate {
    type V = Seq<char>;

    closed spec fn view(&self) -> Seq<char> {
        self.source@
    }
}

impl Clone for Predicate {
    fn clone(&self) -> (r: Predicate)
        ensures
            r@ == self@,
    {
        Predicate { source: self.source.clone(), regex: self.regex.clone() }
    }
}

/// The group names seen as character sequences.
pub open spec fn names_view(names: Seq<Option<&str>>) -> Seq<Option<Seq<char>>> {
    names.map_values(|n: Option<&str>| match n {
        Some(s) => Some(s@),
        None => None,
    })
}

/// Group spans all lie on character boundaries of the haystack `h`.
pub open spec fn spans_in(spans: Seq<Option<(usize, usize)>>, h: Seq<u8>) -> bool {
    forall|g: int| 0 <= g < spans.len() ==> (#[trigger] spans[g] matches Some((s, e)) ==> {
        &&& s <= e <= h.len()
        &&& is_char_boundary(h, s as int)
        &&& is_char_boundary(h, e as int)
    })
}

/// `Regex::new`: compiles a pattern, or says why it cannot.
#[verifier::external_body]
fn regex_new(pattern: &str) -> (r: Result<Regex, regex::Error>)
    ensures
        r is Ok <==> regex_accepts(pattern@),
{
    Regex::new(pattern)
}

impl Predicate {
    /// Compiles `pattern` with the regex crate.
    pub fn new(pattern: &str) -> (r: Result<Predicate, PredicateError>)
        ensures
            r is Ok <==> regex_accepts(pattern@),
            r matches Ok(p) ==> p@ == pattern@,
    {
        match regex_new(pattern) {
            Ok(regex) => Ok(Predicate { source: pattern.to_owned(), regex }),
            Err(error) => Err(PredicateError { error }),
        }
    }

    /// `Regex::capture_names`: the name of every capture group, in order.
    #[verifier::external_body]
    pub(crate) fn group_names(&self) -> (r: Vec<Option<&str>>)
        ensures
            names_view(r@) == regex_group_names(self@),
    {
        self.regex.capture_names().collect()
    }

    /// `Regex::captures`: the group spans of the leftmost-first match in
    /// `haystack`. The regex crate documents that every span lies on
    /// character boundaries of the haystack.
    #[verifier::external_body]
    pub(crate) fn captures(&self, haystack: &str) -> (r: Option<Vec<Option<(usize, usize)>>>)
        ensures
            regex_captures(self@, haystack@) == (match r {
                Some(v) => Some(v@),
                None => None,
            }),
            r matches Some(v) ==> spans_in(v@, haystack.spec_bytes()),
    {
        let caps = self.regex.captures(haystack)?;
        let mut spans = Vec::new();
        for m in caps.iter() {
            spans.push(match m {
                Some(m) => Some((m.start(), m.end())),
                None => None,
            });
        }
        Some(spans)
    }
}

} // verus!
