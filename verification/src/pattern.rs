//! URL-matching patterns: a compiled regular expression paired with its
//! source pattern, so that contracts can speak of matching as a function of
//! the pattern text and the tested text alone.
use vstd::prelude::*;

verus! {

#[verifier::external_type_specification]
#[verifier::external_body]
pub struct ExRegex(regex::Regex);

/// What `regex::Regex::is_match` returns for a regex compiled from `pattern`
/// when run on `text`; a function of the two strings alone.
pub uninterp spec fn regex_match(pattern: Seq<char>, text: Seq<char>) -> bool;

/// A compiled regular expression together with the pattern it was compiled
/// from. The fields are private: every `Pattern` comes from `compile`, so the
/// regex is always the one the pattern text describes.
#[derive(Debug)]
pub struct Pattern {
    regex: regex::Regex,
    pattern: String,
}

impl View for Pattern {
    type V = Seq<char>;

    closed spec fn view(&self) -> Seq<char> {
        self.pattern@
    }
}

impl Pattern {
    /// Relies on `regex::Regex::new`: compiles the pattern, returning `None`
    /// on an invalid pattern or one whose automaton exceeds the crate's size
    /// limit.
    #[verifier::external_body]
    pub fn compile(pattern: &str) -> (r: Option<Pattern>)
        ensures
            match r {
                Some(p) => p@ == pattern@,
                None => true,
            },
    {
        match regex::Regex::new(pattern) {
            Ok(regex) => Some(Pattern { regex, pattern: pattern.to_owned() }),
            Err(_) => None,
        }
    }

    /// Relies on `regex::Regex::is_match`: whether the regex matches anywhere
    /// in `text`, deterministic in the pattern and the text.
    #[verifier::external_body]
    pub fn is_match(&self, text: &str) -> (r: bool)
        ensures
            r == regex_match(self@, text@),
    {
        self.regex.is_match(text)
    }
}

} // verus!
