//! Case-insensitive name patterns.
//!
//! A pattern is the text a user types. The empty pattern matches every name.
//! Any other pattern is read as an unanchored regular expression and handed to
//! the `regex` crate with the case-insensitive flag in front of it.

use regex::Regex;
use vstd::prelude::*;
use vstd::string::*;

verus! {

/// Trusted: the type `regex::Regex`, a compiled expression. Nothing inside it
/// is visible to the proofs.
#[verifier::external_type_specification]
#[verifier::external_body]
pub struct ExRegex(Regex);

/// Trusted: the type `regex::Error`, carried from the compiler to the place
/// where its text is taken.
#[verifier::external_type_specification]
#[verifier::external_body]
pub struct ExRegexError(regex::Error);

/// What a compiled expression holds, as far as matching goes: the set of
/// texts in which it finds a match. `Regex::is_match` tests membership.
pub uninterp spec fn regex_language(re: Regex) -> Set<Seq<char>>;

/// What `Regex::new` makes of an expression: the set of texts in which the
/// compiled expression finds a match, or `None` where the expression is
/// refused.
pub uninterp spec fn regex_compiled(expr: Seq<char>) -> Option<Set<Seq<char>>>;

/// Trusted: `regex::Regex::new`. The outcome depends on the expression alone.
/// An expression is refused exactly where `regex_compiled` is `None`;
/// otherwise the compiled value finds a match in exactly the texts that
/// `regex_compiled` names.
#[verifier::external_body]
fn regex_new(expr: &str) -> (r: Result<Regex, regex::Error>)
    ensures
        match r {
            Ok(re) => regex_compiled(expr@) == Some(regex_language(re)),
            Err(_) => regex_compiled(expr@).is_none(),
        },
{
    Regex::new(expr)
}

/// Trusted: `regex::Regex::is_match`. It answers whether there is a match
/// for the expression anywhere in the text, which is what membership in
/// `regex_language` stands for.
#[verifier::external_body]
fn regex_is_match(re: &Regex, text: &str) -> (b: bool)
    ensures
        b == regex_language(*re).contains(text@),
{
    re.is_match(text)
}

/// Trusted: `to_string` on a `regex::Error`, its `Display` text. Nothing is
/// claimed of the text.
#[verifier::external_body]
fn regex_error_text(err: &regex::Error) -> (text: String) {
    err.to_string()
}

/// The expression compiled for a non-empty pattern: the pattern behind the
/// flag that makes matching case-insensitive.
pub open spec fn expression(pattern: Seq<char>) -> Seq<char> {
    "(?i)"@ + pattern
}

/// The names a pattern matches, or `None` where the pattern is invalid.
pub open spec fn pattern_language(pattern: Seq<char>) -> Option<Set<Seq<char>>> {
    if pattern.len() == 0 {
        Some(Set::full())
    } else {
        regex_compiled(expression(pattern))
    }
}

/// Why a pattern was rejected.
#[derive(Debug)]
pub struct CompileError {
    pattern: String,
    reason: String,
}

impl CompileError {
    /// The rejected pattern, as the user gave it.
    pub closed spec fn rejected(&self) -> Seq<char> {
        self.pattern@
    }

    /// The reason, in the words of the expression compiler.
    pub closed spec fn reason(&self) -> Seq<char> {
        self.reason@
    }

    /// The rejected pattern, as the user gave it.
    pub fn pattern(&self) -> (p: &str)
        ensures
            p@ == self.rejected(),
    {
        self.pattern.as_str()
    }

    /// A one-line description of the failure.
    pub fn message(&self) -> (m: String)
        ensures
            m@ == self.reason(),
    {
        self.reason.clone()
    }
}

/// A pattern ready for matching.
pub struct CompiledPattern {
    source: String,
    engine: Option<Regex>,
}

impl CompiledPattern {
    #[verifier::type_invariant]
    closed spec fn inv(&self) -> bool {
        pattern_language(self.source@) == Some(self.language())
    }

    /// The pattern this matcher was compiled from.
    pub closed spec fn source(&self) -> Seq<char> {
        self.source@
    }

    /// The names this matcher accepts.
    pub closed spec fn language(&self) -> Set<Seq<char>> {
        match self.engine {
            Some(re) => regex_language(re),
            None => Set::full(),
        }
    }

    /// Compiles a pattern. Fails exactly on the patterns that have no
    /// language, and then names the pattern in the error.
    pub fn compile(pattern: &str) -> (r: Result<CompiledPattern, CompileError>)
        ensures
            match r {
                Ok(m) => m.source() == pattern@ && pattern_language(pattern@) == Some(
                    m.language(),
                ),
                Err(e) => pattern_language(pattern@).is_none() && e.rejected() == pattern@,
            },
    {
        let source = String::from_str(pattern);
        if pattern.is_empty() {
            return Ok(CompiledPattern { source, engine: None });
        }
        let expr = String::from_str("(?i)").concat(pattern);
        match regex_new(expr.as_str()) {
            Ok(re) => Ok(CompiledPattern { source, engine: Some(re) }),
            Err(err) => Err(CompileError { pattern: source, reason: regex_error_text(&err) }),
        }
    }

    /// The pattern this matcher was compiled from. A matcher keeps the
    /// language of its pattern for as long as it lives.
    pub fn pattern(&self) -> (p: &str)
        ensures
            p@ == self.source(),
            pattern_language(p@) == Some(self.language()),
    {
        proof {
            use_type_invariant(self);
        }
        self.source.as_str()
    }

    /// Whether the pattern matches the name.
    pub fn matches(&self, name: &str) -> (b: bool)
        ensures
            b == self.language().contains(name@),
    {
        match &self.engine {
            Some(re) => regex_is_match(re, name),
            None => true,
        }
    }

}

/// The empty pattern is valid and matches every name.
pub proof fn lemma_empty_pattern_matches_all(name: Seq<char>)
    ensures
        pattern_language(Seq::empty()) == Some(Set::<Seq<char>>::full()),
        pattern_language(Seq::empty()).unwrap().contains(name),
{
}

} // verus!
