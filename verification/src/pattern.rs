//! Glob patterns and regular expressions, as the crates `glob` and `regex`
//! compile and match them.

use vstd::prelude::*;

verus! {

/// `regex::Regex`, a compiled regular expression. Nothing is known of
/// what it holds; it is built and matched by the functions below.
#[verifier::external_type_specification]
#[verifier::external_body]
pub struct ExRegex(regex::Regex);

/// `regex::Error`, the reason why a regular expression was not built.
/// Nothing is known of what it holds.
#[verifier::external_type_specification]
#[verifier::external_body]
pub struct ExRegexError(regex::Error);

/// `glob::Pattern`, a compiled glob pattern. Nothing is known of what it
/// holds; it is built and matched by the functions below.
#[verifier::external_type_specification]
#[verifier::external_body]
pub struct ExGlobPattern(glob::Pattern);

/// `glob::PatternError`, the reason why a glob pattern was not built.
/// Nothing is known of what it holds.
#[verifier::external_type_specification]
#[verifier::external_body]
pub struct ExGlobError(glob::PatternError);

/// What `RegexBuilder::build` gives for a pattern and the builder's
/// settings: the compiled expression, or the reason why there is none.
pub uninterp spec fn regex_built(
    pattern: Seq<char>,
    case_insensitive: bool,
    size_limit: usize,
    nest_limit: u32,
    dfa_size_limit: usize,
) -> Result<regex::Regex, regex::Error>;

/// Whether `Regex::is_match` finds a match of `re` in `text`.
pub uninterp spec fn regex_matches(re: regex::Regex, text: Seq<char>) -> bool;

/// What `Pattern::new` gives for a glob pattern: the compiled pattern, or
/// the reason why there is none.
pub uninterp spec fn glob_built(pattern: Seq<char>) -> Result<glob::Pattern, glob::PatternError>;

/// Whether `Pattern::matches_with` finds that `pattern` matches `text`
/// under the three options of `MatchOptions`.
pub uninterp spec fn glob_matches(
    pattern: glob::Pattern,
    text: Seq<char>,
    case_sensitive: bool,
    require_literal_separator: bool,
    require_literal_leading_dot: bool,
) -> bool;

/// `RegexBuilder::new(pattern)` of regex with the four settings, then
/// `build`. The outcome is the one that the pattern and the settings
/// determine.
#[verifier::external_body]
pub(crate) fn build_regex(
    pattern: &str,
    case_insensitive: bool,
    size_limit: usize,
    nest_limit: u32,
    dfa_size_limit: usize,
) -> (r: Result<regex::Regex, regex::Error>)
    ensures
        r == regex_built(pattern@, case_insensitive, size_limit, nest_limit, dfa_size_limit),
{
    regex::RegexBuilder::new(pattern)
        .case_insensitive(case_insensitive)
        .size_limit(size_limit)
        .nest_limit(nest_limit)
        .dfa_size_limit(dfa_size_limit)
        .build()
}

/// `Regex::is_match` of regex: whether the expression finds a match
/// anywhere in `text`.
#[verifier::external_body]
pub(crate) fn regex_is_match(re: &regex::Regex, text: &str) -> (r: bool)
    ensures
        r == regex_matches(*re, text@),
{
    re.is_match(text)
}

/// `Pattern::new` of glob. The outcome is the one that the pattern
/// determines.
#[verifier::external_body]
pub(crate) fn build_glob(pattern: &str) -> (r: Result<glob::Pattern, glob::PatternError>)
    ensures
        r == glob_built(pattern@),
{
    glob::Pattern::new(pattern)
}

/// `Pattern::matches_with` of glob, with the three options of
/// `MatchOptions` given one by one: whether the pattern matches the whole
/// of `text`.
#[verifier::external_body]
pub(crate) fn glob_matches_with(
    pattern: &glob::Pattern,
    text: &str,
    case_sensitive: bool,
    require_literal_separator: bool,
    require_literal_leading_dot: bool,
) -> (r: bool)
    ensures
        r == glob_matches(
            *pattern,
            text@,
            case_sensitive,
            require_literal_separator,
            require_literal_leading_dot,
        ),
{
    pattern.matches_with(
        text,
        glob::MatchOptions { case_sensitive, require_literal_separator, require_literal_leading_dot },
    )
}

} // verus!
