//! Renaming rules: regular expressions with one designated capture group,
//! the last, that names the entry a directory is exposed under.
//!
//! Matching is the `regex` crate's work. This module states what the library
//! relies on and proves nothing of it.

use regex::Regex;
use vstd::prelude::*;
use crate::error::ConfigError;

verus! {

/// The error of `Regex::new`. Nothing is read from it: a pattern that does
/// not compile is refused, whatever the reason.
#[verifier::external_type_specification]
#[verifier::external_body]
pub struct ExRegexError(regex::Error);

/// The number of capture groups of `pattern`, the implicit group of the whole
/// match included, or `None` where `pattern` does not compile.
pub uninterp spec fn rule_groups(pattern: Seq<char>) -> Option<nat>;

/// What capture group `group` of `pattern` holds in the leftmost match in
/// `haystack`. `None` where `pattern` does not compile, where it matches
/// nowhere in `haystack`, where it has no such group, and where the group
/// took no part in the match.
pub uninterp spec fn rule_capture(pattern: Seq<char>, haystack: Seq<char>, group: nat) -> Option<
    Seq<char>,
>;

/// Compiles `pattern` with `Regex::new` and counts its capture groups with
/// `Regex::captures_len`. Assumed: the outcome depends on the pattern alone,
/// and a compiled pattern has at least one group, that of the whole match.
#[verifier::external_body]
fn count_groups(pattern: &str) -> (groups: Result<usize, regex::Error>)
    ensures
        match groups {
            Ok(n) => n >= 1 && rule_groups(pattern@) == Some(n as nat),
            Err(_) => rule_groups(pattern@) is None,
        },
{
    Regex::new(pattern).map(|re| re.captures_len())
}

/// Searches `haystack` with `Regex::captures` and reads one group of the
/// match with `Captures::get` and `Match::as_str`. Assumed: the outcome
/// depends on the three arguments alone.
#[verifier::external_body]
fn capture(pattern: &str, haystack: &str, group: usize) -> (text: Option<String>)
    ensures
        text.deep_view() == rule_capture(pattern@, haystack@, group as nat),
{
    let re = Regex::new(pattern).ok()?;
    let found = re.captures(haystack)?;
    found.get(group).map(|m| m.as_str().to_string())
}

/// A renaming rule that compiles, with the index of its last capture group.
pub struct RenamingRule {
    pattern: String,
    group: usize,
}

/// The mathematical form of a rule: its pattern, and the index of the
/// capture group that supplies the exposed name.
pub struct Rule {
    pub pattern: Seq<char>,
    pub group: nat,
}

impl Rule {
    /// The name under which the rule exposes `name`, if it exposes it.
    pub open spec fn renamed(self, name: Seq<char>) -> Option<Seq<char>> {
        rule_capture(self.pattern, name, self.group)
    }
}

impl View for RenamingRule {
    type V = Rule;

    closed spec fn view(&self) -> Rule {
        Rule { pattern: self.pattern@, group: self.group as nat }
    }
}

impl RenamingRule {
    /// Accepts `pattern` where it compiles, and designates its last capture
    /// group; the whole match where it has no other.
    pub fn new(pattern: String) -> (rule: Result<RenamingRule, ConfigError>)
        ensures
            match rule {
                Ok(r) => {
                    &&& rule_groups(pattern@) is Some
                    &&& r@.pattern == pattern@
                    &&& r@.group == rule_groups(pattern@).unwrap() - 1
                },
                Err(e) => e == ConfigError::InvalidRenaming && rule_groups(pattern@) is None,
            },
    {
        match count_groups(pattern.as_str()) {
            Ok(n) => Ok(RenamingRule::with_group(pattern, n - 1)),
            Err(_) => Err(ConfigError::InvalidRenaming),
        }
    }

    /// The rule that exposes a directory under what capture group `group` of
    /// `pattern` holds of its name. Where `pattern` does not compile, or has
    /// no such group, the rule exposes nothing.
    pub fn with_group(pattern: String, group: usize) -> (rule: RenamingRule)
        ensures
            rule@ == (Rule { pattern: pattern@, group: group as nat }),
    {
        RenamingRule { pattern, group }
    }

    /// The pattern as it was given.
    pub fn pattern(&self) -> (p: &str)
        ensures
            p@ == self@.pattern,
    {
        self.pattern.as_str()
    }

    /// The name under which the rule exposes `name`, if it exposes it.
    pub fn rename(&self, name: &str) -> (exposed: Option<String>)
        ensures
            exposed.deep_view() == self@.renamed(name@),
    {
        capture(self.pattern.as_str(), name, self.group)
    }
}

} // verus!
