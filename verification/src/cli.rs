//! Decisions of the command line that do not depend on how it is parsed.

use crate::names::str_eq;
use vstd::prelude::*;

verus! {

/// Whether `semver::Version::parse` accepts a text as a version.
pub uninterp spec fn semver_parses(text: Seq<char>) -> bool;

/// `semver::Version::parse`: whether a text is a version.
#[verifier::external_body]
pub(crate) fn parses_as_version(text: &str) -> (r: bool)
    ensures
        r == semver_parses(text@),
{
    semver::Version::parse(text).is_ok()
}

/// Whether an argument stands for a version: `*` stands for any version,
/// every other argument must be a version itself.
pub fn is_version(v: &str) -> (r: bool)
    ensures
        r == (v@ == "*"@ || semver_parses(v@)),
{
    str_eq(v, "*") || parses_as_version(v)
}

/// How much is reported.
#[derive(Clone, Copy, Debug, PartialEq, Eq, Structural)]
pub enum Verbosity {
    Warn,
    Info,
    Debug,
    Trace,
}

/// The level that a number of `-v` flags asks for.
pub fn verbosity_level(flags: usize) -> (r: Verbosity)
    ensures
        r == if flags == 0 {
            Verbosity::Warn
        } else if flags == 1 {
            Verbosity::Info
        } else if flags == 2 {
            Verbosity::Debug
        } else {
            Verbosity::Trace
        },
{
    if flags == 0 {
        Verbosity::Warn
    } else if flags == 1 {
        Verbosity::Info
    } else if flags == 2 {
        Verbosity::Debug
    } else {
        Verbosity::Trace
    }
}

} // verus!
