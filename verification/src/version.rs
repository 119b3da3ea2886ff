//! The number of a BYOND build, and how it is written: the major version, a
//! dot, and the build number, as in `516.1657`.

use crate::text::chars_of;
use crate::text::decimal;
use crate::text::is_digit;
use crate::text::lemma_decimal;
use crate::text::lemma_decimal_reads_back;
use crate::text::parse_u16;
use crate::text::push_decimal;
use crate::text::read_u16;
use crate::text::text_of;
use crate::text::trim_bounds;
use crate::text::trimmed;
use vstd::prelude::*;
use vstd::string::StringExecFns;

verus! {

/// The number of a build.
#[derive(Debug, Copy, Clone, PartialEq, Eq, Structural)]
pub struct Version {
    pub version: u16,
    pub build: u16,
}

/// Why a text is not the number of a build.
#[derive(Debug, Clone, PartialEq, Eq)]
pub enum VersionError {
    /// The text, here as it was given, holds no dot.
    Format(String),
    /// What stands before the first dot, held here, is no 16-bit number.
    InvalidVersion(String),
    /// What stands after the first dot, held here, is no 16-bit number.
    InvalidBuild(String),
}

/// Whether the first dot of `s` is at `at`.
pub open spec fn is_first_dot(s: Seq<char>, at: int) -> bool {
    &&& 0 <= at < s.len()
    &&& s[at] == '.'
    &&& forall|i: int| 0 <= i < at ==> s[i] != '.'
}

/// What stands before and after the first dot of `text`, once `text` is
/// trimmed; `None` where it holds no dot.
pub open spec fn fields(text: Seq<char>) -> Option<(Seq<char>, Seq<char>)> {
    let s = trimmed(text);
    if exists|at: int| is_first_dot(s, at) {
        let at = choose|at: int| is_first_dot(s, at);
        Some((s.take(at), s.skip(at + 1)))
    } else {
        None
    }
}

impl Version {
    /// The build number that `text` is: two 16-bit numbers with a dot
    /// between them, and white space around them ignored.
    pub open spec fn named_by(text: Seq<char>) -> Option<Version> {
        match fields(text) {
            Some((version, build)) => match (parse_u16(version), parse_u16(build)) {
                (Some(version), Some(build)) => Some(Version { version, build }),
                _ => None,
            },
            None => None,
        }
    }

    /// How the build number is written.
    pub open spec fn written(self) -> Seq<char> {
        decimal(self.version as nat) + "."@ + decimal(self.build as nat)
    }

    /// Reads a build number. The major version is looked at before the
    /// build number, and each error holds the text that was at fault.
    pub fn from_str(text: &str) -> (parsed: Result<Version, VersionError>)
        ensures
            match parsed {
                Ok(version) => Version::named_by(text@) == Some(version),
                Err(VersionError::Format(given)) => fields(text@) is None && given@ == text@,
                Err(VersionError::InvalidVersion(part)) => fields(text@) matches Some(
                    (version, build),
                ) && parse_u16(version) is None && part@ == version,
                Err(VersionError::InvalidBuild(part)) => fields(text@) matches Some(
                    (version, build),
                ) && parse_u16(version) is Some && parse_u16(build) is None && part@ == build,
            },
    {
        let chars = chars_of(text);
        let (from, to) = trim_bounds(&chars);
        let ghost s = trimmed(text@);
        let mut dot: usize = from;
        while dot < to && chars[dot] != '.'
            invariant
                from <= dot <= to <= chars.len(),
                s == chars@.subrange(from as int, to as int),
                forall|i: int| 0 <= i < dot - from ==> s[i] != '.',
            decreases to - dot,
        {
            dot += 1;
        }
        if dot == to {
            return Err(VersionError::Format(String::from_str(text)));
        }
        let ghost at = dot - from;
        assert(is_first_dot(s, at));
        assert forall|other: int| is_first_dot(s, other) implies other == at by {}
        assert(chars@.subrange(from as int, dot as int) == s.take(at));
        assert(chars@.subrange(dot + 1, to as int) == s.skip(at + 1));
        let version = match read_u16(&chars, from, dot) {
            Some(version) => version,
            None => {
                return Err(VersionError::InvalidVersion(text_of(&chars, from, dot)));
            },
        };
        let build = match read_u16(&chars, dot + 1, to) {
            Some(build) => build,
            None => {
                return Err(VersionError::InvalidBuild(text_of(&chars, dot + 1, to)));
            },
        };
        Ok(Version { version, build })
    }

    /// Writes the build number: the major version, a dot, the build number.
    pub fn text(&self) -> (text: String)
        ensures
            text@ == self.written(),
    {
        let mut text = String::new();
        push_decimal(&mut text, self.version);
        text.append(".");
        push_decimal(&mut text, self.build);
        text
    }
}

/// A build number is read back from the way it is written.
pub proof fn lemma_written_reads_back(version: Version)
    ensures
        Version::named_by(version.written()) == Some(version),
{
    reveal_strlit(".");
    let major = decimal(version.version as nat);
    let minor = decimal(version.build as nat);
    let text = version.written();
    let at = major.len() as int;
    lemma_decimal(version.version as nat);
    lemma_decimal(version.build as nat);
    lemma_decimal_reads_back(version.version);
    lemma_decimal_reads_back(version.build);
    assert(is_first_dot(text, at)) by {
        assert forall|i: int| 0 <= i < at implies text[i] != '.' by {
            assert(is_digit(major[i]));
        }
    }
    let chosen = choose|at: int| is_first_dot(text, at);
    assert(chosen == at);
    assert(text.take(at) == major);
    assert(text.skip(at + 1) == minor);
}

impl std::str::FromStr for Version {
    type Err = VersionError;

    fn from_str(text: &str) -> (parsed: Result<Self, Self::Err>)
        ensures
            match parsed {
                Ok(version) => Version::named_by(text@) == Some(version),
                Err(VersionError::Format(given)) => fields(text@) is None && given@ == text@,
                Err(VersionError::InvalidVersion(part)) => fields(text@) matches Some(
                    (version, build),
                ) && parse_u16(version) is None && part@ == version,
                Err(VersionError::InvalidBuild(part)) => fields(text@) matches Some(
                    (version, build),
                ) && parse_u16(version) is Some && parse_u16(build) is None && part@ == build,
            },
    {
        Version::from_str(text)
    }
}

} // verus!
