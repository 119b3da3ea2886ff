//! The platforms that BYOND builds are published for, and where each build
//! is found.

use crate::error::ByondGetError;
use crate::text::chars_of;
use crate::text::decimal;
use crate::text::eq_ignore_ascii_case;
use crate::text::matches_ignore_ascii_case;
use crate::text::push_decimal;
use crate::text::text_of;
use crate::text::trim_bounds;
use crate::text::trimmed;
use vstd::prelude::*;
use vstd::string::StringExecFns;

verus! {

/// A platform for which BYOND publishes builds.
#[derive(Debug, Copy, Clone, PartialEq, Eq, Structural)]
pub enum OsType {
    Windows,
    Linux,
}

impl OsType {
    /// The lower-case name of the platform.
    pub open spec fn name(self) -> Seq<char> {
        match self {
            OsType::Windows => "windows"@,
            OsType::Linux => "linux"@,
        }
    }

    /// What follows the build number in the file name of the platform's
    /// archives.
    pub open spec fn archive_suffix(self) -> Seq<char> {
        match self {
            OsType::Windows => "_byond.zip"@,
            OsType::Linux => "_byond_linux.zip"@,
        }
    }

    /// The address of the archive that holds build `build` of major version
    /// `version` for this platform.
    pub open spec fn url_of(self, version: u16, build: u16) -> Seq<char> {
        "https://www.byond.com/download/build/"@ + decimal(version as nat) + "/"@ + decimal(
            version as nat,
        ) + "."@ + decimal(build as nat) + self.archive_suffix()
    }

    /// The platform that `text` names: `linux`, or one of `windows`, `win`
    /// and `win32`, in any case, with white space around it ignored.
    pub open spec fn named_by(text: Seq<char>) -> Option<OsType> {
        let word = trimmed(text);
        if eq_ignore_ascii_case(word, "linux"@) {
            Some(OsType::Linux)
        } else if eq_ignore_ascii_case(word, "windows"@) || eq_ignore_ascii_case(word, "win"@)
            || eq_ignore_ascii_case(word, "win32"@) {
            Some(OsType::Windows)
        } else {
            None
        }
    }

    /// The lower-case name of the platform.
    pub fn as_str(&self) -> (name: &'static str)
        ensures
            name@ == self.name(),
    {
        match self {
            OsType::Windows => "windows",
            OsType::Linux => "linux",
        }
    }

    /// The address of the archive that holds build `build` of major version
    /// `version` for this platform.
    pub fn url(&self, version: u16, build: u16) -> (url: String)
        ensures
            url@ == self.url_of(version, build),
    {
        let mut url = String::from_str("https://www.byond.com/download/build/");
        push_decimal(&mut url, version);
        url.append("/");
        push_decimal(&mut url, version);
        url.append(".");
        push_decimal(&mut url, build);
        match self {
            OsType::Windows => url.append("_byond.zip"),
            OsType::Linux => url.append("_byond_linux.zip"),
        }
        url
    }

    /// Reads the name of a platform. A text that names none is handed back,
    /// trimmed, in `BadOs`.
    pub fn from_str(text: &str) -> (parsed: Result<OsType, ByondGetError>)
        ensures
            match OsType::named_by(text@) {
                Some(os) => parsed == Ok::<OsType, ByondGetError>(os),
                None => parsed matches Err(ByondGetError::BadOs(word)) && word@ == trimmed(text@),
            },
    {
        let chars = chars_of(text);
        let (from, to) = trim_bounds(&chars);
        if matches_ignore_ascii_case(&chars, from, to, "linux") {
            Ok(OsType::Linux)
        } else if matches_ignore_ascii_case(&chars, from, to, "windows")
            || matches_ignore_ascii_case(&chars, from, to, "win") || matches_ignore_ascii_case(
            &chars,
            from,
            to,
            "win32",
        ) {
            Ok(OsType::Windows)
        } else {
            Err(ByondGetError::BadOs(text_of(&chars, from, to)))
        }
    }
}

/// A platform is read back from its name.
pub proof fn lemma_name_reads_back(os: OsType)
    ensures
        OsType::named_by(os.name()) == Some(os),
{
    reveal_strlit("linux");
    reveal_strlit("windows");
}

impl AsRef<str> for OsType {
    fn as_ref(&self) -> (name: &str)
        ensures name@ == self.name(),
    {
        self.as_str()
    }
}
impl std::str::FromStr for OsType {
    type Err = ByondGetError;
    fn from_str(text: &str) -> (parsed: Result<Self, Self::Err>)
        ensures
            match OsType::named_by(text@) {
                Some(os) => parsed == Ok::<OsType, ByondGetError>(os),
                None => parsed matches Err(ByondGetError::BadOs(word)) && word@ == trimmed(text@),
            },
    {
        OsType::from_str(text)
    }
}

} // verus!
