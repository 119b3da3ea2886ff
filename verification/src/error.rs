//! What can go wrong with a retrieval, and how the failures that the
//! transport and the archive layer report are told apart.

use crate::os::OsType;
use crate::text::decimal;
use crate::text::push_decimal;
use vstd::pervasive::unreached;
use vstd::prelude::*;
use vstd::string::StringExecFns;

verus! {

/// The failure of a retrieval.
#[derive(Debug, Clone, PartialEq, Eq)]
pub enum ByondGetError {
    /// The requested build does not exist upstream.
    BadVersion { version: u16, build: u16, os: OsType },
    /// A text that names no platform.
    BadOs(String),
    /// The transport failed for a reason that says nothing about the build.
    Network(String),
    /// What was fetched is no valid archive, or one of its entries is broken.
    MalformedArchive(String),
    /// The local file system failed.
    Io(String),
}

/// A transfer that the HTTP client gave up.
#[derive(Debug, Clone, PartialEq, Eq)]
pub struct TransferFailure {
    /// Whether the server answered, with an error status.
    pub http_status: bool,
    /// The client's description of the failure.
    pub message: String,
}

/// A failure of the range-addressed reader.
#[derive(Debug, Clone, PartialEq, Eq)]
pub enum PartialFailure {
    /// The address does not name a resource that can be read by ranges.
    InvalidUrl,
    /// A transfer failed.
    Transfer(TransferFailure),
    /// Reading or writing locally failed.
    Io(String),
    /// The archive, or the entry asked for, cannot be read.
    Archive(String),
}

impl ByondGetError {
    /// The failure of a retrieval of `version`.`build` for `os` whose primary
    /// request failed with `failure`. An error status from the server means
    /// that the build does not exist; this is looked at before anything else.
    pub open spec fn of_transfer(
        failure: TransferFailure,
        version: u16,
        build: u16,
        os: OsType,
    ) -> ByondGetError {
        if failure.http_status {
            ByondGetError::BadVersion { version, build, os }
        } else {
            ByondGetError::Network(failure.message)
        }
    }

    /// The failure of a retrieval of `version`.`build` for `os` whose probe
    /// of the remote archive failed with `failure`.
    pub open spec fn of_probe(
        failure: PartialFailure,
        version: u16,
        build: u16,
        os: OsType,
    ) -> ByondGetError {
        match failure {
            PartialFailure::InvalidUrl => ByondGetError::BadVersion { version, build, os },
            PartialFailure::Transfer(transfer) => ByondGetError::of_transfer(
                transfer,
                version,
                build,
                os,
            ),
            PartialFailure::Io(message) => ByondGetError::Io(message),
            PartialFailure::Archive(message) => ByondGetError::MalformedArchive(message),
        }
    }

    /// The failure of a retrieval that failed with `failure` while it fetched
    /// an entry, after the probe had succeeded.
    pub open spec fn of_partial(failure: PartialFailure) -> ByondGetError
        recommends
            !(failure is InvalidUrl),
    {
        match failure {
            PartialFailure::Transfer(transfer) => ByondGetError::Network(transfer.message),
            PartialFailure::Io(message) => ByondGetError::Io(message),
            PartialFailure::Archive(message) => ByondGetError::MalformedArchive(message),
            PartialFailure::InvalidUrl => arbitrary(),
        }
    }

    /// The failure in words.
    pub open spec fn described(self) -> Seq<char> {
        match self {
            ByondGetError::BadVersion { version, build, os } => "Invalid BYOND version: "@
                + decimal(version as nat) + "."@ + decimal(build as nat) + " ("@ + os.name() + ")"@,
            ByondGetError::BadOs(text) => "Attempted to convert parse OS string \""@ + text@
                + "\""@,
            ByondGetError::Network(cause) => "CURL Error: "@ + cause@,
            ByondGetError::MalformedArchive(cause) => "Error extracting BYOND zip: "@ + cause@,
            ByondGetError::Io(cause) => "I/O error: "@ + cause@,
        }
    }

    /// The failure in words, for a person to read.
    pub fn message(&self) -> (text: String)
        ensures
            text@ == self.described(),
    {
        match self {
            ByondGetError::BadVersion { version, build, os } => {
                let mut text = String::from_str("Invalid BYOND version: ");
                push_decimal(&mut text, *version);
                text.append(".");
                push_decimal(&mut text, *build);
                text.append(" (");
                text.append(os.as_str());
                text.append(")");
                text
            },
            ByondGetError::BadOs(given) => {
                let mut text = String::from_str("Attempted to convert parse OS string \"");
                text.append(given.as_str());
                text.append("\"");
                text
            },
            ByondGetError::Network(cause) => {
                let mut text = String::from_str("CURL Error: ");
                text.append(cause.as_str());
                text
            },
            ByondGetError::MalformedArchive(cause) => {
                let mut text = String::from_str("Error extracting BYOND zip: ");
                text.append(cause.as_str());
                text
            },
            ByondGetError::Io(cause) => {
                let mut text = String::from_str("I/O error: ");
                text.append(cause.as_str());
                text
            },
        }
    }

    /// Classifies the failure of the primary request of a retrieval.
    pub fn from_transfer(failure: TransferFailure, version: u16, build: u16, os: OsType) -> (error:
        ByondGetError)
        ensures
            error == ByondGetError::of_transfer(failure, version, build, os),
    {
        if failure.http_status {
            ByondGetError::BadVersion { version, build, os }
        } else {
            ByondGetError::Network(failure.message)
        }
    }

    /// Classifies the failure of the probe of a remote archive.
    pub fn from_probe(failure: PartialFailure, version: u16, build: u16, os: OsType) -> (error:
        ByondGetError)
        ensures
            error == ByondGetError::of_probe(failure, version, build, os),
    {
        match failure {
            PartialFailure::InvalidUrl => ByondGetError::BadVersion { version, build, os },
            PartialFailure::Transfer(transfer) => ByondGetError::from_transfer(
                transfer,
                version,
                build,
                os,
            ),
            PartialFailure::Io(message) => ByondGetError::Io(message),
            PartialFailure::Archive(message) => ByondGetError::MalformedArchive(message),
        }
    }

    /// Classifies a failure to fetch one entry of a remote archive. The probe
    /// has succeeded by then, so the address is known to be valid.
    pub fn from_partial(failure: PartialFailure) -> (error: ByondGetError)
        requires
            !(failure is InvalidUrl),
        ensures
            error == ByondGetError::of_partial(failure),
    {
        match failure {
            PartialFailure::Transfer(transfer) => ByondGetError::Network(transfer.message),
            PartialFailure::Io(message) => ByondGetError::Io(message),
            PartialFailure::Archive(message) => ByondGetError::MalformedArchive(message),
            PartialFailure::InvalidUrl => unreached(),
        }
    }
}

} // verus!
