//! Binaries-only retrieval: the directory of the remote archive is read by
//! ranges, and only the entries under its binaries folder are fetched.

use crate::error::ByondGetError;
use crate::error::PartialFailure;
use crate::os::OsType;
use crate::path::binaries_prefix;
use crate::path::binaries_root;
use crate::plan::plan;
use crate::plan::planned;
use crate::plan::texts;
use crate::plan::views;
use crate::plan::Extraction;
use vstd::prelude::*;

verus! {

/// Binaries-only retrieval, from the outcome of the probe of the archive of
/// `version`.`build` for `os` to the plan of what to fetch.
///
/// `listing` is the outcome of the probe: the names in the archive's
/// directory, or why the directory could not be had. A failed probe is
/// classified, and nothing is planned. Otherwise the plan holds every entry
/// whose name the path policy accepts under `byond/bin/`, in the order of the
/// directory; no other entry is ever asked for.
pub fn download_bin(
    version: u16,
    build: u16,
    os: OsType,
    listing: Result<Vec<String>, PartialFailure>,
) -> (retrieval: Result<Vec<Extraction>, ByondGetError>)
    ensures
        match listing {
            Err(failure) => retrieval matches Err(error) && error == ByondGetError::of_probe(
                failure,
                version,
                build,
                os,
            ),
            Ok(names) => retrieval matches Ok(extractions) && views(extractions@) == planned(
                texts(names@),
                binaries_root(),
            ),
        },
{
    match listing {
        Err(failure) => Err(ByondGetError::from_probe(failure, version, build, os)),
        Ok(names) => Ok(plan(&names, binaries_prefix())),
    }
}

} // verus!
