//! Retrieval of BYOND builds: where a build is found, what a retrieval
//! extracts from its archive and where to, and how failures are told apart.
//!
//! The crate decides; it moves no bytes over the network and touches no
//! file. A caller fetches, hands the outcome to [`download_full`] or
//! [`download_bin`], and writes what the plan it gets back names.

pub mod archive;
pub mod error;
pub mod full;
pub mod mode;
pub mod os;
pub mod partial;
pub mod path;
pub mod plan;
pub mod text;
pub mod tree;
pub mod version;

pub use error::ByondGetError;
pub use error::PartialFailure;
pub use error::TransferFailure;
pub use full::download_full;
pub use full::FullArchive;
pub use os::OsType;
pub use partial::download_bin;
pub use plan::Extraction;
pub use version::Version;
pub use version::VersionError;
