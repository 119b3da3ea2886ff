//! The ZIP container, as the `zip` crate reads it from memory.
//!
//! Nothing in this file is proved. It declares the outside types that the
//! crate holds, gives names to what the `zip` crate makes of an archive, and
//! wraps the calls into it on which the full retrieval rests.

use std::io::Cursor;
use std::io::Read;
use vstd::prelude::*;
use zip::result::ZipError;
use zip::ZipArchive;

verus! {

/// `zip::ZipArchive`, an archive opened for reading.
#[verifier::external_type_specification]
#[verifier::external_body]
#[verifier::reject_recursive_types(R)]
pub struct ExZipArchive<R>(ZipArchive<R>);

/// `std::io::Cursor`, a reader over bytes held in memory.
#[verifier::external_type_specification]
#[verifier::external_body]
#[verifier::reject_recursive_types(T)]
pub struct ExCursor<T>(Cursor<T>);

/// `zip::result::ZipError`, the failure of a call into the `zip` crate.
#[verifier::external_type_specification]
#[verifier::external_body]
pub struct ExZipError(ZipError);

/// The entries of an archive, in the order of its central directory: of
/// each entry its name, whether it can be opened, and its decompressed
/// content, or `None` for an entry that cannot be read to its end.
pub type Entries = Seq<(Seq<char>, bool, Option<Seq<u8>>)>;

/// The entries that an opened archive holds.
pub uninterp spec fn archive_entries(archive: ZipArchive<Cursor<Vec<u8>>>) -> Entries;

/// What `ZipArchive::new` makes of `bytes`: the entries of the archive that
/// they hold, or `None` where they hold none that the `zip` crate accepts.
pub uninterp spec fn parsed_entries(bytes: Seq<u8>) -> Option<Entries>;

/// `ZipArchive::new` on a `Cursor` over `bytes`. The call reads the central
/// directory from the bytes it is given and from nothing else, so both
/// whether it succeeds and the entries of the archive that it returns are
/// those that `parsed_entries` names for these bytes.
#[verifier::external_body]
pub(crate) fn open_archive(bytes: Vec<u8>) -> (opened: Result<
    ZipArchive<Cursor<Vec<u8>>>,
    ZipError,
>)
    ensures
        opened is Ok <==> parsed_entries(bytes@) is Some,
        opened matches Ok(archive) ==> Some(archive_entries(archive)) == parsed_entries(bytes@),
{
    ZipArchive::new(Cursor::new(bytes))
}

/// `ZipArchive::len`: the number of entries in the central directory.
#[verifier::external_body]
pub(crate) fn archive_len(archive: &ZipArchive<Cursor<Vec<u8>>>) -> (count: usize)
    ensures
        count == archive_entries(*archive).len(),
{
    archive.len()
}

/// `ZipArchive::name_for_index`: the name of the entry at `index` of the
/// central directory, and `None` exactly where the directory has no such
/// entry. The call reads the directory held in memory and cannot fail
/// otherwise.
#[verifier::external_body]
pub(crate) fn entry_name(archive: &ZipArchive<Cursor<Vec<u8>>>, index: usize) -> (name: Option<
    String,
>)
    ensures
        name is Some <==> index < archive_entries(*archive).len(),
        name matches Some(text) ==> text@ == archive_entries(*archive)[index as int].0,
{
    archive.name_for_index(index).map(str::to_owned)
}

/// `ZipArchive::by_index`, with the entry it returns dropped unread: whether
/// the entry at `index` can be opened. The call seeks to the entry from the
/// start of the bytes in memory, so its outcome depends on the archive and
/// the index alone: it succeeds exactly on the entries that `archive_entries`
/// says can be opened. The archive holds the same entries afterwards.
#[verifier::external_body]
pub(crate) fn entry_opens(archive: &mut ZipArchive<Cursor<Vec<u8>>>, index: usize) -> (opened:
    Result<(), ZipError>)
    ensures
        archive_entries(*final(archive)) == archive_entries(*old(archive)),
        opened is Ok <==> index < archive_entries(*old(archive)).len() && archive_entries(
            *old(archive),
        )[index as int].1,
{
    archive.by_index(index)?;
    Ok(())
}

/// `ZipArchive::by_index`, then `Read::read_to_end` on the entry it returns:
/// the decompressed content of the entry at `index`. The outcome depends on
/// the archive and the index alone, as that of opening does: the call
/// succeeds exactly on the entries whose content `archive_entries` names,
/// and returns that content. An entry that is read has been opened. The
/// archive holds the same entries afterwards.
#[verifier::external_body]
pub(crate) fn entry_data(archive: &mut ZipArchive<Cursor<Vec<u8>>>, index: usize) -> (data: Result<
    Vec<u8>,
    ZipError,
>)
    ensures
        archive_entries(*final(archive)) == archive_entries(*old(archive)),
        data is Ok <==> index < archive_entries(*old(archive)).len() && archive_entries(
            *old(archive),
        )[index as int].2 is Some,
        data is Ok ==> archive_entries(*old(archive))[index as int].1,
        data matches Ok(bytes) ==> Some(bytes@) == archive_entries(*old(archive))[index as int].2,
{
    let mut entry = archive.by_index(index)?;
    let mut bytes = Vec::new();
    entry.read_to_end(&mut bytes)?;
    Ok(bytes)
}

} // verus!
