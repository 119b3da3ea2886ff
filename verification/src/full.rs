//! Full retrieval: the whole archive is fetched, and every file under its
//! top-level folder is extracted.

use crate::archive::archive_entries;
use crate::archive::archive_len;
use crate::archive::entry_data;
use crate::archive::entry_name;
use crate::archive::entry_opens;
use crate::archive::open_archive;
use crate::archive::parsed_entries;
use crate::archive::Entries;
use crate::error::ByondGetError;
use crate::error::TransferFailure;
use crate::mode::executable;
use crate::os::OsType;
use crate::path::full_prefix;
use crate::path::full_root;
use crate::path::strip_root;
use crate::plan::plan;
use crate::plan::planned;
use crate::plan::texts;
use crate::plan::views;
use crate::plan::Extraction;
use crate::text::chars_of;
use crate::tree::content_at;
use crate::tree::extracted;
use crate::tree::halts_at;
use crate::tree::is_complete;
use crate::tree::lemma_extracted_grows;
use crate::tree::lemma_extracted_halts;
use crate::tree::lemma_extracted_step;
use crate::tree::lemma_plan_extracts;
use crate::tree::names_of;
use std::io::Cursor;
use vstd::pervasive::unreached;
use vstd::prelude::*;
use zip::ZipArchive;

verus! {

/// A fetched archive under extraction: the archive, the plan of its full
/// retrieval, how far into the archive's directory the extraction has
/// come, and how many files it has handed out.
#[derive(Debug)]
pub struct FullArchive {
    archive: ZipArchive<Cursor<Vec<u8>>>,
    plan: Vec<Extraction>,
    cursor: usize,
    next: usize,
}

impl FullArchive {
    /// Whether the value is sound: the plan is that of the archive's
    /// entries, the extraction has ended at none of the entries that it has
    /// come past, and it has handed out their files. Every value that this
    /// module hands out is.
    pub closed spec fn wf(&self) -> bool {
        let entries = archive_entries(self.archive);
        &&& views(self.plan@) == planned(names_of(entries), full_root())
        &&& self.cursor <= entries.len()
        &&& is_complete(entries.take(self.cursor as int), full_root(), true)
        &&& self.next == extracted(entries.take(self.cursor as int), full_root(), true).len()
    }

    /// The entries of the archive, in the order of its central directory.
    pub closed spec fn entries(&self) -> Entries {
        archive_entries(self.archive)
    }

    /// The number of files extracted so far.
    pub closed spec fn position(&self) -> nat {
        self.next as nat
    }

    /// The names of the archive's entries, in order.
    pub open spec fn names(&self) -> Seq<Seq<char>> {
        names_of(self.entries())
    }

    /// The files that the full retrieval writes, in order: of each its path
    /// and its content. The full retrieval opens every entry of the archive
    /// in turn, and ends at the first that it cannot open, or extracts and
    /// cannot read.
    pub open spec fn files(&self) -> Seq<(Seq<char>, Seq<u8>)> {
        extracted(self.entries(), full_root(), true)
    }

    /// The number of entries in the archive.
    pub fn len(&self) -> (count: usize)
        ensures
            count == self.entries().len(),
    {
        archive_len(&self.archive)
    }

    /// The plan of the full retrieval: every entry whose name the path
    /// policy accepts under `byond/`, in the order of the directory.
    pub fn plan(&self) -> (extractions: &Vec<Extraction>)
        requires
            self.wf(),
        ensures
            views(extractions@) == planned(self.names(), full_root()),
    {
        &self.plan
    }

    /// Reads the content of the entry at `index`, decompressed. The archive
    /// is left as it was. An entry that is not there, or cannot be read,
    /// makes the archive malformed.
    pub fn read(&mut self, index: usize) -> (content: Result<Vec<u8>, ByondGetError>)
        requires
            old(self).wf(),
        ensures
            final(self).wf(),
            final(self).entries() == old(self).entries(),
            final(self).position() == old(self).position(),
            match content_at(old(self).entries(), index as int) {
                Some(expected) => content matches Ok(bytes) && bytes@ == expected,
                None => content matches Err(ByondGetError::MalformedArchive(_)),
            },
    {
        match entry_data(&mut self.archive, index) {
            Ok(bytes) => Ok(bytes),
            Err(error) => Err(ByondGetError::MalformedArchive(error.to_string())),
        }
    }

    /// Extracts the next file of the retrieval: the extraction that says
    /// where it goes, and its content. `None` says that the retrieval is
    /// complete.
    ///
    /// The entries of the archive are opened in the order of its directory,
    /// those that are passed over too. An entry that cannot be opened, or is
    /// extracted and cannot be read, ends the retrieval: the files before it
    /// have been handed out, and no file after it ever is.
    pub fn next_file(&mut self) -> (step: Result<Option<(Extraction, Vec<u8>)>, ByondGetError>)
        requires
            old(self).wf(),
        ensures
            final(self).wf(),
            final(self).entries() == old(self).entries(),
            old(self).position() <= old(self).files().len(),
            match step {
                Ok(Some((extraction, content))) => {
                    &&& old(self).position() < old(self).files().len()
                    &&& final(self).position() == old(self).position() + 1
                    &&& extraction@ == planned(old(self).names(), full_root())[old(
                        self,
                    ).position() as int]
                    &&& (extraction.path@, content@) == old(self).files()[old(
                        self,
                    ).position() as int]
                },
                Ok(None) => {
                    &&& old(self).position() == old(self).files().len()
                    &&& final(self).position() == old(self).position()
                    &&& is_complete(old(self).entries(), full_root(), true)
                },
                Err(error) => {
                    &&& old(self).position() == old(self).files().len()
                    &&& final(self).position() == old(self).position()
                    &&& !is_complete(old(self).entries(), full_root(), true)
                    &&& error is MalformedArchive
                },
            },
    {
        let ghost entries = self.entries();
        let ghost files = self.files();
        let count = archive_len(&self.archive);
        while self.cursor < count
            invariant
                self.wf(),
                self.entries() == entries,
                entries == old(self).entries(),
                files == extracted(entries, full_root(), true),
                count == entries.len(),
                self.next == old(self).next,
            decreases count - self.cursor,
        {
            let at = self.cursor;
            let name = match entry_name(&self.archive, at) {
                Some(name) => name,
                None => unreached(),
            };
            proof {
                assert(entries.take(count as int) == entries);
                lemma_extracted_grows(entries, full_root(), true, at as int, count as int);
                lemma_extracted_grows(entries, full_root(), true, at + 1, count as int);
                if halts_at(entries, full_root(), true, at as int) {
                    lemma_extracted_halts(entries, full_root(), true, at as int, count as int);
                } else {
                    lemma_extracted_step(entries, full_root(), true, at as int);
                }
            }
            match strip_root(name.as_str(), full_prefix()) {
                Some(path) => {
                    match entry_data(&mut self.archive, at) {
                        Ok(content) => {
                            let marked = executable(&chars_of(path.as_str()));
                            let extraction = Extraction {
                                index: at,
                                name,
                                path,
                                executable: marked,
                            };
                            proof {
                                let fewer = extracted(entries.take(at as int), full_root(), true);
                                let more = extracted(entries.take(at + 1), full_root(), true);
                                assert(more == fewer.push((extraction.path@, content@)));
                                assert(files[self.next as int] == more.subrange(
                                    0,
                                    more.len() as int,
                                )[self.next as int]);
                                let shorter = planned(
                                    names_of(entries.take(at as int)),
                                    full_root(),
                                );
                                let longer = planned(names_of(entries.take(at + 1)), full_root());
                                lemma_plan_extracts(entries.take(at as int), full_root(), true);
                                assert(names_of(entries.take(at + 1)).drop_last() == names_of(
                                    entries.take(at as int),
                                ));
                                assert(longer == shorter.push(extraction@));
                                assert(self.next + 1 == longer.len() <= self.plan.len());
                                assert(planned(names_of(entries), full_root())[self.next as int]
                                    == longer.subrange(0, longer.len() as int)[self.next as int]);
                            }
                            self.cursor = at + 1;
                            self.next = self.next + 1;
                            return Ok(Some((extraction, content)));
                        },
                        Err(error) => {
                            return Err(ByondGetError::MalformedArchive(error.to_string()));
                        },
                    }
                },
                None => {
                    match entry_opens(&mut self.archive, at) {
                        Ok(()) => {
                            self.cursor = at + 1;
                        },
                        Err(error) => {
                            return Err(ByondGetError::MalformedArchive(error.to_string()));
                        },
                    }
                },
            }
        }
        proof {
            assert(entries.take(count as int) == entries);
        }
        Ok(None)
    }
}

/// Full retrieval, from the answer to the request for the archive of
/// `version`.`build` for `os` to the archive ready for extraction.
///
/// A failed request is classified first: an error status from the server
/// means that the build does not exist. A body that is no ZIP archive is a
/// malformed archive. Nothing is planned, and so nothing written, unless the
/// archive opens.
pub fn download_full(
    version: u16,
    build: u16,
    os: OsType,
    response: Result<Vec<u8>, TransferFailure>,
) -> (retrieval: Result<FullArchive, ByondGetError>)
    ensures
        match response {
            Err(failure) => retrieval matches Err(error) && error == ByondGetError::of_transfer(
                failure,
                version,
                build,
                os,
            ),
            Ok(body) => match parsed_entries(body@) {
                Some(entries) => retrieval matches Ok(archive) && archive.wf()
                    && archive.entries() == entries && archive.position() == 0,
                None => retrieval matches Err(ByondGetError::MalformedArchive(_)),
            },
        },
{
    let body = match response {
        Ok(body) => body,
        Err(failure) => {
            return Err(ByondGetError::from_transfer(failure, version, build, os));
        },
    };
    let archive = match open_archive(body) {
        Ok(archive) => archive,
        Err(error) => {
            return Err(ByondGetError::MalformedArchive(error.to_string()));
        },
    };
    let count = archive_len(&archive);
    let mut names: Vec<String> = Vec::new();
    let mut i: usize = 0;
    while i < count
        invariant
            i <= count == archive_entries(archive).len(),
            names.len() == i,
            forall|j: int| 0 <= j < i ==> names@[j]@ == archive_entries(archive)[j].0,
        decreases count - i,
    {
        match entry_name(&archive, i) {
            Some(name) => names.push(name),
            None => unreached(),
        }
        i += 1;
    }
    assert(texts(names@) =~= names_of(archive_entries(archive)));
    let plan = plan(&names, full_prefix());
    assert(archive_entries(archive).take(0) =~= Seq::empty());
    Ok(FullArchive { archive, plan, cursor: 0, next: 0 })
}

} // verus!
