//! The destination tree and the laws of extraction.
//!
//! The files below a destination are modelled as a map from relative paths
//! to contents. A retrieval writes the entries it extracts one after the
//! other, in the order of the archive's directory; a later write to a path
//! replaces an earlier one. The laws proved here say what such a run of
//! writes leaves behind.

use crate::archive::Entries;
use crate::mode::is_executable;
use crate::path::binaries_folder;
use crate::path::binaries_root;
use crate::path::full_root;
use crate::path::is_canonical;
use crate::path::is_clean_char;
use crate::path::is_idle;
use crate::path::is_parent;
use crate::path::lemma_canonical_joined;
use crate::path::lemma_joined_after;
use crate::path::lemma_segments_after;
use crate::path::lemma_segments_some;
use crate::path::normalized;
use crate::path::relative_path;
use crate::path::segments;
use crate::plan::planned;
use vstd::prelude::*;

verus! {

/// The names of `entries`, in order.
pub open spec fn names_of(entries: Entries) -> Seq<Seq<char>> {
    Seq::new(entries.len(), |i: int| entries[i].0)
}

/// The content of the entry at `index`; `None` where there is no such entry
/// or it cannot be read.
pub open spec fn content_at(entries: Entries, index: int) -> Option<Seq<u8>> {
    if 0 <= index < entries.len() {
        entries[index].2
    } else {
        None
    }
}

/// Whether a retrieval with root prefix `root` ends at the entry at `index`,
/// should it come to it: an entry that it extracts, it cannot read; or, for
/// a retrieval that opens `every` entry of the archive in turn, an entry
/// that it passes over, it cannot open.
pub open spec fn halts_at(entries: Entries, root: Seq<char>, every: bool, index: int) -> bool {
    if relative_path(entries[index].0, root) is Some {
        entries[index].2 is None
    } else {
        every && !entries[index].1
    }
}

/// Whether a retrieval with root prefix `root` comes to its end without a
/// failure: it ends at no entry. The full retrieval opens `every` entry; the
/// binaries-only retrieval touches only those that it extracts.
pub open spec fn is_complete(entries: Entries, root: Seq<char>, every: bool) -> bool {
    forall|index: int| 0 <= index < entries.len() ==> !#[trigger] halts_at(entries, root, every, index)
}

/// The files that a retrieval with root prefix `root` writes from an archive
/// that holds `entries`, in the order in which it writes them: of each its
/// path and its content. The retrieval writes nothing from the first entry
/// on at which it ends.
pub open spec fn extracted(entries: Entries, root: Seq<char>, every: bool) -> Seq<
    (Seq<char>, Seq<u8>),
>
    decreases entries.len(),
{
    if entries.len() == 0 {
        Seq::empty()
    } else {
        let earlier = extracted(entries.drop_last(), root, every);
        if is_complete(entries, root, every) {
            match relative_path(entries.last().0, root) {
                Some(path) => earlier.push((path, entries.last().2.unwrap())),
                None => earlier,
            }
        } else {
            earlier
        }
    }
}

/// The tree that writing `files` in order makes of `tree`.
pub open spec fn written(tree: Map<Seq<char>, Seq<u8>>, files: Seq<(Seq<char>, Seq<u8>)>) -> Map<
    Seq<char>,
    Seq<u8>,
>
    decreases files.len(),
{
    if files.len() == 0 {
        tree
    } else {
        written(tree, files.drop_last()).insert(files.last().0, files.last().1)
    }
}

/// The content of the last of `files` that goes to `path`, if any does.
pub open spec fn last_write(files: Seq<(Seq<char>, Seq<u8>)>, path: Seq<char>) -> Option<Seq<u8>>
    decreases files.len(),
{
    if files.len() == 0 {
        None
    } else if files.last().0 == path {
        Some(files.last().1)
    } else {
        last_write(files.drop_last(), path)
    }
}

/// Whether the entry at `index` is the last of `entries` that a retrieval
/// with root prefix `root` extracts to `path`.
pub open spec fn is_last_at(entries: Entries, root: Seq<char>, index: int, path: Seq<char>) -> bool {
    &&& 0 <= index < entries.len()
    &&& relative_path(entries[index].0, root) == Some(path)
    &&& forall|later: int|
        index < later < entries.len() ==> relative_path(#[trigger] entries[later].0, root) != Some(
            path,
        )
}

/// After a run of writes a path holds what the last write to it wrote, and
/// what it held before where nothing was written to it.
pub proof fn lemma_written_at(
    tree: Map<Seq<char>, Seq<u8>>,
    files: Seq<(Seq<char>, Seq<u8>)>,
    path: Seq<char>,
)
    ensures
        match last_write(files, path) {
            Some(content) => written(tree, files).contains_key(path) && written(tree, files)[path]
                == content,
            None => written(tree, files).contains_key(path) == tree.contains_key(path) && written(
                tree,
                files,
            )[path] == tree[path],
        },
    decreases files.len(),
{
    if files.len() > 0 {
        lemma_written_at(tree, files.drop_last(), path);
    }
}

/// A retrieval that is complete on an archive is complete on the archive
/// without its last entry.
pub proof fn lemma_complete_earlier(entries: Entries, root: Seq<char>, every: bool)
    requires
        entries.len() > 0,
        is_complete(entries, root, every),
    ensures
        is_complete(entries.drop_last(), root, every),
{
    let earlier = entries.drop_last();
    assert forall|index: int| 0 <= index < earlier.len() implies !#[trigger] halts_at(
        earlier,
        root,
        every,
        index,
    ) by {
        assert(earlier[index] == entries[index]);
        assert(!halts_at(entries, root, every, index));
    }
}

/// The plan of a retrieval names the files that the retrieval writes: the
/// extraction at each place of the plan names an entry of the archive and
/// the path that the path policy gives it; the file written at that place
/// goes to that path and holds that entry's content; and a retrieval that
/// is complete writes a file for every extraction of its plan.
pub proof fn lemma_plan_extracts(entries: Entries, root: Seq<char>, every: bool)
    ensures
        extracted(entries, root, every).len() <= planned(names_of(entries), root).len(),
        is_complete(entries, root, every) ==> extracted(entries, root, every).len() == planned(
            names_of(entries),
            root,
        ).len(),
        forall|k: int|
            #![trigger planned(names_of(entries), root)[k]]
            0 <= k < planned(names_of(entries), root).len() ==> {
                let extraction = planned(names_of(entries), root)[k];
                &&& 0 <= extraction.index < entries.len()
                &&& extraction.name == entries[extraction.index].0
                &&& relative_path(extraction.name, root) == Some(extraction.path)
                &&& extraction.executable == is_executable(extraction.path)
            },
        forall|k: int|
            #![trigger extracted(entries, root, every)[k]]
            0 <= k < extracted(entries, root, every).len() ==> {
                let extraction = planned(names_of(entries), root)[k];
                &&& extracted(entries, root, every)[k].0 == extraction.path
                &&& content_at(entries, extraction.index) == Some(extracted(entries, root, every)[k].1)
            },
    decreases entries.len(),
{
    if entries.len() > 0 {
        let earlier = entries.drop_last();
        lemma_plan_extracts(earlier, root, every);
        assert(names_of(entries).drop_last() == names_of(earlier));
        let plan = planned(names_of(entries), root);
        let files = extracted(entries, root, every);
        if is_complete(entries, root, every) {
            lemma_complete_earlier(entries, root, every);
            assert(!halts_at(entries, root, every, entries.len() - 1));
        }
        assert forall|k: int| #![trigger files[k]] 0 <= k < files.len() implies {
            &&& files[k].0 == plan[k].path
            &&& content_at(entries, plan[k].index) == Some(files[k].1)
        } by {
            if k < extracted(earlier, root, every).len() {
                assert(files[k] == extracted(earlier, root, every)[k]);
            }
        }
    }
}

/// What a retrieval has written when it has come to the first `to` entries
/// of an archive begins with what it had written when it had come to the
/// first `from`, and so does its plan.
pub proof fn lemma_extracted_grows(
    entries: Entries,
    root: Seq<char>,
    every: bool,
    from: int,
    to: int,
)
    requires
        0 <= from <= to <= entries.len(),
    ensures
        extracted(entries.take(from), root, every).is_prefix_of(
            extracted(entries.take(to), root, every),
        ),
        planned(names_of(entries.take(from)), root).is_prefix_of(
            planned(names_of(entries.take(to)), root),
        ),
    decreases to - from,
{
    if from < to {
        lemma_extracted_grows(entries, root, every, from, to - 1);
        assert(entries.take(to).drop_last() == entries.take(to - 1));
        assert(names_of(entries.take(to)).drop_last() == names_of(entries.take(to - 1)));
        let first = extracted(entries.take(from), root, every);
        let fewer = extracted(entries.take(to - 1), root, every);
        let files = extracted(entries.take(to), root, every);
        assert(fewer.is_prefix_of(files));
        assert(first =~= files.subrange(0, first.len() as int)) by {
            assert forall|i: int| 0 <= i < first.len() implies first[i] == files[i] by {
                assert(first[i] == fewer.subrange(0, first.len() as int)[i]);
                assert(fewer[i] == files.subrange(0, fewer.len() as int)[i]);
            }
        }
        let begun = planned(names_of(entries.take(from)), root);
        let shorter = planned(names_of(entries.take(to - 1)), root);
        let plan = planned(names_of(entries.take(to)), root);
        assert(shorter.is_prefix_of(plan));
        assert(begun =~= plan.subrange(0, begun.len() as int)) by {
            assert forall|i: int| 0 <= i < begun.len() implies begun[i] == plan[i] by {
                assert(begun[i] == shorter.subrange(0, begun.len() as int)[i]);
                assert(shorter[i] == plan.subrange(0, shorter.len() as int)[i]);
            }
        }
    }
}

/// One entry further: a retrieval that has come past the first `at` entries
/// and does not end at the next has come past that one too, and has written
/// its file if it extracts it.
pub proof fn lemma_extracted_step(entries: Entries, root: Seq<char>, every: bool, at: int)
    requires
        0 <= at < entries.len(),
        is_complete(entries.take(at), root, every),
        !halts_at(entries, root, every, at),
    ensures
        is_complete(entries.take(at + 1), root, every),
        extracted(entries.take(at + 1), root, every) == match relative_path(entries[at].0, root) {
            Some(path) => extracted(entries.take(at), root, every).push(
                (path, entries[at].2.unwrap()),
            ),
            None => extracted(entries.take(at), root, every),
        },
{
    let more = entries.take(at + 1);
    assert(more.drop_last() == entries.take(at));
    assert(more.last() == entries[at]);
    assert forall|index: int| 0 <= index < more.len() implies !#[trigger] halts_at(
        more,
        root,
        every,
        index,
    ) by {
        if index < at {
            assert(entries.take(at)[index] == more[index]);
            assert(!halts_at(entries.take(at), root, every, index));
        }
    }
}

/// A retrieval writes nothing from the entry on at which it ends, and is
/// not complete.
pub proof fn lemma_extracted_halts(
    entries: Entries,
    root: Seq<char>,
    every: bool,
    at: int,
    to: int,
)
    requires
        0 <= at < to <= entries.len(),
        halts_at(entries, root, every, at),
    ensures
        extracted(entries.take(to), root, every) == extracted(entries.take(at), root, every),
        !is_complete(entries.take(to), root, every),
    decreases to,
{
    let more = entries.take(to);
    assert(more.drop_last() == entries.take(to - 1));
    assert(more[at] == entries[at]);
    assert(halts_at(more, root, every, at));
    if at < to - 1 {
        lemma_extracted_halts(entries, root, every, at, to - 1);
    }
}

/// What the last write among the files of a complete retrieval wrote to
/// `path` is the content of the last entry that the retrieval extracts to
/// `path`.
pub proof fn lemma_last_extracted(entries: Entries, root: Seq<char>, every: bool, path: Seq<char>)
    requires
        is_complete(entries, root, every),
    ensures
        match last_write(extracted(entries, root, every), path) {
            Some(content) => exists|index: int| #[trigger]
                is_last_at(entries, root, index, path) && entries[index].2 == Some(content),
            None => forall|index: int|
                0 <= index < entries.len() ==> relative_path(#[trigger] entries[index].0, root)
                    != Some(path),
        },
    decreases entries.len(),
{
    if entries.len() > 0 {
        let earlier = entries.drop_last();
        let last = entries.len() - 1;
        lemma_complete_earlier(entries, root, every);
        lemma_last_extracted(earlier, root, every, path);
        assert(!halts_at(entries, root, every, last));
        if relative_path(entries.last().0, root) == Some(path) {
            assert(is_last_at(entries, root, last, path));
        } else {
            match relative_path(entries.last().0, root) {
                Some(_) => {
                    assert(extracted(entries, root, every).drop_last() == extracted(earlier, root, every));
                },
                None => {},
            }
            match last_write(extracted(entries, root, every), path) {
                Some(content) => {
                    let index = choose|index: int| #[trigger]
                        is_last_at(earlier, root, index, path) && earlier[index].2 == Some(
                            content,
                        );
                    assert forall|later: int| index < later < entries.len() implies relative_path(
                        #[trigger] entries[later].0,
                        root,
                    ) != Some(path) by {
                        if later < last {
                            assert(earlier[later] == entries[later]);
                        }
                    }
                    assert(is_last_at(entries, root, index, path));
                },
                None => {
                    assert forall|index: int| 0 <= index < entries.len() implies relative_path(
                        #[trigger] entries[index].0,
                        root,
                    ) != Some(path) by {
                        if index < last {
                            assert(earlier[index] == entries[index]);
                        }
                    }
                },
            }
        }
    }
}

/// Extraction is exact: after a complete retrieval with root prefix `root`
/// into an empty destination, the destination holds a file at `path` exactly
/// if the path policy sends some entry of the archive there, and the file's
/// content is then that of the last such entry.
pub proof fn lemma_extraction_exact(entries: Entries, root: Seq<char>, every: bool, path: Seq<char>)
    requires
        is_complete(entries, root, every),
    ensures
        written(Map::empty(), extracted(entries, root, every)).contains_key(path) <==> exists|index: int|
            0 <= index < entries.len() && relative_path(#[trigger] entries[index].0, root) == Some(
                path,
            ),
        forall|index: int| #[trigger]
            is_last_at(entries, root, index, path) ==> Some(
                written(Map::empty(), extracted(entries, root, every))[path],
            ) == entries[index].2,
{
    let files = extracted(entries, root, every);
    lemma_written_at(Map::empty(), files, path);
    lemma_last_extracted(entries, root, every, path);
    match last_write(files, path) {
        Some(content) => {
            let last = choose|index: int| #[trigger]
                is_last_at(entries, root, index, path) && entries[index].2 == Some(content);
            assert forall|index: int| #[trigger]
                is_last_at(entries, root, index, path) implies index == last by {
                if index < last {
                    assert(relative_path(entries[last].0, root) != Some(path));
                }
                if last < index {
                    assert(relative_path(entries[index].0, root) != Some(path));
                }
            }
        },
        None => {},
    }
}

/// Idempotence: writing the same files a second time leaves the tree that
/// the first run left.
pub proof fn lemma_written_twice(tree: Map<Seq<char>, Seq<u8>>, files: Seq<(Seq<char>, Seq<u8>)>)
    ensures
        written(written(tree, files), files) == written(tree, files),
{
    let once = written(tree, files);
    let twice = written(once, files);
    assert forall|path: Seq<char>| #[trigger]
        twice.contains_key(path) == once.contains_key(path) by {
        lemma_written_at(tree, files, path);
        lemma_written_at(once, files, path);
    }
    assert forall|path: Seq<char>| #[trigger] twice[path] == once[path] by {
        lemma_written_at(tree, files, path);
        lemma_written_at(once, files, path);
    }
    assert(twice =~= once);
}

/// Idempotence of a retrieval: run twice on the same archive and into the
/// same destination, whatever it held, a retrieval leaves the files and
/// contents that one run leaves.
pub proof fn lemma_retrieval_idempotent(
    tree: Map<Seq<char>, Seq<u8>>,
    entries: Entries,
    root: Seq<char>,
    every: bool,
)
    ensures
        written(written(tree, extracted(entries, root, every)), extracted(entries, root, every)) == written(
            tree,
            extracted(entries, root, every),
        ),
{
    lemma_written_twice(tree, extracted(entries, root, every));
}

/// The binaries-only retrieval extracts only what the full retrieval
/// extracts, and to the same place below the binaries folder.
pub proof fn lemma_binaries_in_full(name: Seq<char>, path: Seq<char>)
    requires
        relative_path(name, binaries_root()) == Some(path),
    ensures
        relative_path(name, full_root()) == Some(binaries_folder() + path),
{
    reveal_strlit("bin/");
    reveal_strlit("byond/");
    reveal_strlit("byond/bin/");
    let whole = normalized(name);
    let word = seq!['b', 'i', 'n'];
    let below = whole.skip(10);
    let rest = whole.skip(6);
    assert(binaries_folder() == word.push('/'));
    assert(whole.subrange(0, 10) == binaries_root());
    assert(full_root() =~= whole.subrange(0, 6)) by {
        assert forall|i: int| 0 <= i < 6 implies full_root()[i] == whole.subrange(0, 6)[i] by {
            assert(whole.subrange(0, 10)[i] == binaries_root()[i]);
        }
    }
    assert(rest =~= word.push('/') + below) by {
        assert forall|i: int| 0 <= i < 4 implies rest[i] == word.push('/')[i] by {
            assert(whole.subrange(0, 10)[i + 6] == binaries_root()[i + 6]);
        }
    }
    lemma_segments_after(word, below);
    lemma_segments_some(below);
    lemma_joined_after(word, segments(below));
    let parts = segments(rest);
    assert(parts.first() == word);
    assert(parts.last() == segments(below).last());
    assert forall|i: int| 0 <= i < rest.len() implies is_clean_char(#[trigger] rest[i]) by {
        if i >= 4 {
            assert(rest[i] == below[i - 4]);
        }
    }
    assert forall|k: int| 0 <= k < parts.len() implies !is_parent(#[trigger] parts[k]) by {
        if k >= 1 {
            assert(parts[k] == segments(below)[k - 1]);
        } else {
            assert(parts[0].len() == 3);
        }
    }
}

/// Whether the name of an entry is in canonical form: once its separators
/// are normalised, none of its segments is empty or names the current
/// directory.
pub open spec fn is_canonical_name(name: Seq<char>) -> bool {
    is_canonical(normalized(name))
}

/// Of an entry whose name is in canonical form, the binaries-only retrieval
/// extracts it to `path` exactly if the full retrieval extracts it to `path`
/// below the binaries folder.
pub proof fn lemma_binaries_path(name: Seq<char>, path: Seq<char>)
    requires
        is_canonical_name(name),
    ensures
        relative_path(name, binaries_root()) == Some(path) <==> relative_path(name, full_root())
            == Some(binaries_folder() + path),
{
    if relative_path(name, binaries_root()) == Some(path) {
        lemma_binaries_in_full(name, path);
    }
    if relative_path(name, full_root()) == Some(binaries_folder() + path) {
        reveal_strlit("bin/");
        reveal_strlit("byond/");
        reveal_strlit("byond/bin/");
        let whole = normalized(name);
        let root = seq!['b', 'y', 'o', 'n', 'd'];
        let word = seq!['b', 'i', 'n'];
        let rest = whole.skip(6);
        assert(binaries_folder() == word.push('/'));
        assert(whole.subrange(0, 6) == full_root());
        assert(whole =~= root.push('/') + rest) by {
            assert forall|i: int| 0 <= i < 6 implies whole[i] == root.push('/')[i] by {
                assert(whole.subrange(0, 6)[i] == full_root()[i]);
            }
        }
        lemma_segments_after(root, rest);
        assert(is_canonical(rest)) by {
            assert forall|k: int| 0 <= k < segments(rest).len() implies !is_idle(
                #[trigger] segments(rest)[k],
            ) by {
                assert(segments(whole)[k + 1] == segments(rest)[k]);
            }
        }
        lemma_canonical_joined(rest);
        assert(rest == word.push('/') + path);
        lemma_segments_after(word, path);
        assert(is_canonical(path)) by {
            assert forall|k: int| 0 <= k < segments(path).len() implies !is_idle(
                #[trigger] segments(path)[k],
            ) by {
                assert(segments(rest)[k + 1] == segments(path)[k]);
            }
        }
        lemma_canonical_joined(path);
        lemma_segments_some(path);
        assert(binaries_root() =~= whole.subrange(0, 10)) by {
            assert forall|i: int| 0 <= i < 10 implies binaries_root()[i] == whole.subrange(
                0,
                10,
            )[i] by {
                if i < 6 {
                    assert(whole.subrange(0, 6)[i] == full_root()[i]);
                } else {
                    assert(rest[i - 6] == (word.push('/') + path)[i - 6]);
                }
            }
        }
        let below = whole.skip(10);
        assert(below =~= path) by {
            assert forall|i: int| 0 <= i < path.len() implies below[i] == path[i] by {
                assert(rest[i + 4] == (word.push('/') + path)[i + 4]);
            }
        }
        let parts = segments(path);
        assert(!is_idle(parts[0]) && !is_idle(parts[parts.len() - 1]));
        assert forall|i: int| 0 <= i < path.len() implies is_clean_char(#[trigger] path[i]) by {
            assert(rest[i + 4] == path[i]);
        }
        assert forall|k: int| 0 <= k < parts.len() implies !is_parent(#[trigger] parts[k]) by {
            assert(segments(rest)[k + 1] == parts[k]);
        }
    }
}

/// Where the full retrieval is complete, so is the binaries-only retrieval:
/// it extracts no entry that the full retrieval does not.
pub proof fn lemma_binaries_complete(entries: Entries)
    requires
        is_complete(entries, full_root(), true),
    ensures
        is_complete(entries, binaries_root(), false),
{
    assert forall|index: int| 0 <= index < entries.len() implies !#[trigger] halts_at(
        entries,
        binaries_root(),
        false,
        index,
    ) by {
        assert(!halts_at(entries, full_root(), true, index));
        if relative_path(entries[index].0, binaries_root()) is Some {
            let path = relative_path(entries[index].0, binaries_root()).unwrap();
            lemma_binaries_in_full(entries[index].0, path);
        }
    }
}

/// Whether the names of all of `entries` are in canonical form.
pub open spec fn has_canonical_names(entries: Entries) -> bool {
    forall|index: int| 0 <= index < entries.len() ==> is_canonical_name(#[trigger] entries[index].0)
}

/// What the binaries-only retrieval last writes to `path` is what the full
/// retrieval last writes to `path` below the binaries folder.
pub proof fn lemma_last_binaries(entries: Entries, path: Seq<char>)
    requires
        is_complete(entries, full_root(), true),
        has_canonical_names(entries),
    ensures
        last_write(extracted(entries, binaries_root(), false), path) == last_write(
            extracted(entries, full_root(), true),
            binaries_folder() + path,
        ),
    decreases entries.len(),
{
    if entries.len() > 0 {
        let earlier = entries.drop_last();
        lemma_complete_earlier(entries, full_root(), true);
        lemma_binaries_complete(entries);
        assert(has_canonical_names(earlier)) by {
            assert forall|index: int| 0 <= index < earlier.len() implies is_canonical_name(
                #[trigger] earlier[index].0,
            ) by {
                assert(earlier[index] == entries[index]);
            }
        }
        lemma_last_binaries(earlier, path);
        assert(is_canonical_name(entries[entries.len() - 1].0));
        lemma_binaries_path(entries.last().0, path);
        match relative_path(entries.last().0, binaries_root()) {
            Some(_) => {
                assert(extracted(entries, binaries_root(), false).drop_last() == extracted(earlier, binaries_root(), false));
            },
            None => {},
        }
        match relative_path(entries.last().0, full_root()) {
            Some(_) => {
                assert(extracted(entries, full_root(), true).drop_last() == extracted(earlier, full_root(), true));
            },
            None => {},
        }
    }
}

/// The binaries are the full output below `bin/`: where the names in an
/// archive are in canonical form and its full retrieval is complete, the
/// binaries-only retrieval of the same archive, into an empty destination,
/// leaves a file at `path` exactly if the full retrieval leaves one at `path`
/// below the binaries folder, and the two files have the same content.
pub proof fn lemma_binaries_within_full(entries: Entries, path: Seq<char>)
    requires
        is_complete(entries, full_root(), true),
        has_canonical_names(entries),
    ensures
        written(Map::empty(), extracted(entries, binaries_root(), false)).contains_key(path) <==> written(
            Map::empty(),
            extracted(entries, full_root(), true),
        ).contains_key(binaries_folder() + path),
        written(Map::empty(), extracted(entries, binaries_root(), false)).contains_key(path) ==> written(
            Map::empty(),
            extracted(entries, binaries_root(), false),
        )[path] == written(Map::empty(), extracted(entries, full_root(), true))[binaries_folder() + path],
{
    lemma_last_binaries(entries, path);
    lemma_written_at(Map::empty(), extracted(entries, binaries_root(), false), path);
    lemma_written_at(Map::empty(), extracted(entries, full_root(), true), binaries_folder() + path);
}

} // verus!
