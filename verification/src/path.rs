//! Path policy: which names inside an archive are extracted, and where to.
//!
//! A name inside an archive is not trusted. It is extracted only if, once its
//! separators are normalised, it starts with the required root prefix, and
//! what follows the prefix neither begins nor ends with a separator, holds no
//! `..` segment, no NUL and no colon. It is extracted to what follows the
//! prefix in canonical form: the segments that are neither empty nor `.`,
//! with one `/` between them. Such a path cannot leave the directory it is
//! joined onto.

use crate::text::chars_of;
use crate::text::text_of;
use vstd::prelude::*;

verus! {

/// The root prefix of a full retrieval: the archive's single top-level folder.
pub open spec fn full_root() -> Seq<char> {
    "byond/"@
}

/// The root prefix of a binaries-only retrieval.
pub open spec fn binaries_root() -> Seq<char> {
    "byond/bin/"@
}

/// The folder directly under the full root that holds the binaries.
pub open spec fn binaries_folder() -> Seq<char> {
    "bin/"@
}

/// `c`, with the backslash that archives written on Windows may use as a
/// separator replaced by `/`.
pub open spec fn normalized_char(c: char) -> char {
    if c == '\\' {
        '/'
    } else {
        c
    }
}

/// `name` with every separator written as `/`.
pub open spec fn normalized(name: Seq<char>) -> Seq<char> {
    Seq::new(name.len(), |i: int| normalized_char(name[i]))
}

/// The segments of `path`: what stands between its separators, in order.
/// A path without a separator is one segment. An empty segment stands
/// before a leading separator, after a trailing one, and between two that
/// follow one another.
pub open spec fn segments(path: Seq<char>) -> Seq<Seq<char>>
    decreases path.len(),
{
    if path.len() == 0 {
        seq![Seq::empty()]
    } else {
        let before = segments(path.drop_last());
        if path.last() == '/' {
            before.push(Seq::empty())
        } else {
            before.drop_last().push(before.last().push(path.last()))
        }
    }
}

/// Whether `segment` says nothing of where a file lies: it is empty, or
/// names the current directory.
pub open spec fn is_idle(segment: Seq<char>) -> bool {
    segment.len() == 0 || segment == seq!['.']
}

/// Whether `segment` names the parent directory.
pub open spec fn is_parent(segment: Seq<char>) -> bool {
    segment == seq!['.', '.']
}

/// Whether `c` may stand in the name of an extracted entry: it is no NUL,
/// and no colon, which on some hosts starts a path anew.
pub open spec fn is_clean_char(c: char) -> bool {
    c != '\0' && c != ':'
}

/// The path made of those of `segments` that are not idle, in order, with
/// one separator between each two.
pub open spec fn joined(segments: Seq<Seq<char>>) -> Seq<char>
    decreases segments.len(),
{
    if segments.len() == 0 {
        Seq::empty()
    } else {
        let before = joined(segments.drop_last());
        if is_idle(segments.last()) {
            before
        } else if before.len() == 0 {
            segments.last()
        } else {
            before.push('/') + segments.last()
        }
    }
}

/// Whether every segment of `path` counts: none is idle.
pub open spec fn is_canonical(path: Seq<char>) -> bool {
    forall|k: int| 0 <= k < segments(path).len() ==> !is_idle(#[trigger] segments(path)[k])
}

/// The canonical form of `rest`, what follows the root prefix in the name of
/// an entry, or `None` where the entry is not extracted.
///
/// The entry is extracted where `rest` neither begins nor ends with a
/// separator (one that ends with it marks a directory), holds no NUL and no
/// colon, has no segment that names the parent directory, and has a segment
/// that is not idle. Its canonical form is made of the segments that are
/// not idle.
pub open spec fn canonical_path(rest: Seq<char>) -> Option<Seq<char>> {
    let parts = segments(rest);
    if parts.first().len() > 0 && parts.last().len() > 0 && (forall|i: int|
        0 <= i < rest.len() ==> is_clean_char(#[trigger] rest[i])) && (forall|k: int|
        0 <= k < parts.len() ==> !is_parent(#[trigger] parts[k])) && joined(parts).len() > 0 {
        Some(joined(parts))
    } else {
        None
    }
}

/// Where the entry called `name` is extracted to, relative to the
/// destination, by a retrieval with root prefix `root`; `None` where the
/// entry is skipped. The name, with its separators normalised, has to start
/// with the root, and what follows has to have a canonical form.
pub open spec fn relative_path(name: Seq<char>, root: Seq<char>) -> Option<Seq<char>> {
    let path = normalized(name);
    if root.is_prefix_of(path) {
        canonical_path(path.skip(root.len() as int))
    } else {
        None
    }
}

/// The root prefix of a full retrieval.
pub fn full_prefix() -> (root: &'static str)
    ensures
        root@ == full_root(),
{
    "byond/"
}

/// The root prefix of a binaries-only retrieval.
pub fn binaries_prefix() -> (root: &'static str)
    ensures
        root@ == binaries_root(),
{
    "byond/bin/"
}

/// The canonical form of `rest`, what follows the root prefix in the name of
/// an entry; `None` where the entry is not extracted.
pub fn canonical(rest: &Vec<char>) -> (path: Option<String>)
    ensures
        path is Some <==> canonical_path(rest@) is Some,
        path matches Some(text) ==> Some(text@) == canonical_path(rest@),
{
    let n = rest.len();
    let mut clean = true;
    let mut i: usize = 0;
    while i < n
        invariant
            i <= n == rest.len(),
            clean == (forall|j: int| 0 <= j < i ==> is_clean_char(#[trigger] rest@[j])),
        decreases n - i,
    {
        if rest[i] == '\0' || rest[i] == ':' {
            clean = false;
        }
        i += 1;
    }
    let mut out: Vec<char> = Vec::new();
    let mut rooted = true;
    let mut inside = true;
    let mut start: usize = 0;
    let ghost mut done: Seq<Seq<char>> = Seq::empty();
    i = 0;
    assert(rest@.take(0) =~= Seq::<char>::empty());
    assert(segments(rest@.take(0)) =~= done.push(rest@.subrange(0, 0)));
    while i < n
        invariant
            start <= i <= n == rest.len(),
            segments(rest@.take(i as int)) == done.push(rest@.subrange(start as int, i as int)),
            out@ == joined(done),
            (done.len() == 0) == (start == 0),
            rooted == (done.len() > 0 ==> done[0].len() > 0),
            inside == (forall|k: int| 0 <= k < done.len() ==> !is_parent(#[trigger] done[k])),
        decreases n - i,
    {
        let ghost before = rest@.take(i as int);
        let ghost after = rest@.take(i + 1);
        assert(after.drop_last() == before);
        assert(after.last() == rest@[i as int]);
        if rest[i] == '/' {
            let ghost segment = rest@.subrange(start as int, i as int);
            let ghost was_inside = inside;
            if i == 0 {
                rooted = false;
            }
            if segment_is_parent(rest, start, i) {
                inside = false;
            }
            if !segment_is_idle(rest, start, i) {
                if out.len() > 0 {
                    out.push('/');
                }
                push_range(&mut out, rest, start, i);
            }
            proof {
                let earlier = done;
                assert(earlier.push(segment).drop_last() == earlier);
                done = earlier.push(segment);
                if inside {
                    assert forall|k: int| 0 <= k < done.len() implies !is_parent(
                        #[trigger] done[k],
                    ) by {
                        if k < earlier.len() {
                            assert(done[k] == earlier[k]);
                        }
                    }
                } else if was_inside {
                    assert(is_parent(done[done.len() - 1]));
                } else {
                    let k = choose|k: int| 0 <= k < earlier.len() && is_parent(#[trigger] earlier[k]);
                    assert(done[k] == earlier[k]);
                }
            }
            start = i + 1;
            assert(rest@.subrange(start as int, i + 1) =~= Seq::<char>::empty());
        } else {
            assert(segments(after) == done.push(rest@.subrange(start as int, i + 1))) by {
                let open = rest@.subrange(start as int, i as int);
                assert(done.push(open).drop_last() == done);
                assert(open.push(rest@[i as int]) == rest@.subrange(start as int, i + 1));
            }
        }
        i += 1;
    }
    assert(rest@.take(n as int) == rest@);
    let ghost last = rest@.subrange(start as int, n as int);
    let ghost parts = segments(rest@);
    assert(parts == done.push(last));
    assert(parts.drop_last() == done);
    assert(parts.first() == if done.len() > 0 {
        done[0]
    } else {
        last
    });
    if start == n {
        return None;
    }
    if segment_is_parent(rest, start, n) {
        assert(is_parent(parts[parts.len() - 1]));
        return None;
    }
    if !segment_is_idle(rest, start, n) {
        if out.len() > 0 {
            out.push('/');
        }
        push_range(&mut out, rest, start, n);
    }
    assert(out@ == joined(parts));
    assert((forall|k: int| 0 <= k < parts.len() ==> !is_parent(#[trigger] parts[k])) == inside) by {
        if inside {
            assert forall|k: int| 0 <= k < parts.len() implies !is_parent(#[trigger] parts[k]) by {
                if k < done.len() {
                    assert(parts[k] == done[k]);
                }
            }
        } else {
            let k = choose|k: int| 0 <= k < done.len() && is_parent(#[trigger] done[k]);
            assert(parts[k] == done[k]);
        }
    }
    if !clean || !rooted || !inside || out.len() == 0 {
        return None;
    }
    Some(text_of(&out, 0, out.len()))
}

/// Whether `chars[from..to]` is idle.
fn segment_is_idle(chars: &Vec<char>, from: usize, to: usize) -> (idle: bool)
    requires
        from <= to <= chars.len(),
    ensures
        idle == is_idle(chars@.subrange(from as int, to as int)),
{
    let ghost segment = chars@.subrange(from as int, to as int);
    if to - from == 1 && chars[from] == '.' {
        assert(segment =~= seq!['.']);
        return true;
    }
    assert(segment != seq!['.']) by {
        if segment == seq!['.'] {
            assert(segment.len() == 1 && segment[0] == '.');
        }
    }
    from == to
}

/// Whether `chars[from..to]` names the parent directory.
fn segment_is_parent(chars: &Vec<char>, from: usize, to: usize) -> (parent: bool)
    requires
        from <= to <= chars.len(),
    ensures
        parent == is_parent(chars@.subrange(from as int, to as int)),
{
    let ghost segment = chars@.subrange(from as int, to as int);
    if to - from == 2 && chars[from] == '.' && chars[from + 1] == '.' {
        assert(segment =~= seq!['.', '.']);
        return true;
    }
    assert(segment != seq!['.', '.']) by {
        if segment == seq!['.', '.'] {
            assert(segment.len() == 2 && segment[0] == '.' && segment[1] == '.');
        }
    }
    false
}

/// Appends `chars[from..to]` to `out`.
fn push_range(out: &mut Vec<char>, chars: &Vec<char>, from: usize, to: usize)
    requires
        from <= to <= chars.len(),
    ensures
        final(out)@ == old(out)@ + chars@.subrange(from as int, to as int),
{
    let mut i: usize = from;
    while i < to
        invariant
            from <= i <= to <= chars.len(),
            out@ == old(out)@ + chars@.subrange(from as int, i as int),
        decreases to - i,
    {
        out.push(chars[i]);
        i += 1;
    }
}

/// A path always has a segment.
pub proof fn lemma_segments_some(path: Seq<char>)
    ensures
        segments(path).len() >= 1,
    decreases path.len(),
{
    if path.len() > 0 {
        lemma_segments_some(path.drop_last());
    }
}

/// A path without a separator is its own one segment.
pub proof fn lemma_segments_word(word: Seq<char>)
    requires
        forall|i: int| 0 <= i < word.len() ==> word[i] != '/',
    ensures
        segments(word) == seq![word],
    decreases word.len(),
{
    if word.len() > 0 {
        lemma_segments_word(word.drop_last());
        assert(word.drop_last().push(word.last()) == word);
        assert(seq![word.drop_last()].drop_last().push(word) == seq![word]);
    } else {
        assert(word == Seq::<char>::empty());
    }
}

/// The segments of a path that starts with a word and a separator are the
/// word, and the segments of what follows.
pub proof fn lemma_segments_after(word: Seq<char>, path: Seq<char>)
    requires
        forall|i: int| 0 <= i < word.len() ==> word[i] != '/',
    ensures
        segments(word.push('/') + path) == seq![word] + segments(path),
    decreases path.len(),
{
    let whole = word.push('/') + path;
    lemma_segments_some(path);
    if path.len() == 0 {
        lemma_segments_word(word);
        assert(whole.drop_last() == word);
        assert(seq![word].push(Seq::<char>::empty()) == seq![word] + segments(path));
    } else {
        let shorter = path.drop_last();
        lemma_segments_after(word, shorter);
        lemma_segments_some(shorter);
        assert(whole.drop_last() == word.push('/') + shorter);
        let before = seq![word] + segments(shorter);
        if path.last() == '/' {
            assert(before.push(Seq::<char>::empty()) == seq![word] + segments(path));
        } else {
            assert(before.last() == segments(shorter).last());
            assert(before.drop_last() == seq![word] + segments(shorter).drop_last());
            assert(before.drop_last().push(before.last().push(path.last())) == seq![word]
                + segments(path));
        }
    }
}

/// Joining after a segment that counts: the segment, then a separator and
/// the rest joined, where the rest holds a segment that counts.
pub proof fn lemma_joined_after(word: Seq<char>, parts: Seq<Seq<char>>)
    requires
        !is_idle(word),
    ensures
        joined(seq![word] + parts) == if joined(parts).len() == 0 {
            word
        } else {
            word.push('/') + joined(parts)
        },
    decreases parts.len(),
{
    let all = seq![word] + parts;
    if parts.len() == 0 {
        assert(all.drop_last() == Seq::<Seq<char>>::empty());
        assert(all.last() == word);
        assert(joined(all.drop_last()).len() == 0);
        assert(joined(all) == word);
    } else {
        lemma_joined_after(word, parts.drop_last());
        assert(all.drop_last() == seq![word] + parts.drop_last());
        assert(all.last() == parts.last());
        let before = joined(parts.drop_last());
        assert(word.len() > 0);
        if !is_idle(parts.last()) {
            assert(joined(all) == joined(all.drop_last()).push('/') + parts.last());
            if before.len() == 0 {
                assert(joined(parts) == parts.last());
            } else {
                assert((word.push('/') + before).push('/') + parts.last() == word.push('/') + (
                before.push('/') + parts.last()));
            }
        } else {
            assert(joined(all) == joined(all.drop_last()));
        }
    }
}

/// A path whose segments all count, but for the last, which may not, is
/// those segments joined, a separator, and the last.
proof fn lemma_rebuilt(path: Seq<char>)
    requires
        forall|k: int| 0 <= k < segments(path).len() - 1 ==> !is_idle(#[trigger] segments(path)[k]),
    ensures
        path == if segments(path).len() == 1 {
            segments(path).last()
        } else {
            joined(segments(path).drop_last()).push('/') + segments(path).last()
        },
        segments(path).len() > 1 ==> joined(segments(path).drop_last()).len() > 0,
    decreases path.len(),
{
    let parts = segments(path);
    lemma_segments_some(path);
    if path.len() == 0 {
    } else {
        let shorter = path.drop_last();
        let before = segments(shorter);
        lemma_segments_some(shorter);
        assert(path == shorter.push(path.last()));
        if path.last() == '/' {
            assert(parts.drop_last() == before);
            assert forall|k: int| 0 <= k < before.len() - 1 implies !is_idle(
                #[trigger] before[k],
            ) by {
                assert(before[k] == parts[k]);
            }
            lemma_rebuilt(shorter);
            assert(!is_idle(before.last())) by {
                assert(before.last() == parts[before.len() - 1]);
            }
            assert(joined(before) == shorter);
            assert(shorter.push('/') + Seq::<char>::empty() == path);
        } else {
            assert(parts.drop_last() == before.drop_last());
            assert forall|k: int| 0 <= k < before.len() - 1 implies !is_idle(
                #[trigger] before[k],
            ) by {
                assert(before[k] == parts[k]);
            }
            lemma_rebuilt(shorter);
            if before.len() > 1 {
                assert((joined(before.drop_last()).push('/') + before.last()).push(path.last())
                    == joined(before.drop_last()).push('/') + before.last().push(path.last()));
            }
        }
    }
}

/// A canonical path is its own canonical form: joining its segments gives
/// it back.
pub proof fn lemma_canonical_joined(path: Seq<char>)
    requires
        is_canonical(path),
    ensures
        joined(segments(path)) == path,
        path.len() > 0,
{
    lemma_segments_some(path);
    lemma_rebuilt(path);
    let parts = segments(path);
    assert(!is_idle(parts[parts.len() - 1]));
    if parts.len() == 1 {
        assert(parts.drop_last() == Seq::<Seq<char>>::empty());
        assert(joined(parts.drop_last()).len() == 0);
    }
}

/// Path policy: the place, relative to the destination, to which the archive
/// entry called `name` is extracted by a retrieval with root prefix `root`,
/// or `None` where the entry is skipped.
pub fn strip_root(name: &str, root: &str) -> (target: Option<String>)
    ensures
        target is Some <==> relative_path(name@, root@) is Some,
        target matches Some(path) ==> Some(path@) == relative_path(name@, root@),
{
    let raw = chars_of(name);
    let prefix = chars_of(root);
    let n = raw.len();
    let k = prefix.len();
    if n < k {
        return None;
    }
    let mut i: usize = 0;
    while i < k
        invariant
            i <= k <= n,
            n == raw.len(),
            k == prefix.len(),
            raw@ == name@,
            prefix@ == root@,
            forall|j: int| 0 <= j < i ==> normalized(raw@)[j] == prefix@[j],
        decreases k - i,
    {
        let c = if raw[i] == '\\' {
            '/'
        } else {
            raw[i]
        };
        if c != prefix[i] {
            return None;
        }
        i += 1;
    }
    assert(normalized(raw@).subrange(0, k as int) =~= prefix@);
    let mut rest: Vec<char> = Vec::new();
    while i < n
        invariant
            k <= i <= n,
            n == raw.len(),
            rest@ == normalized(raw@).subrange(k as int, i as int),
        decreases n - i,
    {
        let c = if raw[i] == '\\' {
            '/'
        } else {
            raw[i]
        };
        rest.push(c);
        i += 1;
    }
    assert(rest@ == normalized(raw@).skip(k as int));
    canonical(&rest)
}

} // verus!
