//! Extraction plans: the entries of an archive that a retrieval extracts, in
//! the order of the archive's directory, each with the place it goes to.

use crate::mode::executable;
use crate::mode::is_executable;
use crate::path::relative_path;
use crate::path::strip_root;
use crate::text::chars_of;
use vstd::prelude::*;

verus! {

/// One entry to extract.
#[derive(Debug, Clone, PartialEq, Eq)]
pub struct Extraction {
    /// The position of the entry in the archive's directory.
    pub index: usize,
    /// The name of the entry inside the archive.
    pub name: String,
    /// Where the entry's content is written, relative to the destination,
    /// with `/` between segments.
    pub path: String,
    /// Whether the file is marked executable on a POSIX host.
    pub executable: bool,
}

/// An extraction, as mathematics sees it.
pub struct ExtractionView {
    pub index: int,
    pub name: Seq<char>,
    pub path: Seq<char>,
    pub executable: bool,
}

impl View for Extraction {
    type V = ExtractionView;

    open spec fn view(&self) -> ExtractionView {
        ExtractionView {
            index: self.index as int,
            name: self.name@,
            path: self.path@,
            executable: self.executable,
        }
    }
}

/// The views of a sequence of extractions.
pub open spec fn views(extractions: Seq<Extraction>) -> Seq<ExtractionView> {
    Seq::new(extractions.len(), |i: int| extractions[i]@)
}

/// The texts of a sequence of strings.
pub open spec fn texts(names: Seq<String>) -> Seq<Seq<char>> {
    Seq::new(names.len(), |i: int| names[i]@)
}

/// The plan of a retrieval with root prefix `root` from an archive whose
/// directory lists `names`: one extraction for each name that the path
/// policy accepts, in the order of the directory.
pub open spec fn planned(names: Seq<Seq<char>>, root: Seq<char>) -> Seq<ExtractionView>
    decreases names.len(),
{
    if names.len() == 0 {
        Seq::empty()
    } else {
        let earlier = planned(names.drop_last(), root);
        match relative_path(names.last(), root) {
            Some(path) => earlier.push(
                ExtractionView {
                    index: names.len() - 1,
                    name: names.last(),
                    path,
                    executable: is_executable(path),
                },
            ),
            None => earlier,
        }
    }
}

/// Plans a retrieval with root prefix `root` from an archive whose directory
/// lists `names`.
pub fn plan(names: &Vec<String>, root: &str) -> (extractions: Vec<Extraction>)
    ensures
        views(extractions@) == planned(texts(names@), root@),
{
    let mut extractions: Vec<Extraction> = Vec::new();
    let mut i: usize = 0;
    while i < names.len()
        invariant
            i <= names.len(),
            views(extractions@) == planned(texts(names@).take(i as int), root@),
        decreases names.len() - i,
    {
        let ghost seen = texts(names@).take(i + 1);
        assert(seen.drop_last() == texts(names@).take(i as int));
        match strip_root(names[i].as_str(), root) {
            Some(path) => {
                let marked = executable(&chars_of(path.as_str()));
                let extraction = Extraction {
                    index: i,
                    name: names[i].clone(),
                    path,
                    executable: marked,
                };
                extractions.push(extraction);
            },
            None => {},
        }
        i += 1;
    }
    assert(texts(names@).take(names.len() as int) == texts(names@));
    extractions
}

} // verus!
