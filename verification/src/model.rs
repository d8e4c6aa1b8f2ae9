//! Choosing the recognizer's files among those of a directory.
//!
//! A model directory holds the acoustic model, a file that ends in `tflite`,
//! and, if there is one, a scorer, a file that ends in `scorer`. Listing the
//! directory and loading the files is the caller's part.

use vstd::prelude::*;

verus! {

/// A file of a directory: its path, and its extension where it has one.
pub struct FoundFile {
    pub path: String,
    pub extension: Option<String>,
}

/// What a file of a model directory is, by its extension.
#[derive(Debug, Clone, Copy, PartialEq, Eq, Structural)]
pub enum ModelFileKind {
    Model,
    Scorer,
    Other,
}

/// The files to load: each path is empty where the directory has no such file.
pub struct ModelFiles {
    pub model_path: String,
    pub scorer_path: String,
}

/// What the file is, by its extension.
pub open spec fn kind_of(extension: Option<Seq<char>>) -> ModelFileKind {
    match extension {
        Some(e) => if e == "tflite"@ {
            ModelFileKind::Model
        } else if e == "scorer"@ {
            ModelFileKind::Scorer
        } else {
            ModelFileKind::Other
        },
        None => ModelFileKind::Other,
    }
}

/// The extension of an entry, as plain values.
pub open spec fn extension_view(entry: FoundFile) -> Option<Seq<char>> {
    match entry.extension {
        Some(e) => Some(e@),
        None => None,
    }
}

/// The path of the last of the first `n` entries that is of the given kind,
/// or the empty path where none of them is.
pub open spec fn last_of_kind(entries: Seq<FoundFile>, kind: ModelFileKind, n: int) -> Seq<char>
    decreases n,
{
    if n <= 0 {
        Seq::empty()
    } else if kind_of(extension_view(entries[n - 1])) == kind {
        entries[n - 1].path@
    } else {
        last_of_kind(entries, kind, n - 1)
    }
}

/// What the file is, by its extension.
pub fn classify(extension: &Option<String>) -> (kind: ModelFileKind)
    ensures
        kind == kind_of(
            match *extension {
                Some(e) => Some(e@),
                None => None,
            },
        ),
{
    match extension {
        Some(e) => {
            if *e == "tflite".to_owned() {
                ModelFileKind::Model
            } else if *e == "scorer".to_owned() {
                ModelFileKind::Scorer
            } else {
                ModelFileKind::Other
            }
        },
        None => ModelFileKind::Other,
    }
}

/// Picks the model and the scorer among the files of a directory. Where the
/// directory holds several of a kind, the one listed last is taken.
pub fn find_model_files(entries: &Vec<FoundFile>) -> (files: ModelFiles)
    ensures
        files.model_path@ == last_of_kind(entries@, ModelFileKind::Model, entries@.len() as int),
        files.scorer_path@ == last_of_kind(entries@, ModelFileKind::Scorer, entries@.len() as int),
{
    let mut model_path = String::new();
    let mut scorer_path = String::new();
    let mut k: usize = 0;
    while k < entries.len()
        invariant
            0 <= k <= entries@.len(),
            model_path@ == last_of_kind(entries@, ModelFileKind::Model, k as int),
            scorer_path@ == last_of_kind(entries@, ModelFileKind::Scorer, k as int),
        decreases entries@.len() - k,
    {
        match classify(&entries[k].extension) {
            ModelFileKind::Model => {
                model_path = entries[k].path.clone();
            },
            ModelFileKind::Scorer => {
                scorer_path = entries[k].path.clone();
            },
            ModelFileKind::Other => {},
        }
        k = k + 1;
    }
    ModelFiles { model_path, scorer_path }
}

} // verus!
