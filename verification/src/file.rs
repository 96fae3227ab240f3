//! The corpus location as the library sees it, and the candidate files that
//! it holds.
use vstd::prelude::*;

verus! {

/// Why no quote could be taken from a corpus location.
#[derive(Clone, Copy, Debug, PartialEq, Eq)]
pub enum CorpusError {
    /// The location does not exist.
    NotFound,
    /// The location exists and could not be read.
    IoError,
    /// The location holds no file of a size above zero.
    EmptyCorpus,
}

/// One entry of a directory.
#[derive(Clone, Copy, Debug, PartialEq, Eq)]
pub struct Entry {
    /// Its length in bytes.
    pub size: u64,
    /// Whether it is a regular file.
    pub regular: bool,
}

/// What a look at a corpus location found.
#[derive(Debug, PartialEq, Eq)]
pub enum Listing {
    /// Nothing is there.
    Missing,
    /// Something is there that could not be read.
    Unreadable,
    /// A single file of this length in bytes.
    File(u64),
    /// A directory with these entries, in the order in which it was read.
    Directory(Vec<Entry>),
}

/// A file that a quote may be taken from.
#[derive(Clone, Copy, Debug, PartialEq, Eq)]
pub struct Candidate {
    /// Its length in bytes.
    pub size: u64,
    /// Its place in the listing: the index of its entry in a directory, 0
    /// for a single file.
    pub file: usize,
}

/// The candidates among the entries of a directory: its regular files, each
/// with its size and its index, in the order of the entries.
pub open spec fn regular_files(entries: Seq<Entry>) -> Seq<Candidate>
    decreases entries.len(),
{
    if entries.len() == 0 {
        Seq::empty()
    } else {
        let before = regular_files(entries.drop_last());
        if entries.last().regular {
            before.push(
                Candidate { size: entries.last().size, file: (entries.len() - 1) as usize },
            )
        } else {
            before
        }
    }
}

/// The candidates of a location: a single file is the only candidate, a
/// directory has its regular files, and a location that is missing or
/// unreadable has an error.
pub open spec fn candidates(listing: Listing) -> Result<Seq<Candidate>, CorpusError> {
    match listing {
        Listing::Missing => Err(CorpusError::NotFound),
        Listing::Unreadable => Err(CorpusError::IoError),
        Listing::File(size) => Ok(seq![Candidate { size, file: 0 }]),
        Listing::Directory(entries) => Ok(regular_files(entries@)),
    }
}

/// Each candidate of a directory stands for one of its regular files and
/// has its size, each regular file has its candidate, and the candidates
/// come in the order of the entries.
pub proof fn lemma_regular_files(entries: Seq<Entry>)
    requires
        entries.len() <= usize::MAX,
    ensures
        forall|k: int|
            0 <= k < regular_files(entries).len() ==> {
                let c = #[trigger] regular_files(entries)[k];
                c.file < entries.len() && entries[c.file as int].regular
                    && entries[c.file as int].size == c.size
            },
        forall|j: int, k: int|
            0 <= j < k < regular_files(entries).len() ==> regular_files(entries)[j].file
                < regular_files(entries)[k].file,
        forall|i: int|
            0 <= i < entries.len() && (#[trigger] entries[i]).regular ==> regular_files(
                entries,
            ).contains(Candidate { size: entries[i].size, file: i as usize }),
    decreases entries.len(),
{
    if entries.len() > 0 {
        let before = entries.drop_last();
        let found = regular_files(entries);
        lemma_regular_files(before);
        assert forall|i: int| 0 <= i < entries.len() && (#[trigger] entries[i]).regular implies found.contains(
            Candidate { size: entries[i].size, file: i as usize },
        ) by {
            let c = Candidate { size: entries[i].size, file: i as usize };
            if i < before.len() {
                assert(before[i].regular);
                let k = choose|k: int|
                    0 <= k < regular_files(before).len() && regular_files(before)[k] == c;
                assert(found[k] == c);
            } else {
                assert(found[found.len() - 1] == c);
            }
        }
    }
}

/// The candidates of a location, each with its size in bytes.
pub fn get_file_sizes(listing: &Listing) -> (found: Result<Vec<Candidate>, CorpusError>)
    ensures
        (match candidates(*listing) {
            Ok(files) => found matches Ok(v) && v@ == files,
            Err(e) => found == Err::<Vec<Candidate>, CorpusError>(e),
        }),
{
    match listing {
        Listing::Missing => Err(CorpusError::NotFound),
        Listing::Unreadable => Err(CorpusError::IoError),
        Listing::File(size) => {
            let mut files: Vec<Candidate> = Vec::new();
            files.push(Candidate { size: *size, file: 0 });
            Ok(files)
        },
        Listing::Directory(entries) => {
            let mut files: Vec<Candidate> = Vec::new();
            let mut i: usize = 0;
            while i < entries.len()
                invariant
                    i <= entries.len(),
                    files@ == regular_files(entries@.take(i as int)),
                decreases entries.len() - i,
            {
                assert(entries@.take(i + 1).drop_last() =~= entries@.take(i as int));
                if entries[i].regular {
                    files.push(Candidate { size: entries[i].size, file: i });
                }
                i += 1;
            }
            assert(entries@.take(i as int) =~= entries@);
            Ok(files)
        },
    }
}

} // verus!
