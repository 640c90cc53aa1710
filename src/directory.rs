//! Searching the direct children of a directory: each regular file is
//! searched, files without a match are left out, and nothing below a
//! subdirectory is looked at.
use vstd::prelude::*;
use crate::error::IoError;
use crate::index::{index_lines, lemma_positions_ordered, line_texts, positions, MatchIndex};
use crate::text::has_substring;

verus! {

/// One child of a directory, as its listing gave it.
pub enum DirEntry {
    /// A regular file, with what reading it gave.
    File { path: String, contents: Result<Vec<u8>, IoError> },
    /// Anything else: a subdirectory, a link to one, a device.
    Other { path: String },
}

/// The matches of one file of a directory.
pub struct FileMatches {
    pub path: String,
    pub matches: MatchIndex,
}

/// The files of a directory that hold a match, with their matches.
pub struct DirectoryResult {
    pub files: Vec<FileMatches>,
}

/// Some line of `texts` holds `needle`.
pub open spec fn has_match(texts: Seq<Seq<char>>, needle: Seq<char>) -> bool {
    exists|i: int| 0 <= i < texts.len() && has_substring(#[trigger] texts[i], needle)
}

/// The entry is a regular file that could not be read.
pub open spec fn read_failed(e: DirEntry) -> bool {
    match e {
        DirEntry::File { contents: Err(_), .. } => true,
        _ => false,
    }
}

/// The entry is a regular file that was read and has a line holding `needle`.
pub open spec fn is_kept(e: DirEntry, needle: Seq<char>) -> bool {
    match e {
        DirEntry::File { contents: Ok(bytes), .. } => has_match(line_texts(bytes@), needle),
        _ => false,
    }
}

/// The path of an entry.
pub open spec fn path_of(e: DirEntry) -> Seq<char> {
    match e {
        DirEntry::File { path, .. } => path@,
        DirEntry::Other { path } => path@,
    }
}

/// The bytes read from an entry; empty where there are none.
pub open spec fn bytes_of(e: DirEntry) -> Seq<u8> {
    match e {
        DirEntry::File { contents: Ok(bytes), .. } => bytes@,
        _ => Seq::empty(),
    }
}

/// The positions, in listing order, of the entries that are kept.
pub open spec fn kept_positions(es: Seq<DirEntry>, needle: Seq<char>) -> Seq<int>
    decreases es.len(),
{
    if es.len() == 0 {
        Seq::empty()
    } else {
        let prev = kept_positions(es.drop_last(), needle);
        if is_kept(es.last(), needle) {
            prev.push(es.len() - 1)
        } else {
            prev
        }
    }
}

/// `k` is the first entry of the listing whose file could not be read.
pub open spec fn first_failure(es: Seq<DirEntry>, k: int) -> bool {
    &&& 0 <= k < es.len()
    &&& read_failed(es[k])
    &&& forall|i: int| 0 <= i < k ==> !read_failed(#[trigger] es[i])
}

/// The error of an entry whose file could not be read.
pub open spec fn error_of(e: DirEntry) -> Option<IoError> {
    match e {
        DirEntry::File { contents: Err(err), .. } => Some(err),
        _ => None,
    }
}

/// Each kept position is the position of a kept entry of the listing.
pub proof fn lemma_kept_positions(es: Seq<DirEntry>, needle: Seq<char>)
    ensures
        forall|a: int|
            0 <= a < kept_positions(es, needle).len() ==> 0 <= #[trigger] kept_positions(
                es,
                needle,
            )[a] < es.len() && is_kept(es[kept_positions(es, needle)[a]], needle),
    decreases es.len(),
{
    if es.len() > 0 {
        lemma_kept_positions(es.drop_last(), needle);
        let prev = kept_positions(es.drop_last(), needle);
        assert forall|a: int| 0 <= a < prev.len() implies es.drop_last()[prev[a]] == es[prev[a]] by {}
    }
}

/// `path` is the path of a regular file of the listing `es`.
pub open spec fn listed_file(es: Seq<DirEntry>, path: Seq<char>) -> bool {
    exists|k: int| 0 <= k < es.len() && es[k] is File && #[trigger] path_of(es[k]) == path
}

impl DirectoryResult {
    /// Every file of this result is a regular file of the listing `es`.
    pub open spec fn paths_listed(&self, es: Seq<DirEntry>) -> bool {
        forall|j: int|
            0 <= j < self.files@.len() ==> listed_file(es, (#[trigger] self.files@[j]).path@)
    }

    /// No file of this result is without a match.
    pub open spec fn all_nonempty(&self) -> bool {
        forall|j: int|
            0 <= j < self.files@.len() ==> (#[trigger] self.files@[j]).matches.entries@.len() > 0
    }

    /// This result is the search of the listing `es` for `needle`: one
    /// entry for each kept file, in listing order, with its path and the
    /// search of its lines.
    pub open spec fn searches(&self, es: Seq<DirEntry>, needle: Seq<char>) -> bool {
        let ks = kept_positions(es, needle);
        &&& self.files@.len() == ks.len()
        &&& forall|j: int|
            0 <= j < ks.len() ==> {
                &&& (#[trigger] self.files@[j]).path@ == path_of(es[ks[j]])
                &&& self.files@[j].matches.indexes(line_texts(bytes_of(es[ks[j]])), needle)
            }
    }
}

/// An index of a file's lines is empty exactly when no line holds the
/// needle.
pub proof fn lemma_empty_iff_no_match(idx: &MatchIndex, texts: Seq<Seq<char>>, needle: Seq<char>)
    requires
        idx.indexes(texts, needle),
    ensures
        (idx.entries@.len() == 0) == !has_match(texts, needle),
{
    if idx.entries@.len() > 0 {
        let line = idx.entries@[0].line@;
        lemma_positions_ordered(texts, line);
        let n = positions(texts, line)[0];
        assert(has_substring(texts[n - 1], needle));
    }
    if has_match(texts, needle) {
        let i = choose|i: int| 0 <= i < texts.len() && has_substring(#[trigger] texts[i], needle);
        assert(has_substring(texts[i], needle));
    }
}

/// `r` is the outcome of searching the listing `es` for `needle`: the error
/// of the first file that could not be read, if any; else the search of
/// every kept file, each non-empty and each a regular file of the listing.
pub open spec fn search_outcome(
    es: Seq<DirEntry>,
    needle: Seq<char>,
    r: Result<DirectoryResult, IoError>,
) -> bool {
    &&& (r is Err) == exists|k: int| 0 <= k < es.len() && read_failed(#[trigger] es[k])
    &&& r is Err ==> exists|k: int| first_failure(es, k) && error_of(#[trigger] es[k]) == Some(r->Err_0)
    &&& r is Ok ==> r->Ok_0.searches(es, needle)
    &&& r is Ok ==> r->Ok_0.all_nonempty()
    &&& r is Ok ==> r->Ok_0.paths_listed(es)
}

/// Searches every regular file of a directory listing for `needle`. A
/// failed listing is passed on; otherwise the first file that could not be
/// read ends the search with its error. Entries that are not regular files
/// are skipped, and files without a matching line are left out.
pub fn search_directory(listing: Result<Vec<DirEntry>, IoError>, needle: &str) -> (r: Result<
    DirectoryResult,
    IoError,
>)
    ensures
        match listing {
            Err(e) => r == Err::<DirectoryResult, IoError>(e),
            Ok(es) => search_outcome(es@, needle@, r),
        },
{
    match listing {
        Err(e) => Err(e),
        Ok(es) => search_entries(&es, needle),
    }
}

/// Searches the entries of a listing that succeeded, as `search_directory`
/// says.
pub fn search_entries(es: &Vec<DirEntry>, needle: &str) -> (r: Result<DirectoryResult, IoError>)
    ensures
        search_outcome(es@, needle@, r),
{
    let mut files: Vec<FileMatches> = Vec::new();
    let n = es.len();
    let mut i: usize = 0;
    while i < n
        invariant
            n == es@.len(),
            i <= n,
            forall|k: int| 0 <= k < i ==> !read_failed(#[trigger] es@[k]),
            (DirectoryResult { files }).searches(es@.take(i as int), needle@),
            forall|j: int|
                0 <= j < files@.len() ==> (#[trigger] files@[j]).matches.entries@.len() > 0,
        decreases n - i,
    {
        let ghost prefix = es@.take(i as int);
        assert(es@.take(i + 1).drop_last() =~= prefix);
        assert(es@.take(i + 1).last() == es@[i as int]);
        proof {
            lemma_kept_positions(prefix, needle@);
            let ks = kept_positions(prefix, needle@);
            assert forall|a: int| 0 <= a < ks.len() implies es@.take(i + 1)[#[trigger] ks[a]]
                == prefix[ks[a]] by {}
        }
        match &es[i] {
            DirEntry::File { path, contents } => {
                match contents {
                    Err(e) => {
                        let err = IoError { message: e.message.clone() };
                        assert(first_failure(es@, i as int));
                        return Err(err);
                    },
                    Ok(bytes) => {
                        let m = index_lines(bytes, needle);
                        proof {
                            lemma_empty_iff_no_match(&m, line_texts(bytes@), needle@);
                        }
                        if !m.is_empty() {
                            let ghost before = files@;
                            files.push(FileMatches { path: path.clone(), matches: m });
                            proof {
                                let ks = kept_positions(es@.take(i + 1), needle@);
                                assert(ks == kept_positions(prefix, needle@).push(i as int));
                                assert forall|j: int| 0 <= j < ks.len() implies {
                                    &&& (#[trigger] files@[j]).path@ == path_of(es@.take(i + 1)[ks[j]])
                                    &&& files@[j].matches.indexes(
                                        line_texts(bytes_of(es@.take(i + 1)[ks[j]])),
                                        needle@,
                                    )
                                } by {
                                    lemma_kept_positions(prefix, needle@);
                                    if j < before.len() {
                                        assert(files@[j] == before[j]);
                                        assert(es@.take(i + 1)[ks[j]] == prefix[ks[j]]);
                                    }
                                }
                            }
                        } else {
                            proof {
                                assert(kept_positions(es@.take(i + 1), needle@) == kept_positions(prefix, needle@));
                            }
                        }
                    },
                }
            },
            DirEntry::Other { .. } => {
                assert(kept_positions(es@.take(i + 1), needle@) == kept_positions(prefix, needle@));
            },
        }
        i = i + 1;
    }
    assert(es@.take(n as int) =~= es@);
    let r = DirectoryResult { files };
    proof {
        lemma_kept_positions(es@, needle@);
        let ks = kept_positions(es@, needle@);
        assert forall|j: int| 0 <= j < r.files@.len() implies listed_file(
            es@,
            (#[trigger] r.files@[j]).path@,
        ) by {
            assert(is_kept(es@[ks[j]], needle@));
            assert(es@[ks[j]] is File);
            assert(path_of(es@[ks[j]]) == r.files@[j].path@);
        }
        assert(r.paths_listed(es@));
    }
    Ok(r)
}

} // verus!
