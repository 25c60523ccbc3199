//! The folder index: an immutable mapping from absolute folder path to the
//! classified files directly inside that folder. Keys are unique, and files
//! of role `Unknown` are excluded from the index entirely.

use vstd::prelude::*;
use crate::file_organizer::{without_unknown, lemma_without_unknown_clean, FileType, SourceFile};
use crate::grouping::{distinct_keys, groups_has_key, lemma_key_index_of};

verus! {

/// The classified files directly inside one folder.
#[derive(Debug)]
pub struct DirectoryFile {
    pub files: Vec<SourceFile>,
}

/// Mapping from absolute folder path to the files directly inside it.
/// Built once per run, read-only afterwards.
#[derive(Debug)]
pub struct FolderIndex {
    entries: Vec<(String, DirectoryFile)>,
}

impl View for FolderIndex {
    type V = Seq<(Seq<char>, Seq<SourceFile>)>;

    closed spec fn view(&self) -> Seq<(Seq<char>, Seq<SourceFile>)> {
        self.entries@.map_values(|e: (String, DirectoryFile)| (e.0@, e.1.files@))
    }
}

impl FolderIndex {
    #[verifier::type_invariant]
    spec fn inv(self) -> bool {
        &&& distinct_keys(self@)
        &&& forall|i: int, j: int|
            0 <= i < self@.len() && 0 <= j < self@[i].1.len()
                ==> #[trigger] self@[i].1[j].file_type != FileType::Unknown
    }

    /// An empty index.
    pub fn new() -> (r: FolderIndex)
        ensures
            r@ == Seq::<(Seq<char>, Seq<SourceFile>)>::empty(),
    {
        let r = FolderIndex { entries: Vec::new() };
        proof {
            assert(r@ =~= Seq::<(Seq<char>, Seq<SourceFile>)>::empty());
        }
        r
    }

    /// Number of folders in the index.
    pub fn len(&self) -> (n: usize)
        ensures
            n == self@.len(),
    {
        self.entries.len()
    }

    /// The folder path of the entry at position `i`.
    pub fn folder_path_at(&self, i: usize) -> (r: &String)
        requires
            i < self@.len(),
        ensures
            r@ == self@[i as int].0,
    {
        &self.entries[i].0
    }

    /// The files of the entry at position `i`.
    pub fn files_at(&self, i: usize) -> (r: &Vec<SourceFile>)
        requires
            i < self@.len(),
        ensures
            r@ == self@[i as int].1,
    {
        &self.entries[i].1.files
    }

    /// Adds one folder. A duplicate folder path is rejected; files whose role
    /// is `Unknown` are left out of the index, as classification demands.
    pub fn insert(&mut self, folder_path: String, dir: DirectoryFile) -> (r: bool)
        ensures
            r == !groups_has_key(old(self)@, folder_path@),
            r ==> final(self)@ == old(self)@.push((folder_path@, without_unknown(dir.files@))),
            !r ==> final(self)@ == old(self)@,
    {
        proof {
            use_type_invariant(&*self);
        }
        let ghost old_view = self@;
        let n = self.entries.len();
        let mut j: usize = 0;
        while j < n
            invariant
                *self == *old(self),
                old_view == self@,
                n == self.entries@.len(),
                j <= n,
                forall|jj: int| 0 <= jj < j ==> #[trigger] self@[jj].0 != folder_path@,
            decreases n - j,
        {
            if crate::paths::str_eq(self.entries[j].0.as_str(), folder_path.as_str()) {
                proof {
                    assert(self@[j as int].0 == self.entries@[j as int].0@);
                    lemma_key_index_of(self@, folder_path@, j as int);
                }
                return false;
            }
            j = j + 1;
        }
        proof {
            assert(old_view.len() == self.entries@.len());
            lemma_key_index_of(old_view, folder_path@, n as int);
        }
        let mut kept: Vec<SourceFile> = Vec::new();
        let m = dir.files.len();
        let mut i: usize = 0;
        while i < m
            invariant
                m == dir.files.len(),
                i <= m,
                kept@ == without_unknown(dir.files@.take(i as int)),
            decreases m - i,
        {
            proof {
                assert(dir.files@.take(i + 1).drop_last() =~= dir.files@.take(i as int));
                assert(dir.files@.take(i + 1).last() == dir.files@[i as int]);
            }
            let f = &dir.files[i];
            if f.file_type != FileType::Unknown {
                kept.push(f.duplicate());
            }
            i = i + 1;
        }
        proof {
            assert(dir.files@.take(m as int) =~= dir.files@);
        }
        let mut entries: Vec<(String, DirectoryFile)> = Vec::new();
        proof {
            assert(entries@.map_values(|e: (String, DirectoryFile)| (e.0@, e.1.files@)) =~= Seq::<
                (Seq<char>, Seq<SourceFile>),
            >::empty());
        }
        core::mem::swap(&mut entries, &mut self.entries);
        let ghost pushed_pair = (folder_path@, kept@);
        entries.push((folder_path, DirectoryFile { files: kept }));
        proof {
            lemma_without_unknown_clean(dir.files@);
            let new_view = entries@.map_values(|e: (String, DirectoryFile)| (e.0@, e.1.files@));
            assert(new_view =~= old_view.push(pushed_pair));
            assert forall|a: int, b: int| 0 <= a < b < new_view.len() implies new_view[a].0
                != new_view[b].0 by {
                if b < new_view.len() - 1 {
                    assert(new_view[a] == old_view[a]);
                    assert(new_view[b] == old_view[b]);
                } else {
                    assert(new_view[a] == old_view[a]);
                }
            }
            assert forall|a: int, b: int|
                0 <= a < new_view.len() && 0 <= b < new_view[a].1.len() implies #[trigger] new_view[a].1[b].file_type
                != FileType::Unknown by {
                if a < new_view.len() - 1 {
                    assert(new_view[a] == old_view[a]);
                } else {
                    assert(new_view[a].1 == without_unknown(dir.files@));
                }
            }
        }
        core::mem::swap(&mut entries, &mut self.entries);
        proof {
            assert(self@ =~= old_view.push((folder_path@, without_unknown(dir.files@))));
        }
        true
    }

    /// Unique keys: no folder path occurs twice in any index. The call does
    /// nothing at run time; it hands the index's invariant to the caller.
    pub fn folder_keys_distinct(&self)
        ensures
            distinct_keys(self@),
    {
        proof {
            use_type_invariant(self);
        }
    }

    /// A file with an unrecognized extension never appears in any entry of
    /// any folder index: classification marks it `Unknown`, and the index
    /// excludes every `Unknown`-role file. The call does nothing at run
    /// time; it hands the index's invariant to the caller.
    pub fn unknown_never_indexed(&self)
        ensures
            forall|i: int, j: int|
                0 <= i < self@.len() && 0 <= j < self@[i].1.len()
                    ==> #[trigger] self@[i].1[j].file_type != FileType::Unknown,
    {
        proof {
            use_type_invariant(self);
        }
    }
}

} // verus!
