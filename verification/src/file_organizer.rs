//! Classified source files and the groupings built over them: every file is
//! tagged with a compilation role derived from its extension, and
//! [`OrganizedFiles`] groups the files by folder, by role, and by both.

use vstd::prelude::*;
use crate::grouping::{
    distinct_keys, groups_insert, groups_lookup, key_index, lemma_insert_preserves_distinct,
    lemma_key_index, lemma_key_index_of,
};
use crate::paths::{folder_of, parent_folder, str_eq};

verus! {

/// Compilation role of a source file, derived from its extension.
#[derive(Clone, Copy, Debug, PartialEq, Eq, Hash, Structural)]
pub enum FileType {
    CPlusPlus,
    C,
    Assembly,
    Header,
    Linker,
    Unknown,
}

/// The fixed extension table: lowercase extensions, compared exactly.
pub open spec fn classify(ext: Seq<char>) -> FileType {
    if ext == "cpp"@ || ext == "cxx"@ || ext == "cc"@ {
        FileType::CPlusPlus
    } else if ext == "c"@ {
        FileType::C
    } else if ext == "asm"@ || ext == "s"@ {
        FileType::Assembly
    } else if ext == "h"@ || ext == "hpp"@ {
        FileType::Header
    } else if ext == "ld"@ {
        FileType::Linker
    } else {
        FileType::Unknown
    }
}

/// Maps an extension to its compilation role, exactly as [`classify`] says.
pub fn classify_extension(ext: &str) -> (t: FileType)
    ensures
        t == classify(ext@),
{
    if str_eq(ext, "cpp") || str_eq(ext, "cxx") || str_eq(ext, "cc") {
        FileType::CPlusPlus
    } else if str_eq(ext, "c") {
        FileType::C
    } else if str_eq(ext, "asm") || str_eq(ext, "s") {
        FileType::Assembly
    } else if str_eq(ext, "h") || str_eq(ext, "hpp") {
        FileType::Header
    } else if str_eq(ext, "ld") {
        FileType::Linker
    } else {
        FileType::Unknown
    }
}

/// Classification is total and deterministic: the role depends on the
/// extension's characters alone, so equal extensions always yield equal roles.
pub proof fn lemma_classification_deterministic(e1: Seq<char>, e2: Seq<char>)
    requires
        e1 == e2,
    ensures
        classify(e1) == classify(e2),
{
}

/// A source file found under the project root, tagged with its role.
#[derive(Clone, Debug)]
pub struct SourceFile {
    pub path: String,
    pub extension: String,
    pub file_type: FileType,
}

impl SourceFile {
    /// A field-for-field copy, equal to the original.
    pub fn duplicate(&self) -> (r: SourceFile)
        ensures
            r == *self,
    {
        SourceFile {
            path: self.path.clone(),
            extension: self.extension.clone(),
            file_type: self.file_type,
        }
    }
}

/// Classifies and builds a file entry, or rejects it: a file whose extension
/// is not in the table is invisible to every downstream component.
pub fn make_source_file(path: String, extension: String) -> (r: Option<SourceFile>)
    ensures
        r is None <==> classify(extension@) == FileType::Unknown,
        r is Some ==> r.unwrap() == (SourceFile {
            path,
            extension,
            file_type: classify(extension@),
        }),
{
    let file_type = classify_extension(extension.as_str());
    if file_type == FileType::Unknown {
        None
    } else {
        Some(SourceFile { path, extension, file_type })
    }
}

/// `files` with every `Unknown`-role entry removed, order kept.
pub open spec fn without_unknown(files: Seq<SourceFile>) -> Seq<SourceFile>
    decreases files.len(),
{
    if files.len() == 0 {
        Seq::empty()
    } else if files.last().file_type != FileType::Unknown {
        without_unknown(files.drop_last()).push(files.last())
    } else {
        without_unknown(files.drop_last())
    }
}

/// Nothing of role `Unknown` survives [`without_unknown`].
pub proof fn lemma_without_unknown_clean(files: Seq<SourceFile>)
    ensures
        forall|i: int|
            0 <= i < without_unknown(files).len()
                ==> #[trigger] without_unknown(files)[i].file_type != FileType::Unknown,
    decreases files.len(),
{
    if files.len() > 0 {
        lemma_without_unknown_clean(files.drop_last());
    }
}

/// On files that carry no `Unknown` role, [`without_unknown`] changes nothing.
pub proof fn lemma_without_unknown_id(files: Seq<SourceFile>)
    requires
        forall|i: int| 0 <= i < files.len() ==> #[trigger] files[i].file_type != FileType::Unknown,
    ensures
        without_unknown(files) == files,
    decreases files.len(),
{
    if files.len() > 0 {
        assert(forall|i: int|
            0 <= i < files.drop_last().len()
                ==> #[trigger] files.drop_last()[i].file_type != FileType::Unknown);
        lemma_without_unknown_id(files.drop_last());
        assert(without_unknown(files) =~= files);
    } else {
        assert(without_unknown(files) =~= files);
    }
}

// --- Configuration records, carried through to the downstream build driver ---

/// C++ toolchain settings from the configuration file.
#[derive(Debug)]
pub struct CppLanguage {
    pub cxx: String,
    pub ld: String,
}

/// C toolchain settings from the configuration file.
#[derive(Debug)]
pub struct CLanguage {
    pub cc: String,
    pub ld: String,
}

/// Assembler settings from the configuration file.
#[derive(Debug)]
pub struct AsmLanguage {
    pub assembler: String,
}

/// All per-language toolchain settings.
#[derive(Debug)]
pub struct Languages {
    pub cpp: CppLanguage,
    pub c: CLanguage,
    pub assembly: AsmLanguage,
}

/// Per-stage file settings.
#[derive(Debug)]
pub struct StageFiles {
    pub assembly: String,
}

/// Per-path C++ flag settings.
#[derive(Debug)]
pub struct CppFlags {
    pub stage1: StageFiles,
}

/// Flags that apply to specific paths only.
#[derive(Debug)]
pub struct PathSpecificFlags {
    pub cpp: CppFlags,
}

/// The loaded build configuration. The discovery stage uses only
/// `project_src_root`; the toolchain fields pass through to the build driver.
#[derive(Debug)]
pub struct Config {
    pub project_src_root: String,
    pub languages: Languages,
    pub path_specific_flags: PathSpecificFlags,
}

// --- Groupings of classified files ---

/// Mathematical view of folder-keyed groups: keys as character sequences.
pub open spec fn folder_groups_view(g: Seq<(String, Vec<SourceFile>)>) -> Seq<
    (Seq<char>, Seq<SourceFile>),
> {
    g.map_values(|e: (String, Vec<SourceFile>)| (e.0@, e.1@))
}

/// Mathematical view of role-keyed groups.
pub open spec fn type_groups_view(g: Seq<(FileType, Vec<SourceFile>)>) -> Seq<
    (FileType, Seq<SourceFile>),
> {
    g.map_values(|e: (FileType, Vec<SourceFile>)| (e.0, e.1@))
}

/// Mathematical view of folder-keyed groups of role-keyed groups.
pub open spec fn nested_groups_view(g: Seq<(String, Vec<(FileType, Vec<SourceFile>)>)>) -> Seq<
    (Seq<char>, Seq<(FileType, Seq<SourceFile>)>),
> {
    g.map_values(|e: (String, Vec<(FileType, Vec<SourceFile>)>)| (e.0@, type_groups_view(e.1@)))
}

/// Files grouped by the folder that directly holds them, keys in order of
/// first appearance, files in input order.
pub open spec fn group_by_folder(files: Seq<SourceFile>) -> Seq<(Seq<char>, Seq<SourceFile>)>
    decreases files.len(),
{
    if files.len() == 0 {
        Seq::empty()
    } else {
        groups_insert(
            group_by_folder(files.drop_last()),
            folder_of(files.last().path@),
            files.last(),
        )
    }
}

/// Files grouped by role, keys in order of first appearance.
pub open spec fn group_by_type(files: Seq<SourceFile>) -> Seq<(FileType, Seq<SourceFile>)>
    decreases files.len(),
{
    if files.len() == 0 {
        Seq::empty()
    } else {
        groups_insert(group_by_type(files.drop_last()), files.last().file_type, files.last())
    }
}

/// Grouping keys are unique: no folder occurs twice among the groups.
pub proof fn lemma_group_by_folder_distinct(files: Seq<SourceFile>)
    ensures
        distinct_keys(group_by_folder(files)),
    decreases files.len(),
{
    if files.len() > 0 {
        lemma_group_by_folder_distinct(files.drop_last());
        lemma_insert_preserves_distinct(
            group_by_folder(files.drop_last()),
            folder_of(files.last().path@),
            files.last(),
        );
    }
}

/// Grouping keys are unique: no role occurs twice among the groups.
pub proof fn lemma_group_by_type_distinct(files: Seq<SourceFile>)
    ensures
        distinct_keys(group_by_type(files)),
    decreases files.len(),
{
    if files.len() > 0 {
        lemma_group_by_type_distinct(files.drop_last());
        lemma_insert_preserves_distinct(
            group_by_type(files.drop_last()),
            files.last().file_type,
            files.last(),
        );
    }
}

/// The same classified files, grouped three ways for the consumers downstream.
#[derive(Debug)]
pub struct OrganizedFiles {
    /// folder path -> role -> files
    pub by_folder_and_type: Vec<(String, Vec<(FileType, Vec<SourceFile>)>)>,
    /// role -> files
    pub by_type: Vec<(FileType, Vec<SourceFile>)>,
    /// folder path -> files
    pub by_folder: Vec<(String, Vec<SourceFile>)>,
    /// the original flat list
    pub all_files: Vec<SourceFile>,
}

/// First index in `groups` whose key reads as `key`, or `groups.len()`.
fn find_folder_key(groups: &Vec<(String, Vec<SourceFile>)>, key: &str) -> (r: usize)
    ensures
        r == key_index(folder_groups_view(groups@), key@),
{
    let ghost gv = folder_groups_view(groups@);
    let n = groups.len();
    let mut j: usize = 0;
    while j < n
        invariant
            n == groups.len(),
            gv == folder_groups_view(groups@),
            j <= n,
            forall|jj: int| 0 <= jj < j ==> #[trigger] gv[jj].0 != key@,
        decreases n - j,
    {
        if str_eq(groups[j].0.as_str(), key) {
            proof {
                lemma_key_index_of(gv, key@, j as int);
            }
            return j;
        }
        j = j + 1;
    }
    proof {
        lemma_key_index_of(gv, key@, n as int);
    }
    n
}

/// First index in `groups` whose key is the role `key`, or `groups.len()`.
fn find_type_key(groups: &Vec<(FileType, Vec<SourceFile>)>, key: FileType) -> (r: usize)
    ensures
        r == key_index(type_groups_view(groups@), key),
{
    let ghost gv = type_groups_view(groups@);
    let n = groups.len();
    let mut j: usize = 0;
    while j < n
        invariant
            n == groups.len(),
            gv == type_groups_view(groups@),
            j <= n,
            forall|jj: int| 0 <= jj < j ==> #[trigger] gv[jj].0 != key,
        decreases n - j,
    {
        if groups[j].0 == key {
            proof {
                lemma_key_index_of(gv, key, j as int);
            }
            return j;
        }
        j = j + 1;
    }
    proof {
        lemma_key_index_of(gv, key, n as int);
    }
    n
}

/// First index in the nested grouping whose key reads as `key`.
fn find_nested_key(groups: &Vec<(String, Vec<(FileType, Vec<SourceFile>)>)>, key: &str) -> (r:
    usize)
    ensures
        r == key_index(nested_groups_view(groups@), key@),
{
    let ghost gv = nested_groups_view(groups@);
    let n = groups.len();
    let mut j: usize = 0;
    while j < n
        invariant
            n == groups.len(),
            gv == nested_groups_view(groups@),
            j <= n,
            forall|jj: int| 0 <= jj < j ==> #[trigger] gv[jj].0 != key@,
        decreases n - j,
    {
        if str_eq(groups[j].0.as_str(), key) {
            proof {
                lemma_key_index_of(gv, key@, j as int);
            }
            return j;
        }
        j = j + 1;
    }
    proof {
        lemma_key_index_of(gv, key@, n as int);
    }
    n
}

/// Appends `f` under the folder key `key`, opening the group if it is new.
fn insert_into_folder_groups(groups: &mut Vec<(String, Vec<SourceFile>)>, key: String, f: SourceFile)
    ensures
        folder_groups_view(final(groups)@) == groups_insert(
            folder_groups_view(old(groups)@),
            key@,
            f,
        ),
{
    let ghost gv = folder_groups_view(groups@);
    let j = find_folder_key(groups, key.as_str());
    proof {
        lemma_key_index(gv, key@);
    }
    if j < groups.len() {
        let mut entry = groups.remove(j);
        entry.1.push(f);
        groups.insert(j, entry);
        proof {
            assert(folder_groups_view(groups@) =~= gv.update(j as int, (key@, gv[j as int].1.push(f))));
        }
    } else {
        let mut fresh: Vec<SourceFile> = Vec::new();
        fresh.push(f);
        groups.push((key, fresh));
        proof {
            assert(folder_groups_view(groups@) =~= gv.push((key@, seq![f])));
        }
    }
}

/// Appends `f` under its role key, opening the group if it is new.
fn insert_into_type_groups(groups: &mut Vec<(FileType, Vec<SourceFile>)>, key: FileType, f: SourceFile)
    ensures
        type_groups_view(final(groups)@) == groups_insert(
            type_groups_view(old(groups)@),
            key,
            f,
        ),
{
    let ghost gv = type_groups_view(groups@);
    let j = find_type_key(groups, key);
    proof {
        lemma_key_index(gv, key);
    }
    if j < groups.len() {
        let mut entry = groups.remove(j);
        entry.1.push(f);
        groups.insert(j, entry);
        proof {
            assert(type_groups_view(groups@) =~= gv.update(j as int, (key, gv[j as int].1.push(f))));
        }
    } else {
        let mut fresh: Vec<SourceFile> = Vec::new();
        fresh.push(f);
        groups.push((key, fresh));
        proof {
            assert(type_groups_view(groups@) =~= gv.push((key, seq![f])));
        }
    }
}

/// Groups `files` by role, in order of first appearance.
fn group_files_by_type(files: &Vec<SourceFile>) -> (r: Vec<(FileType, Vec<SourceFile>)>)
    ensures
        type_groups_view(r@) == group_by_type(files@),
{
    let mut groups: Vec<(FileType, Vec<SourceFile>)> = Vec::new();
    let n = files.len();
    let mut i: usize = 0;
    while i < n
        invariant
            n == files.len(),
            i <= n,
            type_groups_view(groups@) == group_by_type(files@.take(i as int)),
        decreases n - i,
    {
        proof {
            assert(files@.take(i + 1).drop_last() =~= files@.take(i as int));
            assert(files@.take(i + 1).last() == files@[i as int]);
        }
        let f = files[i].duplicate();
        insert_into_type_groups(&mut groups, f.file_type, f);
        i = i + 1;
    }
    proof {
        assert(files@.take(n as int) =~= files@);
    }
    groups
}

impl OrganizedFiles {
    /// Groups the given files by folder, by role, and by both; `all_files`
    /// keeps the flat input list unchanged.
    pub fn from_files(files: Vec<SourceFile>) -> (r: OrganizedFiles)
        ensures
            r.all_files@ == files@,
            folder_groups_view(r.by_folder@) == group_by_folder(files@),
            type_groups_view(r.by_type@) == group_by_type(files@),
            nested_groups_view(r.by_folder_and_type@) == group_by_folder(files@).map_values(
                |e: (Seq<char>, Seq<SourceFile>)| (e.0, group_by_type(e.1)),
            ),
    {
        let mut by_folder: Vec<(String, Vec<SourceFile>)> = Vec::new();
        let mut by_type: Vec<(FileType, Vec<SourceFile>)> = Vec::new();
        let n = files.len();
        let mut i: usize = 0;
        while i < n
            invariant
                n == files.len(),
                i <= n,
                folder_groups_view(by_folder@) == group_by_folder(files@.take(i as int)),
                type_groups_view(by_type@) == group_by_type(files@.take(i as int)),
            decreases n - i,
        {
            proof {
                assert(files@.take(i + 1).drop_last() =~= files@.take(i as int));
                assert(files@.take(i + 1).last() == files@[i as int]);
            }
            let key = parent_folder(files[i].path.as_str());
            insert_into_folder_groups(&mut by_folder, key, files[i].duplicate());
            insert_into_type_groups(&mut by_type, files[i].file_type, files[i].duplicate());
            i = i + 1;
        }
        proof {
            assert(files@.take(n as int) =~= files@);
        }
        let ghost target = group_by_folder(files@).map_values(
            |e: (Seq<char>, Seq<SourceFile>)| (e.0, group_by_type(e.1)),
        );
        let mut by_folder_and_type: Vec<(String, Vec<(FileType, Vec<SourceFile>)>)> = Vec::new();
        let m = by_folder.len();
        let mut j: usize = 0;
        while j < m
            invariant
                m == by_folder.len(),
                j <= m,
                folder_groups_view(by_folder@) == group_by_folder(files@),
                target == group_by_folder(files@).map_values(
                    |e: (Seq<char>, Seq<SourceFile>)| (e.0, group_by_type(e.1)),
                ),
                nested_groups_view(by_folder_and_type@) == target.take(j as int),
            decreases m - j,
        {
            let ghost old_bft = by_folder_and_type@;
            let type_groups = group_files_by_type(&by_folder[j].1);
            by_folder_and_type.push((by_folder[j].0.clone(), type_groups));
            proof {
                let gbf = group_by_folder(files@);
                assert(target.len() == gbf.len());
                assert(folder_groups_view(by_folder@).len() == by_folder@.len());
                assert(nested_groups_view(old_bft).len() == old_bft.len());
                assert(nested_groups_view(old_bft) == target.take(j as int));
                assert(old_bft.len() == j as int);
                assert(by_folder_and_type@.len() == j + 1);
                assert(folder_groups_view(by_folder@)[j as int]
                    == (by_folder@[j as int].0@, by_folder@[j as int].1@));
                assert(gbf[j as int] == (by_folder@[j as int].0@, by_folder@[j as int].1@));
                assert(target[j as int] == (gbf[j as int].0, group_by_type(gbf[j as int].1)));
                assert forall|k: int| 0 <= k < j + 1 implies nested_groups_view(
                    by_folder_and_type@,
                )[k] == target.take(j + 1)[k] by {
                    assert(nested_groups_view(by_folder_and_type@)[k] == (
                        by_folder_and_type@[k].0@,
                        type_groups_view(by_folder_and_type@[k].1@),
                    ));
                    if k < j {
                        assert(by_folder_and_type@[k] == old_bft[k]);
                        assert(nested_groups_view(old_bft)[k] == (
                            old_bft[k].0@,
                            type_groups_view(old_bft[k].1@),
                        ));
                        assert(nested_groups_view(old_bft)[k] == target.take(j as int)[k]);
                    }
                }
                assert(nested_groups_view(by_folder_and_type@) =~= target.take(j + 1));
            }
            j = j + 1;
        }
        proof {
            assert(target.take(m as int) =~= target);
        }
        OrganizedFiles { by_folder_and_type, by_type, by_folder, all_files: files }
    }

    /// The files of one role, if any file carries it.
    pub fn get_files_by_type(&self, file_type: &FileType) -> (r: Option<&Vec<SourceFile>>)
        ensures
            match r {
                Some(v) => groups_lookup(type_groups_view(self.by_type@), *file_type) == Some(v@),
                None => groups_lookup(type_groups_view(self.by_type@), *file_type) is None,
            },
    {
        proof {
            lemma_key_index(type_groups_view(self.by_type@), *file_type);
        }
        let j = find_type_key(&self.by_type, *file_type);
        if j < self.by_type.len() {
            Some(&self.by_type[j].1)
        } else {
            None
        }
    }

    /// The files directly inside one folder, if the folder is known.
    pub fn get_files_by_folder(&self, folder_path: &str) -> (r: Option<&Vec<SourceFile>>)
        ensures
            match r {
                Some(v) => groups_lookup(folder_groups_view(self.by_folder@), folder_path@)
                    == Some(v@),
                None => groups_lookup(folder_groups_view(self.by_folder@), folder_path@) is None,
            },
    {
        proof {
            lemma_key_index(folder_groups_view(self.by_folder@), folder_path@);
        }
        let j = find_folder_key(&self.by_folder, folder_path);
        if j < self.by_folder.len() {
            Some(&self.by_folder[j].1)
        } else {
            None
        }
    }

    /// The files of one role directly inside one folder, if both are known.
    pub fn get_files_by_folder_and_type(&self, folder_path: &str, file_type: &FileType) -> (r:
        Option<&Vec<SourceFile>>)
        ensures
            match r {
                Some(v) => {
                    &&& groups_lookup(nested_groups_view(self.by_folder_and_type@), folder_path@)
                        is Some
                    &&& groups_lookup(
                        groups_lookup(
                            nested_groups_view(self.by_folder_and_type@),
                            folder_path@,
                        ).unwrap(),
                        *file_type,
                    ) == Some(v@)
                },
                None => {
                    ||| groups_lookup(nested_groups_view(self.by_folder_and_type@), folder_path@)
                        is None
                    ||| groups_lookup(
                        groups_lookup(
                            nested_groups_view(self.by_folder_and_type@),
                            folder_path@,
                        ).unwrap(),
                        *file_type,
                    ) is None
                },
            },
    {
        let ghost nv = nested_groups_view(self.by_folder_and_type@);
        proof {
            lemma_key_index(nv, folder_path@);
        }
        let j = find_nested_key(&self.by_folder_and_type, folder_path);
        if j < self.by_folder_and_type.len() {
            let inner = &self.by_folder_and_type[j].1;
            proof {
                assert(nv[j as int].1 == type_groups_view(inner@));
                lemma_key_index(type_groups_view(inner@), *file_type);
            }
            let t = find_type_key(inner, *file_type);
            if t < inner.len() {
                Some(&inner[t].1)
            } else {
                None
            }
        } else {
            None
        }
    }

    /// The flat list of every classified file, in discovery order.
    pub fn get_all_files(&self) -> (r: &Vec<SourceFile>)
        ensures
            r == &self.all_files,
    {
        &self.all_files
    }
}

} // verus!
