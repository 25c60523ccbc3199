//! The subtree resolution algorithm: given the folder index and a logical
//! subtree path, decide whether the subtree exists, whether it has nested
//! subfolders, and collect its source files and its linker script.
//!
//! A subtree with nested subfolders contributes its own files and every
//! descendant folder's files; a subtree without nested subfolders is a leaf
//! and contributes exactly its direct files. Within the collected files the
//! first linker script in index order wins, deterministically; the sources
//! keep every non-linker, non-unknown file, deduplicated by path.

use vstd::prelude::*;
use vstd::string::StringExecFns;
use crate::directory_manager::FolderIndex;
use crate::file_organizer::{FileType, SourceFile};
use crate::grouping::{
    distinct_keys, groups_has_key, groups_lookup, key_index, lemma_key_index, lemma_key_index_of,
};
use crate::paths::{in_subtree, is_strict_descendant, is_strict_subpath, str_eq};

verus! {

/// What one resolved subtree owns: its source files (no linker scripts, no
/// unknown roles, no duplicated paths) and its linker script, if it has one.
#[derive(Debug)]
pub struct SubtreeResult {
    pub sources: Vec<SourceFile>,
    pub linker_script: Option<SourceFile>,
}

/// One requested subtree: its logical name, its path relative to the project
/// root, and whether the build requires it to own a linker script.
#[derive(Debug)]
pub struct SubtreeRequest {
    pub name: String,
    pub relative_path: String,
    pub linker_required: bool,
}

/// The first precondition that failed while resolving a list of subtrees.
#[derive(Debug)]
pub enum FatalError {
    /// The named subtree's folder is absent from the index.
    SubtreeNotFound { name: String },
    /// The named subtree exists but owns no linker script, though it must.
    LinkerScriptMissing { name: String },
}

/// Every requested subtree, resolved; names keep the request order.
#[derive(Debug)]
pub struct BuildSubtreeDirectory {
    pub entries: Vec<(String, SubtreeResult)>,
}

/// The files directly under `key`, or nothing when `key` is not in the index.
pub open spec fn files_of(v: Seq<(Seq<char>, Seq<SourceFile>)>, key: Seq<char>) -> Seq<SourceFile> {
    match groups_lookup(v, key) {
        Some(files) => files,
        None => Seq::empty(),
    }
}

/// Some folder in the index lies strictly below `target`.
pub open spec fn has_descendant(v: Seq<(Seq<char>, Seq<SourceFile>)>, target: Seq<char>) -> bool {
    exists|i: int| 0 <= i < v.len() && is_strict_descendant(v[i].0, target)
}

/// All files of all folders in (or below) `target`, in index order.
pub open spec fn collected(v: Seq<(Seq<char>, Seq<SourceFile>)>, target: Seq<char>) -> Seq<
    SourceFile,
>
    decreases v.len(),
{
    if v.len() == 0 {
        Seq::empty()
    } else {
        collected(v.drop_last(), target) + (if in_subtree(v.last().0, target) {
            v.last().1
        } else {
            Seq::empty()
        })
    }
}

/// The first file of role `Linker`, in order.
pub open spec fn first_linker(files: Seq<SourceFile>) -> Option<SourceFile>
    decreases files.len(),
{
    if files.len() == 0 {
        None
    } else if files.first().file_type == FileType::Linker {
        Some(files.first())
    } else {
        first_linker(files.drop_first())
    }
}

/// A linker choice already made stands; otherwise the first in `files` wins.
pub open spec fn linker_after(cur: Option<SourceFile>, files: Seq<SourceFile>) -> Option<
    SourceFile,
> {
    if cur is Some {
        cur
    } else {
        first_linker(files)
    }
}

/// A file that belongs among a subtree's sources: neither a linker script
/// nor an unrecognized file.
pub open spec fn is_source_role(f: SourceFile) -> bool {
    f.file_type != FileType::Linker && f.file_type != FileType::Unknown
}

/// Some file in `files` has the path `p`.
pub open spec fn contains_path(files: Seq<SourceFile>, p: Seq<char>) -> bool {
    exists|i: int| 0 <= i < files.len() && files[i].path@ == p
}

/// The source files among `files`, keeping the first file of each path.
pub open spec fn sources_of(files: Seq<SourceFile>) -> Seq<SourceFile>
    decreases files.len(),
{
    if files.len() == 0 {
        Seq::empty()
    } else {
        let prior = sources_of(files.drop_last());
        if is_source_role(files.last()) && !contains_path(prior, files.last().path@) {
            prior.push(files.last())
        } else {
            prior
        }
    }
}

/// The absolute folder path of a request, index-key style.
pub open spec fn req_target(root: Seq<char>, req: SubtreeRequest) -> Seq<char> {
    root + req.relative_path@
}

/// The request cannot be satisfied: its folder is missing, or it requires a
/// linker script and the subtree owns none.
pub open spec fn req_fails(
    v: Seq<(Seq<char>, Seq<SourceFile>)>,
    root: Seq<char>,
    req: SubtreeRequest,
) -> bool {
    ||| !groups_has_key(v, req_target(root, req))
    ||| (req.linker_required && first_linker(collected(v, req_target(root, req))) is None)
}

/// The error names the failing subtree and states the precondition it broke.
pub open spec fn error_reports(
    e: FatalError,
    v: Seq<(Seq<char>, Seq<SourceFile>)>,
    root: Seq<char>,
    req: SubtreeRequest,
) -> bool {
    match e {
        FatalError::SubtreeNotFound { name } => {
            &&& name@ == req.name@
            &&& !groups_has_key(v, req_target(root, req))
        },
        FatalError::LinkerScriptMissing { name } => {
            &&& name@ == req.name@
            &&& groups_has_key(v, req_target(root, req))
            &&& req.linker_required
            &&& first_linker(collected(v, req_target(root, req))) is None
        },
    }
}

/// The target folder appears as a key of the index.
pub fn directory_exists(target_path: &str, file_list: &FolderIndex) -> (r: bool)
    ensures
        r == groups_has_key(file_list@, target_path@),
{
    let ghost v = file_list@;
    let n = file_list.len();
    let mut j: usize = 0;
    while j < n
        invariant
            v == file_list@,
            n == v.len(),
            j <= n,
            forall|jj: int| 0 <= jj < j ==> #[trigger] v[jj].0 != target_path@,
        decreases n - j,
    {
        if str_eq(file_list.folder_path_at(j).as_str(), target_path) {
            proof {
                lemma_key_index_of(v, target_path@, j as int);
            }
            return true;
        }
        j = j + 1;
    }
    proof {
        lemma_key_index_of(v, target_path@, n as int);
    }
    false
}

/// Some indexed folder lies strictly below the target folder.
pub fn has_subdirectories(target_path: &str, file_list: &FolderIndex) -> (r: bool)
    ensures
        r == has_descendant(file_list@, target_path@),
{
    let ghost v = file_list@;
    let n = file_list.len();
    let mut j: usize = 0;
    while j < n
        invariant
            v == file_list@,
            n == v.len(),
            j <= n,
            forall|jj: int| 0 <= jj < j ==> !is_strict_descendant(#[trigger] v[jj].0, target_path@),
        decreases n - j,
    {
        if is_strict_subpath(file_list.folder_path_at(j).as_str(), target_path) {
            return true;
        }
        j = j + 1;
    }
    false
}

/// `first_linker` splits over concatenation: an earlier find stands.
proof fn lemma_first_linker_concat(a: Seq<SourceFile>, b: Seq<SourceFile>)
    ensures
        first_linker(a + b) == (if first_linker(a) is Some {
            first_linker(a)
        } else {
            first_linker(b)
        }),
    decreases a.len(),
{
    if a.len() == 0 {
        assert(a + b =~= b);
    } else {
        assert((a + b).drop_first() =~= a.drop_first() + b);
        assert((a + b).first() == a.first());
        lemma_first_linker_concat(a.drop_first(), b);
    }
}

/// Appends every file of one folder to the collected sources, and keeps the
/// first linker script seen so far.
fn append_directory_files(
    files: &Vec<SourceFile>,
    all_sources: &mut Vec<SourceFile>,
    linker_script: &mut Option<SourceFile>,
)
    ensures
        final(all_sources)@ == old(all_sources)@ + files@,
        *final(linker_script) == linker_after(*old(linker_script), files@),
{
    let ghost base = all_sources@;
    let ghost base_linker = *linker_script;
    let n = files.len();
    let mut k: usize = 0;
    while k < n
        invariant
            n == files@.len(),
            k <= n,
            all_sources@ == base + files@.take(k as int),
            *linker_script == linker_after(base_linker, files@.take(k as int)),
        decreases n - k,
    {
        proof {
            assert(files@.take(k + 1) =~= files@.take(k as int) + seq![files@[k as int]]);
            lemma_first_linker_concat(files@.take(k as int), seq![files@[k as int]]);
            assert(first_linker(seq![files@[k as int]]) == (if files@[k as int].file_type
                == FileType::Linker {
                Some(files@[k as int])
            } else {
                None::<SourceFile>
            })) by {
                let s = seq![files@[k as int]];
                assert(s.len() == 1);
                assert(s.first() == files@[k as int]);
                if s.first().file_type != FileType::Linker {
                    assert(s.drop_first().len() == 0);
                    assert(first_linker(s.drop_first()) is None);
                }
            }
            assert(base + files@.take(k + 1) =~= (base + files@.take(k as int)).push(
                files@[k as int],
            ));
        }
        let f = &files[k];
        all_sources.push(f.duplicate());
        if linker_script.is_none() && f.file_type == FileType::Linker {
            *linker_script = Some(f.duplicate());
        }
        k = k + 1;
    }
    proof {
        assert(files@.take(n as int) =~= files@);
    }
}

/// Collects the files listed directly under `exact_path`, if that folder is
/// indexed; folders below it contribute nothing here.
pub fn collect_files_from_directory(
    exact_path: &str,
    file_list: &FolderIndex,
    all_sources: &mut Vec<SourceFile>,
    linker_script: &mut Option<SourceFile>,
)
    ensures
        final(all_sources)@ == old(all_sources)@ + files_of(file_list@, exact_path@),
        *final(linker_script) == linker_after(
            *old(linker_script),
            files_of(file_list@, exact_path@),
        ),
{
    let ghost v = file_list@;
    let n = file_list.len();
    let mut j: usize = 0;
    while j < n
        invariant
            v == file_list@,
            n == v.len(),
            j <= n,
            all_sources@ == old(all_sources)@,
            *linker_script == *old(linker_script),
            forall|jj: int| 0 <= jj < j ==> #[trigger] v[jj].0 != exact_path@,
        decreases n - j,
    {
        if str_eq(file_list.folder_path_at(j).as_str(), exact_path) {
            proof {
                lemma_key_index_of(v, exact_path@, j as int);
            }
            let files = file_list.files_at(j);
            append_directory_files(files, all_sources, linker_script);
            return;
        }
        j = j + 1;
    }
    proof {
        lemma_key_index_of(v, exact_path@, n as int);
        assert(files_of(v, exact_path@) =~= Seq::<SourceFile>::empty());
        assert(old(all_sources)@ + files_of(v, exact_path@) =~= old(all_sources)@);
    }
}

/// Collects the files of `current_path` and of every indexed folder strictly
/// below it, in index order.
pub fn collect_files_recursive(
    current_path: &str,
    file_list: &FolderIndex,
    all_sources: &mut Vec<SourceFile>,
    linker_script: &mut Option<SourceFile>,
)
    ensures
        final(all_sources)@ == old(all_sources)@ + collected(file_list@, current_path@),
        *final(linker_script) == linker_after(
            *old(linker_script),
            collected(file_list@, current_path@),
        ),
{
    let ghost v = file_list@;
    let n = file_list.len();
    let mut j: usize = 0;
    while j < n
        invariant
            v == file_list@,
            n == v.len(),
            j <= n,
            all_sources@ == old(all_sources)@ + collected(v.take(j as int), current_path@),
            *linker_script == linker_after(
                *old(linker_script),
                collected(v.take(j as int), current_path@),
            ),
        decreases n - j,
    {
        proof {
            assert(v.take(j + 1).drop_last() =~= v.take(j as int));
            assert(v.take(j + 1).last() == v[j as int]);
        }
        let key = file_list.folder_path_at(j);
        let matches_here = str_eq(key.as_str(), current_path) || is_strict_subpath(
            key.as_str(),
            current_path,
        );
        if matches_here {
            let files = file_list.files_at(j);
            proof {
                lemma_first_linker_concat(collected(v.take(j as int), current_path@), files@);
                assert(old(all_sources)@ + collected(v.take(j + 1), current_path@) =~= (old(
                    all_sources,
                )@ + collected(v.take(j as int), current_path@)) + files@);
            }
            append_directory_files(files, all_sources, linker_script);
        } else {
            proof {
                assert(collected(v.take(j + 1), current_path@) =~= collected(
                    v.take(j as int),
                    current_path@,
                ));
            }
        }
        j = j + 1;
    }
    proof {
        assert(v.take(n as int) =~= v);
    }
}

/// Some already-kept file carries the path `p`.
fn knows_path(files: &Vec<SourceFile>, p: &str) -> (r: bool)
    ensures
        r == contains_path(files@, p@),
{
    let n = files.len();
    let mut j: usize = 0;
    while j < n
        invariant
            n == files@.len(),
            j <= n,
            forall|jj: int| 0 <= jj < j ==> (#[trigger] files@[jj]).path@ != p@,
        decreases n - j,
    {
        if str_eq(files[j].path.as_str(), p) {
            assert(files@[j as int].path@ == p@);
            return true;
        }
        j = j + 1;
    }
    false
}

/// Keeps the source-role files, dropping linker scripts, unknown-role files,
/// and any file whose path was already kept.
fn filter_sources(files: &Vec<SourceFile>) -> (r: Vec<SourceFile>)
    ensures
        r@ == sources_of(files@),
{
    let mut out: Vec<SourceFile> = Vec::new();
    let n = files.len();
    let mut i: usize = 0;
    while i < n
        invariant
            n == files@.len(),
            i <= n,
            out@ == sources_of(files@.take(i as int)),
        decreases n - i,
    {
        proof {
            assert(files@.take(i + 1).drop_last() =~= files@.take(i as int));
            assert(files@.take(i + 1).last() == files@[i as int]);
        }
        let f = &files[i];
        if f.file_type != FileType::Linker && f.file_type != FileType::Unknown {
            if !knows_path(&out, f.path.as_str()) {
                out.push(f.duplicate());
            }
        }
        i = i + 1;
    }
    proof {
        assert(files@.take(n as int) =~= files@);
    }
    out
}

/// In an index with unique keys and no folder strictly below `target`, the
/// collected files are exactly the files listed directly under `target`:
/// sibling folders never leak in.
pub proof fn lemma_leaf_collected(v: Seq<(Seq<char>, Seq<SourceFile>)>, target: Seq<char>)
    requires
        distinct_keys(v),
        !has_descendant(v, target),
    ensures
        collected(v, target) == files_of(v, target),
    decreases v.len(),
{
    lemma_key_index(v, target);
    if v.len() == 0 {
        assert(collected(v, target) =~= files_of(v, target));
    } else {
        let u = v.drop_last();
        let e = v.last();
        assert(forall|i: int| 0 <= i < u.len() ==> u[i] == v[i]);
        assert(!has_descendant(u, target)) by {
            if has_descendant(u, target) {
                let i = choose|i: int| 0 <= i < u.len() && is_strict_descendant(u[i].0, target);
                assert(is_strict_descendant(v[i].0, target));
            }
        }
        lemma_leaf_collected(u, target);
        lemma_key_index(u, target);
        if in_subtree(e.0, target) {
            assert(!is_strict_descendant(e.0, target));
            assert(e.0 == target);
            assert(forall|j: int| 0 <= j < u.len() ==> #[trigger] u[j].0 != target);
            lemma_key_index_of(u, target, u.len() as int);
            assert(files_of(u, target) =~= Seq::<SourceFile>::empty());
            lemma_key_index_of(v, target, v.len() - 1);
            assert(files_of(v, target) == e.1);
            assert(collected(v, target) =~= e.1);
        } else {
            assert(collected(v, target) =~= collected(u, target));
            if groups_has_key(u, target) {
                let i = key_index(u, target);
                lemma_key_index_of(v, target, i);
                assert(files_of(v, target) == files_of(u, target));
            } else {
                assert(forall|j: int| 0 <= j < u.len() ==> #[trigger] u[j].0 != target);
                lemma_key_index_of(v, target, v.len() as int);
                assert(files_of(v, target) =~= files_of(u, target));
            }
        }
    }
}

/// Resolves one subtree: `None` exactly when the target folder is absent
/// from the index; otherwise the deduplicated source files and the first
/// linker script of the subtree, in index order.
pub fn resolve(
    subtree_relative_path: &str,
    file_list: &FolderIndex,
    project_src_root: &str,
) -> (r: Option<SubtreeResult>)
    ensures
        match r {
            Some(res) => {
                &&& groups_has_key(file_list@, project_src_root@ + subtree_relative_path@)
                &&& res.sources@ == sources_of(
                    collected(file_list@, project_src_root@ + subtree_relative_path@),
                )
                &&& res.linker_script == first_linker(
                    collected(file_list@, project_src_root@ + subtree_relative_path@),
                )
            },
            None => !groups_has_key(file_list@, project_src_root@ + subtree_relative_path@),
        },
{
    let target = project_src_root.to_owned().concat(subtree_relative_path);
    let ghost tv = project_src_root@ + subtree_relative_path@;
    if !directory_exists(target.as_str(), file_list) {
        return None;
    }
    file_list.folder_keys_distinct();
    let mut all_sources: Vec<SourceFile> = Vec::new();
    let mut linker_script: Option<SourceFile> = None;
    if has_subdirectories(target.as_str(), file_list) {
        collect_files_recursive(target.as_str(), file_list, &mut all_sources, &mut linker_script);
    } else {
        collect_files_from_directory(
            target.as_str(),
            file_list,
            &mut all_sources,
            &mut linker_script,
        );
        proof {
            lemma_leaf_collected(file_list@, tv);
        }
    }
    proof {
        assert(Seq::<SourceFile>::empty() + collected(file_list@, tv) =~= collected(
            file_list@,
            tv,
        ));
    }
    let sources = filter_sources(&all_sources);
    Some(SubtreeResult { sources, linker_script })
}

/// Resolves every requested subtree in list order, failing fast: the first
/// missing subtree or missing required linker script stops the run, and the
/// error names that subtree; no later request is examined.
pub fn resolve_all(
    requests: &Vec<SubtreeRequest>,
    file_list: &FolderIndex,
    project_src_root: &str,
) -> (r: Result<BuildSubtreeDirectory, FatalError>)
    ensures
        match r {
            Ok(dir) => {
                &&& dir.entries@.len() == requests@.len()
                &&& forall|i: int|
                    0 <= i < requests@.len() ==> !req_fails(
                        file_list@,
                        project_src_root@,
                        #[trigger] requests@[i],
                    )
                &&& forall|i: int|
                    0 <= i < requests@.len() ==> {
                        &&& (#[trigger] dir.entries@[i]).0@ == requests@[i].name@
                        &&& dir.entries@[i].1.sources@ == sources_of(
                            collected(file_list@, req_target(project_src_root@, requests@[i])),
                        )
                        &&& dir.entries@[i].1.linker_script == first_linker(
                            collected(file_list@, req_target(project_src_root@, requests@[i])),
                        )
                    }
            },
            Err(e) => exists|i: int|
                {
                    &&& 0 <= i < requests@.len()
                    &&& req_fails(file_list@, project_src_root@, #[trigger] requests@[i])
                    &&& forall|j: int|
                        0 <= j < i ==> !req_fails(
                            file_list@,
                            project_src_root@,
                            #[trigger] requests@[j],
                        )
                    &&& error_reports(e, file_list@, project_src_root@, requests@[i])
                },
        },
{
    let ghost v = file_list@;
    let ghost root = project_src_root@;
    let mut entries: Vec<(String, SubtreeResult)> = Vec::new();
    let n = requests.len();
    let mut k: usize = 0;
    while k < n
        invariant
            v == file_list@,
            root == project_src_root@,
            n == requests@.len(),
            k <= n,
            entries@.len() == k,
            forall|i: int| 0 <= i < k ==> !req_fails(v, root, #[trigger] requests@[i]),
            forall|i: int|
                0 <= i < k ==> {
                    &&& (#[trigger] entries@[i]).0@ == requests@[i].name@
                    &&& entries@[i].1.sources@ == sources_of(
                        collected(v, req_target(root, requests@[i])),
                    )
                    &&& entries@[i].1.linker_script == first_linker(
                        collected(v, req_target(root, requests@[i])),
                    )
                },
        decreases n - k,
    {
        let req = &requests[k];
        match resolve(req.relative_path.as_str(), file_list, project_src_root) {
            None => {
                proof {
                    assert(req_fails(v, root, requests@[k as int]));
                }
                return Err(FatalError::SubtreeNotFound { name: req.name.clone() });
            },
            Some(result) => {
                if req.linker_required && result.linker_script.is_none() {
                    proof {
                        assert(req_fails(v, root, requests@[k as int]));
                    }
                    return Err(FatalError::LinkerScriptMissing { name: req.name.clone() });
                }
                entries.push((req.name.clone(), result));
            },
        }
        k = k + 1;
    }
    Ok(BuildSubtreeDirectory { entries })
}

/// Linker-script selection is deterministic: the chosen script is the first
/// file of role `Linker` in order — every file before it has another role —
/// and `None` is returned only when no file has that role.
pub proof fn lemma_linker_selection(files: Seq<SourceFile>)
    ensures
        match first_linker(files) {
            Some(f) => {
                &&& f.file_type == FileType::Linker
                &&& exists|i: int|
                    0 <= i < files.len() && #[trigger] files[i] == f && (forall|j: int|
                        0 <= j < i ==> (#[trigger] files[j]).file_type != FileType::Linker)
            },
            None => forall|i: int|
                0 <= i < files.len() ==> (#[trigger] files[i]).file_type != FileType::Linker,
        },
    decreases files.len(),
{
    if files.len() == 0 {
    } else if files.first().file_type == FileType::Linker {
        let f = files.first();
        assert(files[0] == f);
        assert(0 <= 0 < files.len() && files[0] == f && (forall|j: int|
            0 <= j < 0 ==> (#[trigger] files[j]).file_type != FileType::Linker));
    } else {
        let rest = files.drop_first();
        lemma_linker_selection(rest);
        assert(forall|j: int| 0 <= j < rest.len() ==> rest[j] == files[j + 1]);
        match first_linker(files) {
            Some(f) => {
                let i = choose|i: int|
                    0 <= i < rest.len() && #[trigger] rest[i] == f && (forall|j: int|
                        0 <= j < i ==> (#[trigger] rest[j]).file_type != FileType::Linker);
                assert(files[i + 1] == f);
                assert forall|j: int| 0 <= j < i + 1 implies (#[trigger] files[j]).file_type
                    != FileType::Linker by {
                    if j >= 1 {
                        assert(files[j] == rest[j - 1]);
                    }
                }
                assert(0 <= i + 1 < files.len() && files[i + 1] == f && (forall|j: int|
                    0 <= j < i + 1 ==> (#[trigger] files[j]).file_type != FileType::Linker));
            },
            None => {
                assert forall|i: int| 0 <= i < files.len() implies (#[trigger] files[i]).file_type
                    != FileType::Linker by {
                    if i >= 1 {
                        assert(files[i] == rest[i - 1]);
                    }
                }
            },
        }
    }
}

/// No two resolved sources share a path: the first file of each path is kept
/// and every later file of that path is dropped.
pub proof fn lemma_sources_distinct_paths(files: Seq<SourceFile>)
    ensures
        forall|i: int, j: int|
            0 <= i < j < sources_of(files).len() ==> (#[trigger] sources_of(files)[i]).path@ != (
            #[trigger] sources_of(files)[j]).path@,
    decreases files.len(),
{
    if files.len() > 0 {
        lemma_sources_distinct_paths(files.drop_last());
        let prior = sources_of(files.drop_last());
        let s = sources_of(files);
        let f = files.last();
        if is_source_role(f) && !contains_path(prior, f.path@) {
            assert forall|i: int, j: int| 0 <= i < j < s.len() implies (#[trigger] s[i]).path@ != (
            #[trigger] s[j]).path@ by {
                if j < s.len() - 1 {
                    assert(s[i] == prior[i]);
                    assert(s[j] == prior[j]);
                } else {
                    assert(s[i] == prior[i]);
                    assert(s[j] == f);
                    assert(prior[i].path@ != f.path@) by {
                        if prior[i].path@ == f.path@ {
                            assert(contains_path(prior, f.path@));
                        }
                    }
                }
            }
        }
    }
}

/// Every resolved source is one of the collected files, with a source role:
/// linker scripts and unknown-role files never reach the source set.
pub proof fn lemma_sources_sound(files: Seq<SourceFile>)
    ensures
        forall|i: int|
            0 <= i < sources_of(files).len() ==> is_source_role(#[trigger] sources_of(files)[i])
                && files.contains(sources_of(files)[i]),
    decreases files.len(),
{
    if files.len() > 0 {
        lemma_sources_sound(files.drop_last());
        let prior = sources_of(files.drop_last());
        let s = sources_of(files);
        let f = files.last();
        assert forall|i: int| 0 <= i < s.len() implies is_source_role(#[trigger] s[i])
            && files.contains(s[i]) by {
            if i < prior.len() {
                assert(s[i] == prior[i]);
                let w = choose|w: int|
                    0 <= w < files.drop_last().len() && files.drop_last()[w] == prior[i];
                assert(files[w] == prior[i]);
            } else {
                assert(s[i] == f);
                assert(files[files.len() - 1] == f);
            }
        }
    }
}

/// Every collected file of a source role is represented in the resolved
/// sources by a file of the same path: nothing is lost, only deduplicated.
pub proof fn lemma_sources_complete(files: Seq<SourceFile>)
    ensures
        forall|i: int|
            0 <= i < files.len() && is_source_role(#[trigger] files[i]) ==> contains_path(
                sources_of(files),
                files[i].path@,
            ),
    decreases files.len(),
{
    if files.len() > 0 {
        lemma_sources_complete(files.drop_last());
        let prior = sources_of(files.drop_last());
        let s = sources_of(files);
        let f = files.last();
        assert(prior.len() <= s.len());
        assert(forall|w: int| 0 <= w < prior.len() ==> s[w] == prior[w]);
        assert forall|i: int| 0 <= i < files.len() && is_source_role(#[trigger] files[i]) implies
            contains_path(s, files[i].path@) by {
            if i < files.len() - 1 {
                assert(files.drop_last()[i] == files[i]);
                let w = choose|w: int| 0 <= w < prior.len() && prior[w].path@ == files[i].path@;
                assert(s[w].path@ == files[i].path@);
            } else {
                if contains_path(prior, f.path@) {
                    let w = choose|w: int| 0 <= w < prior.len() && prior[w].path@ == f.path@;
                    assert(s[w].path@ == f.path@);
                } else {
                    assert(s[s.len() - 1] == f);
                }
            }
        }
    }
}

/// Every collected file comes from a folder of the subtree: the target
/// folder itself or one strictly below it.
pub proof fn lemma_collected_sound(v: Seq<(Seq<char>, Seq<SourceFile>)>, target: Seq<char>)
    ensures
        forall|x: SourceFile|
            #[trigger] collected(v, target).contains(x) ==> exists|i: int|
                0 <= i < v.len() && in_subtree(v[i].0, target) && #[trigger] v[i].1.contains(x),
    decreases v.len(),
{
    if v.len() > 0 {
        let u = v.drop_last();
        let e = v.last();
        lemma_collected_sound(u, target);
        let c = collected(v, target);
        let cu = collected(u, target);
        assert(forall|i: int| 0 <= i < u.len() ==> u[i] == v[i]);
        assert forall|x: SourceFile| #[trigger] c.contains(x) implies exists|i: int|
            0 <= i < v.len() && in_subtree(v[i].0, target) && #[trigger] v[i].1.contains(x) by {
            let w = choose|w: int| 0 <= w < c.len() && c[w] == x;
            if w < cu.len() {
                assert(cu[w] == x);
                assert(cu.contains(x));
                let i = choose|i: int|
                    0 <= i < u.len() && in_subtree(u[i].0, target) && #[trigger] u[i].1.contains(x);
                assert(v[i].1.contains(x));
            } else {
                assert(in_subtree(e.0, target));
                assert(e.1[w - cu.len()] == x);
                assert(v[v.len() - 1].1.contains(x));
                assert(in_subtree(v[v.len() - 1].0, target));
            }
        }
    } else {
        assert(collected(v, target).len() == 0);
    }
}

/// Every file of every folder in the subtree is collected: the collection is
/// the union of the target folder's direct files and all files of the
/// folders strictly below it.
pub proof fn lemma_collected_complete(v: Seq<(Seq<char>, Seq<SourceFile>)>, target: Seq<char>)
    ensures
        forall|i: int, j: int|
            0 <= i < v.len() && 0 <= j < v[i].1.len() && in_subtree(v[i].0, target) ==> collected(
                v,
                target,
            ).contains(#[trigger] v[i].1[j]),
    decreases v.len(),
{
    if v.len() > 0 {
        let u = v.drop_last();
        let e = v.last();
        lemma_collected_complete(u, target);
        let c = collected(v, target);
        let cu = collected(u, target);
        assert(forall|i: int| 0 <= i < u.len() ==> u[i] == v[i]);
        assert(forall|k: int| 0 <= k < cu.len() ==> c[k] == cu[k]);
        assert forall|i: int, j: int|
            0 <= i < v.len() && 0 <= j < v[i].1.len() && in_subtree(v[i].0, target) implies c
            .contains(#[trigger] v[i].1[j]) by {
            if i < v.len() - 1 {
                assert(cu.contains(u[i].1[j]));
                let w = choose|w: int| 0 <= w < cu.len() && cu[w] == u[i].1[j];
                assert(c[w] == v[i].1[j]);
            } else {
                assert(c[cu.len() + j] == e.1[j]);
            }
        }
    }
}

} // verus!
