//! Path text helpers: character-exact string comparison, prefix tests for
//! descendant folders, and the parent-folder computation.
//!
//! Folder paths may have been produced with either forward-slash or backslash
//! separators, so every test here accepts both separator characters.

use vstd::prelude::*;
use vstd::string::StrSliceExecFns;

verus! {

/// A path separator: either convention may appear in folder-index keys.
pub open spec fn is_separator(c: char) -> bool {
    c == '/' || c == '\\'
}

/// `key` lies strictly below `target`: it extends `target` with a separator.
pub open spec fn is_strict_descendant(key: Seq<char>, target: Seq<char>) -> bool {
    &&& key.len() > target.len()
    &&& key.subrange(0, target.len() as int) == target
    &&& is_separator(key[target.len() as int])
}

/// `key` is `target` itself or a folder strictly below it.
pub open spec fn in_subtree(key: Seq<char>, target: Seq<char>) -> bool {
    key == target || is_strict_descendant(key, target)
}

/// Character-exact equality of two string slices.
pub fn str_eq(a: &str, b: &str) -> (r: bool)
    ensures
        r == (a@ == b@),
{
    let la = a.unicode_len();
    let lb = b.unicode_len();
    if la != lb {
        proof {
            assert(a@ != b@) by {
                if a@ == b@ {
                    assert(a@.len() == b@.len());
                }
            }
        }
        return false;
    }
    let mut i: usize = 0;
    while i < la
        invariant
            la == a@.len(),
            lb == b@.len(),
            la == lb,
            i <= la,
            forall|k: int| 0 <= k < i ==> a@[k] == b@[k],
        decreases la - i,
    {
        if a.get_char(i) != b.get_char(i) {
            return false;
        }
        i = i + 1;
    }
    proof {
        assert(a@ =~= b@);
    }
    true
}

/// Executable form of [`is_strict_descendant`].
pub fn is_strict_subpath(key: &str, target: &str) -> (r: bool)
    ensures
        r == is_strict_descendant(key@, target@),
{
    let lk = key.unicode_len();
    let lt = target.unicode_len();
    if lk <= lt {
        return false;
    }
    let mut i: usize = 0;
    while i < lt
        invariant
            lk == key@.len(),
            lt == target@.len(),
            lt < lk,
            i <= lt,
            forall|k: int| 0 <= k < i ==> key@[k] == target@[k],
        decreases lt - i,
    {
        if key.get_char(i) != target.get_char(i) {
            proof {
                assert(key@.subrange(0, target@.len() as int) != target@) by {
                    if key@.subrange(0, target@.len() as int) == target@ {
                        assert(key@.subrange(0, target@.len() as int)[i as int] == target@[i as int]);
                    }
                }
            }
            return false;
        }
        i = i + 1;
    }
    proof {
        assert(key@.subrange(0, target@.len() as int) =~= target@);
    }
    let c = key.get_char(lt);
    c == '/' || c == '\\'
}

/// Index of the last separator in `path`, or `-1` when none occurs.
pub open spec fn last_separator_index(path: Seq<char>) -> int
    decreases path.len(),
{
    if path.len() == 0 {
        -1
    } else if is_separator(path.last()) {
        path.len() - 1
    } else {
        last_separator_index(path.drop_last())
    }
}

/// The folder that directly holds `path`: everything before the last
/// separator, or the empty path when `path` has no separator.
pub open spec fn folder_of(path: Seq<char>) -> Seq<char> {
    if last_separator_index(path) < 0 {
        Seq::empty()
    } else {
        path.subrange(0, last_separator_index(path))
    }
}

proof fn lemma_last_separator_bounds(path: Seq<char>)
    ensures
        -1 <= last_separator_index(path) < path.len(),
        last_separator_index(path) >= 0 ==> is_separator(path[last_separator_index(path)]),
        forall|k: int| last_separator_index(path) < k < path.len() ==> !is_separator(path[k]),
    decreases path.len(),
{
    if path.len() == 0 {
    } else if is_separator(path.last()) {
    } else {
        lemma_last_separator_bounds(path.drop_last());
        assert(forall|k: int|
            0 <= k < path.len() - 1 ==> path[k] == path.drop_last()[k]);
    }
}

/// `last_separator_index` is pinned by its characterisation: the last
/// position holding a separator, with none after it.
proof fn lemma_last_separator_of(path: Seq<char>, i: int)
    requires
        -1 <= i < path.len(),
        i >= 0 ==> is_separator(path[i]),
        forall|k: int| i < k < path.len() ==> !is_separator(path[k]),
    ensures
        last_separator_index(path) == i,
    decreases path.len(),
{
    if path.len() == 0 {
    } else if is_separator(path.last()) {
        assert(i == path.len() - 1);
    } else {
        assert(i < path.len() - 1);
        assert(forall|k: int|
            0 <= k < path.len() - 1 ==> path.drop_last()[k] == path[k]);
        lemma_last_separator_of(path.drop_last(), i);
    }
}

/// The folder part of a file path, with both separator conventions accepted.
pub fn parent_folder(path: &str) -> (r: String)
    ensures
        r@ == folder_of(path@),
{
    let len = path.unicode_len();
    let mut j: usize = len;
    while j > 0
        invariant
            len == path@.len(),
            j <= len,
            forall|k: int| j <= k < len ==> !is_separator(path@[k]),
        decreases j,
    {
        let c = path.get_char(j - 1);
        if c == '/' || c == '\\' {
            proof {
                lemma_last_separator_of(path@, j - 1);
            }
            let prefix = path.substring_char(0, j - 1);
            return prefix.to_owned();
        }
        j = j - 1;
    }
    proof {
        lemma_last_separator_of(path@, -1);
        assert(folder_of(path@) =~= Seq::<char>::empty());
    }
    String::new()
}

} // verus!
