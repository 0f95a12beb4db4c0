//! Decisions that file operations make between their system calls: which
//! removal a path needs, how a tree is copied, which remote names are real
//! children, how remote child paths are spelled, and when a file is too big
//! to preview.

use vstd::prelude::*;
use crate::text::{chars_of, concat_chars, decimal, decimal_text, string_from_chars};

verus! {

/// How a path is removed.
#[derive(PartialEq, Eq, Structural)]
pub enum DeleteAction {
    /// A Windows link to a directory (a directory symlink or junction):
    /// remove the link itself (`remove_dir`).
    RemoveLinkDir,
    /// Any other link: remove the link itself (`remove_file`).
    RemoveLinkFile,
    /// A directory: remove it with everything in it.
    RemoveTree,
    /// A file.
    RemoveFile,
}

/// Links are removed as links, never followed: on Windows a link to a
/// directory is removed as a directory entry, everywhere else every link is
/// removed as a file. Directories are removed with their contents; anything
/// else is removed as a file.
pub fn delete_action(is_link: bool, is_dir: bool, windows: bool) -> (a: DeleteAction)
    ensures
        a == (if is_link {
            if is_dir && windows {
                DeleteAction::RemoveLinkDir
            } else {
                DeleteAction::RemoveLinkFile
            }
        } else if is_dir {
            DeleteAction::RemoveTree
        } else {
            DeleteAction::RemoveFile
        }),
{
    if is_link {
        if is_dir && windows {
            DeleteAction::RemoveLinkDir
        } else {
            DeleteAction::RemoveLinkFile
        }
    } else if is_dir {
        DeleteAction::RemoveTree
    } else {
        DeleteAction::RemoveFile
    }
}

/// How an entry inside a copied directory is copied.
#[derive(PartialEq, Eq, Structural)]
pub enum CopyAction {
    /// Recreate the link, pointing where the original points.
    Link,
    /// Create the directory and copy its entries.
    Tree,
    /// Copy the file's contents.
    File,
}

/// Links are recreated rather than followed; directories are copied entry by
/// entry; anything else is copied as a file.
pub fn copy_action(is_link: bool, is_dir: bool) -> (a: CopyAction)
    ensures
        a == (if is_link {
            CopyAction::Link
        } else if is_dir {
            CopyAction::Tree
        } else {
            CopyAction::File
        }),
{
    if is_link {
        CopyAction::Link
    } else if is_dir {
        CopyAction::Tree
    } else {
        CopyAction::File
    }
}

/// Whether the name is `.`.
pub open spec fn is_dot(n: Seq<char>) -> bool {
    n == seq!['.']
}

/// Whether the name is `..`.
pub open spec fn is_dot_dot(n: Seq<char>) -> bool {
    n == seq!['.', '.']
}

fn dot_kind(name: &str) -> (r: (bool, bool))
    ensures
        r.0 == is_dot(name@),
        r.1 == is_dot_dot(name@),
{
    let v = chars_of(name);
    let one = v.len() == 1 && v[0] == '.';
    let two = v.len() == 2 && v[0] == '.' && v[1] == '.';
    proof {
        if v@.len() == 1 && v@[0] == '.' {
            assert(v@ =~= seq!['.']);
        }
        if v@.len() == 2 && v@[0] == '.' && v@[1] == '.' {
            assert(v@ =~= seq!['.', '.']);
        }
        if v@ == seq!['.'] {
            assert(v@.len() == 1);
        }
        if v@ == seq!['.', '.'] {
            assert(v@.len() == 2);
        }
    }
    (one, two)
}

/// Whether a remote directory entry is removed with its directory: every
/// name but `.` and `..`.
pub fn removal_child(name: &str) -> (r: bool)
    ensures
        r == !(is_dot(name@) || is_dot_dot(name@)),
{
    let (one, two) = dot_kind(name);
    !(one || two)
}

/// Whether a remote directory entry is copied with its directory: every
/// name but the empty one, `.` and `..`.
pub fn copied_child(name: &str) -> (r: bool)
    ensures
        r == !(name@.len() == 0 || is_dot(name@) || is_dot_dot(name@)),
{
    let (one, two) = dot_kind(name);
    let v = chars_of(name);
    !(v.len() == 0 || one || two)
}

/// `dir/name`, as remote copies spell child paths.
pub open spec fn remote_item_spec(dir: Seq<char>, name: Seq<char>) -> Seq<char> {
    dir + seq!['/'] + name
}

/// The remote path of `name` in `dir` for a copy.
pub fn remote_item(dir: &str, name: &str) -> (r: String)
    ensures
        r@ == remote_item_spec(dir@, name@),
{
    let mut v = chars_of(dir);
    v.push('/');
    let n = chars_of(name);
    concat_chars(&mut v, n.as_slice());
    string_from_chars(v.as_slice())
}

/// `dir/name`, or `dirname` when `dir` already ends with `/`, as remote
/// removal spells child paths.
pub open spec fn remote_child_spec(dir: Seq<char>, name: Seq<char>) -> Seq<char> {
    if dir.len() > 0 && dir.last() == '/' {
        dir + name
    } else {
        dir + seq!['/'] + name
    }
}

/// The remote path of `name` in `dir` for a removal.
pub fn remote_child(dir: &str, name: &str) -> (r: String)
    ensures
        r@ == remote_child_spec(dir@, name@),
{
    let mut v = chars_of(dir);
    if !(v.len() > 0 && v[v.len() - 1] == '/') {
        v.push('/');
    }
    let n = chars_of(name);
    concat_chars(&mut v, n.as_slice());
    string_from_chars(v.as_slice())
}

/// The largest file that is shown as text: 2 MiB.
pub const MAX_TEXT_BYTES: u64 = 2097152;

/// The error for a file too large to show.
pub open spec fn too_large_message(len: u64) -> Seq<char> {
    "File too large ("@ + decimal(len as nat) + " bytes, max 2 MB)"@
}

/// A file is shown as text only up to `MAX_TEXT_BYTES`.
pub fn check_text_size(len: u64) -> (r: Result<(), String>)
    ensures
        len <= MAX_TEXT_BYTES ==> r is Ok,
        len > MAX_TEXT_BYTES ==> (r matches Err(e) && e@ == too_large_message(len)),
{
    if len > MAX_TEXT_BYTES {
        let mut v = chars_of("File too large (");
        let d = decimal_text(len);
        concat_chars(&mut v, d.as_slice());
        let t = chars_of(" bytes, max 2 MB)");
        concat_chars(&mut v, t.as_slice());
        Err(string_from_chars(v.as_slice()))
    } else {
        Ok(())
    }
}

/// A local path is read as text only when it exists and is not a
/// directory; these are checked before its size.
pub fn check_text_target(exists: bool, is_dir: bool) -> (r: Result<(), String>)
    ensures
        !exists ==> (r matches Err(e) && e@ == "File not found"@),
        exists && is_dir ==> (r matches Err(e) && e@ == "Is a directory"@),
        exists && !is_dir ==> r is Ok,
{
    if !exists {
        Err(string_from_chars(chars_of("File not found").as_slice()))
    } else if is_dir {
        Err(string_from_chars(chars_of("Is a directory").as_slice()))
    } else {
        Ok(())
    }
}

} // verus!
