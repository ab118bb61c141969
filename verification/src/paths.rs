//! Path decomposition by `std::path::Path`: parent directory, final
//! component, extension and prefix stripping, each on paths held as strings.

use vstd::prelude::*;

verus! {

/// `Path::parent` of a path, rendered back to a string; `None` for a path
/// that ends in a root or is empty.
pub uninterp spec fn path_parent(p: Seq<char>) -> Option<Seq<char>>;

/// Position of the last `/` of a path, `-1` when there is none.
pub open spec fn last_slash(p: Seq<char>) -> int
    decreases p.len(),
{
    if p.len() == 0 {
        -1
    } else if p.last() == '/' {
        p.len() - 1
    } else {
        last_slash(p.drop_last())
    }
}

/// The last `/` lies inside the path.
pub proof fn lemma_last_slash_below(p: Seq<char>)
    ensures
        -1 <= last_slash(p) < p.len(),
    decreases p.len(),
{
    if p.len() > 0 && p.last() != '/' {
        lemma_last_slash_below(p.drop_last());
    }
}

/// `Path::file_name` of a path whose components `/` separates: its last
/// component, trailing `/` and `.` components set aside; `None` when that
/// component is `..`, or there is none (a root, `.` or an empty path).
pub open spec fn path_file_name(p: Seq<char>) -> Option<Seq<char>>
    decreases p.len(),
{
    if p.len() == 0 {
        None
    } else if p.last() == '/' {
        path_file_name(p.drop_last())
    } else {
        let i = last_slash(p);
        let seg = p.subrange(i + 1, p.len() as int);
        if seg == seq!['.'] {
            if i < 0 {
                None
            } else {
                proof {
                    lemma_last_slash_below(p);
                }
                path_file_name(p.subrange(0, i))
            }
        } else if seg == seq!['.', '.'] {
            None
        } else {
            Some(seg)
        }
    }
}

/// Position of the last `.` of a name, `-1` when there is none.
pub open spec fn last_dot(name: Seq<char>) -> int
    decreases name.len(),
{
    if name.len() == 0 {
        -1
    } else if name.last() == '.' {
        name.len() - 1
    } else {
        last_dot(name.drop_last())
    }
}

/// The extension of a file name: what follows its last `.`; `None` when it
/// has no `.`, or its only `.` begins it.
pub open spec fn name_extension(name: Seq<char>) -> Option<Seq<char>> {
    let i = last_dot(name);
    if i <= 0 {
        None
    } else {
        Some(name.subrange(i + 1, name.len() as int))
    }
}

/// `Path::extension` of a path: the extension of its file name.
pub open spec fn path_extension(p: Seq<char>) -> Option<Seq<char>> {
    match path_file_name(p) {
        Some(n) => name_extension(n),
        None => None,
    }
}

/// `Path::strip_prefix(root)` of a path, rendered back to a string; `None`
/// when `root` is not a prefix of the path's components.
pub uninterp spec fn path_strip_prefix(p: Seq<char>, root: Seq<char>) -> Option<Seq<char>>;

/// The parent directory of a path, by `std::path::Path::parent`; the contract
/// only names the result.
#[verifier::external_body]
pub(crate) fn parent_of(p: &str) -> (r: Option<String>)
    ensures
        r.deep_view() == path_parent(p@),
{
    match std::path::Path::new(p).parent() {
        Some(q) => Some(q.to_string_lossy().to_string()),
        None => None,
    }
}

/// The final component of a path, by `std::path::Path::file_name`: the last
/// `/`-separated component other than `.`, `None` when it is `..` or there is
/// none.
#[verifier::external_body]
pub(crate) fn file_name_of(p: &str) -> (r: Option<String>)
    ensures
        r.deep_view() == path_file_name(p@),
{
    match std::path::Path::new(p).file_name() {
        Some(n) => Some(n.to_string_lossy().to_string()),
        None => None,
    }
}

/// The extension of a path, by `std::path::Path::extension`: what follows
/// the last `.` of its file name, `None` when there is no file name, no `.`,
/// or only a leading one.
#[verifier::external_body]
pub(crate) fn extension_of(p: &str) -> (r: Option<String>)
    ensures
        r.deep_view() == path_extension(p@),
{
    match std::path::Path::new(p).extension() {
        Some(e) => Some(e.to_string_lossy().to_string()),
        None => None,
    }
}

/// A path relative to `root`, by `std::path::Path::strip_prefix`; the
/// contract only names the result.
#[verifier::external_body]
pub(crate) fn strip_prefix_of(p: &str, root: &str) -> (r: Option<String>)
    ensures
        r.deep_view() == path_strip_prefix(p@, root@),
{
    match std::path::Path::new(p).strip_prefix(root) {
        Ok(q) => Some(q.to_string_lossy().to_string()),
        Err(_) => None,
    }
}

} // verus!
