//! Paths that cannot leave a directory.
//!
//! The lexical half: splitting a caller's path into validated components. The
//! walk that opens them one by one without following links works on what comes
//! out of here.

use super::segment::{
    is_segment, is_segment_error, path_segment, segment_message, PathSegmentError,
};
use crate::lists::{pieces, split};
use crate::text::{begins, same, starts_with, texts};
use vstd::prelude::*;

verus! {

/// Why a path beneath a root was refused.
#[derive(Debug)]
pub enum ContainmentError {
    Segment(PathSegmentError),
    Absolute { root: String, path: String },
    Traversal { root: String, path: String },
    /// A component of the path is a symbolic link.
    Symlink { root: String, path: String, component: String },
    /// The root itself cannot be opened; `source` says why.
    Root { root: String, source: String },
    /// The operation failed; `source` says why.
    Io { root: String, path: String, source: String },
    /// No way to open without following links on this platform.
    Unsupported,
}

/// One name inside a directory, described without leaving the root.
#[derive(Clone, Debug, PartialEq, Eq)]
pub struct DirEntry {
    pub name: String,
    pub is_dir: bool,
    pub is_symlink: bool,
    pub len: u64,
    /// Seconds and nanoseconds since the Unix epoch, when the platform says.
    pub modified: Option<(u64, u32)>,
}

/// The message of a containment error.
pub open spec fn containment_message(error: ContainmentError) -> Seq<char> {
    match error {
        ContainmentError::Segment(inner) => segment_message(inner),
        ContainmentError::Absolute { root, path } => "path "@ + path@
            + " is absolute; only paths relative to "@ + root@ + " are accepted"@,
        ContainmentError::Traversal { root, path } => "path "@ + path@ + " walks outside "@ + root@,
        ContainmentError::Symlink { root, path, component } => component@ + " in "@ + path@
            + " is a symbolic link, and paths beneath "@ + root@ + " are not followed"@,
        ContainmentError::Root { root, source } => "cannot open "@ + root@ + ": "@ + source@,
        ContainmentError::Io { root, path, source } => path@ + " (beneath "@ + root@ + "): "@
            + source@,
        ContainmentError::Unsupported =>
            "directory-relative filesystem access is not available on this platform"@,
    }
}

impl ContainmentError {
    /// What to tell the operator.
    pub fn message(&self) -> (out: String)
        ensures
            out@ == containment_message(*self),
    {
        match self {
            ContainmentError::Segment(inner) => inner.message(),
            ContainmentError::Absolute { root, path } => {
                let mut out = "path ".to_owned();
                out.push_str(path.as_str());
                out.push_str(" is absolute; only paths relative to ");
                out.push_str(root.as_str());
                out.push_str(" are accepted");
                out
            },
            ContainmentError::Traversal { root, path } => {
                let mut out = "path ".to_owned();
                out.push_str(path.as_str());
                out.push_str(" walks outside ");
                out.push_str(root.as_str());
                out
            },
            ContainmentError::Symlink { root, path, component } => {
                let mut out = component.clone();
                out.push_str(" in ");
                out.push_str(path.as_str());
                out.push_str(" is a symbolic link, and paths beneath ");
                out.push_str(root.as_str());
                out.push_str(" are not followed");
                out
            },
            ContainmentError::Root { root, source } => {
                let mut out = "cannot open ".to_owned();
                out.push_str(root.as_str());
                out.push_str(": ");
                out.push_str(source.as_str());
                out
            },
            ContainmentError::Io { root, path, source } => {
                let mut out = path.clone();
                out.push_str(" (beneath ");
                out.push_str(root.as_str());
                out.push_str("): ");
                out.push_str(source.as_str());
                out
            },
            ContainmentError::Unsupported =>
                "directory-relative filesystem access is not available on this platform".to_owned(),
        }
    }
}

/// Whether a piece of a path says nothing: empty, or the current directory.
pub open spec fn is_idle(piece: Seq<char>) -> bool {
    piece.len() == 0 || piece == "."@
}

/// What walking pieces of a path comes to.
pub enum Walk {
    /// Every piece is idle or an ordinary name; these are the names.
    Names(Seq<Seq<char>>),
    /// A piece steps to the parent directory.
    Parent,
    /// A piece is neither, and is not a usable name.
    Refused(Seq<char>),
}

/// Walks the first `n` pieces; the first offending piece decides.
pub open spec fn walk(parts: Seq<Seq<char>>, n: int) -> Walk
    decreases n,
{
    if n <= 0 {
        Walk::Names(Seq::empty())
    } else {
        match walk(parts, n - 1) {
            Walk::Names(names) => {
                let piece = parts[n - 1];
                if is_idle(piece) {
                    Walk::Names(names)
                } else if piece == ".."@ {
                    Walk::Parent
                } else if is_segment(piece) {
                    Walk::Names(names.push(piece))
                } else {
                    Walk::Refused(piece)
                }
            },
            stopped => stopped,
        }
    }
}

/// What a whole path comes to.
pub open spec fn walk_path(path: Seq<char>) -> Walk {
    walk(pieces(path, '/'), pieces(path, '/').len() as int)
}

/// The component names of a path that stays beneath its root: it is relative,
/// never steps up, and every name is an ordinary one.
pub open spec fn contained_names(path: Seq<char>) -> Option<Seq<Seq<char>>> {
    if begins(path, "/"@) {
        None
    } else {
        match walk_path(path) {
            Walk::Names(names) => if names.len() > 0 {
                Some(names)
            } else {
                None
            },
            _ => None,
        }
    }
}

proof fn lemma_walk_stops(parts: Seq<Seq<char>>, i: int, n: int)
    requires
        0 <= i <= n,
        !(walk(parts, i) is Names),
    ensures
        walk(parts, n) == walk(parts, i),
    decreases n - i,
{
    if i < n {
        lemma_walk_stops(parts, i, n - 1);
    }
}

/// Every name that comes out of a contained path is one ordinary component.
pub proof fn contained_names_are_segments(path: Seq<char>)
    ensures
        contained_names(path) matches Some(names) ==> names.len() > 0 && forall|i: int|
            0 <= i < names.len() ==> is_segment(#[trigger] names[i]),
{
    lemma_walk_names(pieces(path, '/'), pieces(path, '/').len() as int);
}

proof fn lemma_walk_names(parts: Seq<Seq<char>>, n: int)
    ensures
        walk(parts, n) matches Walk::Names(names) ==> forall|i: int|
            0 <= i < names.len() ==> is_segment(#[trigger] names[i]),
    decreases n,
{
    if n > 0 {
        lemma_walk_names(parts, n - 1);
    }
}

/// Splits a caller-supplied relative path into validated components.
pub fn components(root: &str, path: &str) -> (out: Result<Vec<String>, ContainmentError>)
    ensures
        out is Ok <==> contained_names(path@) is Some,
        out matches Ok(names) ==> contained_names(path@) == Some(texts(names@)),
        out matches Err(error) ==> if begins(path@, "/"@) {
            error matches ContainmentError::Absolute { root: r, path: p } && r@ == root@ && p@
                == path@
        } else {
            match walk_path(path@) {
                Walk::Refused(piece) => error matches ContainmentError::Segment(inner)
                    && is_segment_error("path component", piece, inner),
                _ => error matches ContainmentError::Traversal { root: r, path: p } && r@ == root@
                    && p@ == path@,
            }
        },
{
    if starts_with(path, "/") {
        return Err(ContainmentError::Absolute { root: root.to_owned(), path: path.to_owned() });
    }
    let parts = split(path, '/');
    let ghost all = pieces(path@, '/');
    let mut names: Vec<String> = Vec::new();
    let mut i: usize = 0;
    assert(texts(names@) =~= Seq::empty());
    assert(texts(parts@).len() == parts@.len());
    while i < parts.len()
        invariant
            i <= parts@.len(),
            parts@.len() == all.len(),
            texts(parts@) == all,
            all == pieces(path@, '/'),
            !begins(path@, "/"@),
            walk(all, i as int) == Walk::Names(texts(names@)),
        decreases parts@.len() - i,
    {
        assert(all[i as int] == parts@[i as int]@);
        let piece = parts[i].as_str();
        if piece.is_empty() || same(piece, ".") {
        } else if same(piece, "..") {
            proof {
                lemma_walk_stops(all, i + 1, all.len() as int);
            }
            return Err(
                ContainmentError::Traversal { root: root.to_owned(), path: path.to_owned() },
            );
        } else {
            match path_segment("path component", piece) {
                Ok(_) => {
                    let ghost before = texts(names@);
                    names.push(parts[i].clone());
                    assert(texts(names@) =~= before.push(all[i as int]));
                },
                Err(error) => {
                    proof {
                        lemma_walk_stops(all, i + 1, all.len() as int);
                    }
                    return Err(ContainmentError::Segment(error));
                },
            }
        }
        i = i + 1;
    }
    assert(texts(names@).len() == names@.len());
    if names.len() == 0 {
        return Err(ContainmentError::Traversal { root: root.to_owned(), path: path.to_owned() });
    }
    Ok(names)
}

/// A contained path goes down by its names, in order, and by nothing else: what
/// is left out of them says nothing.
pub proof fn a_contained_path_goes_down_by_its_names(path: Seq<char>)
    ensures
        contained_names(path) matches Some(names) ==> names == pieces(path, '/').filter(
            |piece: Seq<char>| piece.len() > 0 && piece != "."@,
        ),
{
    let parts = pieces(path, '/');
    let n = parts.len() as int;
    if walk(parts, n) is Names {
        lemma_walk_filters(parts, n);
        assert(parts.take(n) =~= parts);
    }
}

proof fn lemma_walk_filters(parts: Seq<Seq<char>>, n: int)
    requires
        0 <= n <= parts.len(),
        walk(parts, n) is Names,
    ensures
        walk(parts, n)->Names_0 == parts.take(n).filter(
            |piece: Seq<char>| piece.len() > 0 && piece != "."@,
        ),
    decreases n,
{
    reveal(Seq::filter);
    if n > 0 {
        lemma_walk_filters(parts, n - 1);
        assert(parts.take(n).drop_last() =~= parts.take(n - 1));
    }
}

/// A path is contained exactly when it is relative, every piece of it is empty,
/// the current directory or an ordinary name, and one of them is a name.
pub proof fn what_is_contained(path: Seq<char>)
    ensures
        contained_names(path) is Some <==> {
            &&& !begins(path, "/"@)
            &&& forall|i: int|
                0 <= i < pieces(path, '/').len() ==> (#[trigger] pieces(path, '/')[i]).len() == 0
                    || pieces(path, '/')[i] == "."@ || is_segment(pieces(path, '/')[i])
            &&& exists|i: int|
                0 <= i < pieces(path, '/').len() && is_segment(#[trigger] pieces(path, '/')[i])
        },
{
    let parts = pieces(path, '/');
    lemma_what_is_walked(parts, parts.len() as int);
    lemma_walk_names(parts, parts.len() as int);
}

proof fn lemma_what_is_walked(parts: Seq<Seq<char>>, n: int)
    requires
        0 <= n <= parts.len(),
    ensures
        walk(parts, n) is Names <==> forall|i: int|
            0 <= i < n ==> (#[trigger] parts[i]).len() == 0 || parts[i] == "."@ || is_segment(
                parts[i],
            ),
        walk(parts, n) matches Walk::Names(names) ==> (names.len() > 0 <==> exists|i: int|
            0 <= i < n && is_segment(#[trigger] parts[i])),
    decreases n,
{
    reveal_strlit(".");
    reveal_strlit("..");
    assert("."@ =~= seq!['.']);
    assert(".."@ =~= seq!['.', '.']);
    if n > 0 {
        lemma_what_is_walked(parts, n - 1);
        let piece = parts[n - 1];
        if walk(parts, n) is Names {
            assert(walk(parts, n - 1) is Names);
            if is_segment(piece) {
                assert(is_segment(parts[n - 1]));
            }
        }
    }
}

/// The first piece that is neither idle nor a name decides why a path is
/// refused.
pub proof fn the_first_offending_piece_decides(path: Seq<char>, i: int)
    requires
        0 <= i < pieces(path, '/').len(),
        forall|j: int|
            0 <= j < i ==> (#[trigger] pieces(path, '/')[j]).len() == 0 || pieces(path, '/')[j]
                == "."@ || is_segment(pieces(path, '/')[j]),
        pieces(path, '/')[i].len() > 0,
        pieces(path, '/')[i] != "."@,
        !is_segment(pieces(path, '/')[i]),
    ensures
        pieces(path, '/')[i] == ".."@ ==> walk_path(path) == Walk::Parent,
        pieces(path, '/')[i] != ".."@ ==> walk_path(path) == Walk::Refused(pieces(path, '/')[i]),
{
    let parts = pieces(path, '/');
    lemma_what_is_walked(parts, i);
    lemma_walk_stops(parts, i + 1, parts.len() as int);
}

} // verus!
