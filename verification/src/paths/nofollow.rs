//! Reading what the kernel says while a path is walked without following
//! links.

use super::rooted::{ContainmentError, DirEntry};
use vstd::prelude::*;

verus! {

/// Why opening a name failed.
#[derive(Clone, Copy, Debug, PartialEq, Eq, Structural)]
pub enum OpenFailure {
    /// The kernel says outright that the name is a link.
    Link,
    /// The name is no directory, which is also said of a link to one.
    NotDirectory,
    Other,
}

/// What a name is, links not followed.
#[derive(Clone, Copy, Debug, PartialEq, Eq, Structural)]
pub enum EntryKind {
    Directory,
    Link,
    Other,
}

/// Whether a failure means that a link was in the way. `probe` is what the
/// name is, as far as that could be told.
pub fn is_symlink_refusal(failure: OpenFailure, probe: Option<EntryKind>) -> (yes: bool)
    ensures
        yes == match failure {
            OpenFailure::Link => true,
            OpenFailure::NotDirectory => probe == Some(EntryKind::Link),
            OpenFailure::Other => false,
        },
{
    match failure {
        OpenFailure::Link => true,
        OpenFailure::NotDirectory => match probe {
            Some(EntryKind::Link) => true,
            _ => false,
        },
        OpenFailure::Other => false,
    }
}

/// The error of a step that failed: a link in the way is named, anything else
/// is reported as it came.
pub fn step_error(root: &str, path: &str, component: &str, refused: bool, source: &str) -> (error:
    ContainmentError)
    ensures
        refused ==> (error matches ContainmentError::Symlink { root: r, path: p, component: c }
            && r@ == root@ && p@ == path@ && c@ == component@),
        !refused ==> (error matches ContainmentError::Io { root: r, path: p, source: s } && r@
            == root@ && p@ == path@ && s@ == source@),
{
    if refused {
        ContainmentError::Symlink {
            root: root.to_owned(),
            path: path.to_owned(),
            component: component.to_owned(),
        }
    } else {
        ContainmentError::Io {
            root: root.to_owned(),
            path: path.to_owned(),
            source: source.to_owned(),
        }
    }
}

/// What the kernel reports of a name.
#[derive(Clone, Copy, Debug, PartialEq, Eq, Structural)]
pub struct EntryFacts {
    pub kind: EntryKind,
    pub size: i64,
    /// When it was last written, in seconds since the Unix epoch.
    pub modified: i64,
}

/// Describes a name. One that could not be looked at is listed all the same,
/// with nothing claimed of it.
pub fn describe(name: &str, facts: Option<EntryFacts>) -> (entry: DirEntry)
    ensures
        entry.name@ == name@,
        entry.is_dir == (facts matches Some(f) && f.kind == EntryKind::Directory),
        entry.is_symlink == (facts matches Some(f) && f.kind == EntryKind::Link),
        entry.len == match facts {
            Some(f) => if f.size < 0 {
                0
            } else {
                f.size as u64
            },
            None => 0,
        },
        entry.modified == match facts {
            Some(f) => if f.modified < 0 {
                None
            } else {
                Some((f.modified as u64, 0u32))
            },
            None => None,
        },
{
    match facts {
        Some(f) => DirEntry {
            name: name.to_owned(),
            is_dir: f.kind == EntryKind::Directory,
            is_symlink: f.kind == EntryKind::Link,
            len: if f.size < 0 {
                0
            } else {
                f.size as u64
            },
            modified: if f.modified < 0 {
                None
            } else {
                Some((f.modified as u64, 0u32))
            },
        },
        None => DirEntry {
            name: name.to_owned(),
            is_dir: false,
            is_symlink: false,
            len: 0,
            modified: None,
        },
    }
}

/// A link is never described as a directory, whatever it points at.
pub proof fn a_link_is_no_directory(entry: DirEntry, facts: Option<EntryFacts>)
    requires
        entry.is_dir == (facts matches Some(f) && f.kind == EntryKind::Directory),
        entry.is_symlink == (facts matches Some(f) && f.kind == EntryKind::Link),
    ensures
        !(entry.is_dir && entry.is_symlink),
{
}

} // verus!
