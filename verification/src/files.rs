//! What is known of an entry of the file system.

use vstd::prelude::*;

use crate::path::FsPath;

verus! {

/// The kind of an entry.
#[derive(Clone, Copy, Debug, PartialEq, Eq, Structural)]
pub enum FileKind {
    Directory,
    Symlink,
    Regular,
    Fifo,
    Socket,
    Block,
    Char,
    Unknown,
}

/// The kind of an entry and its mode bits.
#[derive(Clone, Copy, Debug, PartialEq, Eq, Structural)]
pub struct Metadata {
    pub kind: FileKind,
    pub mode: u32,
}

/// What an entry is in itself, and what it leads to where it is a symbolic link that leads
/// somewhere.
#[derive(Clone, Copy, Debug, PartialEq, Eq, Structural)]
pub struct Entry {
    pub metadata: Metadata,
    pub target: Option<Metadata>,
}

impl Entry {
    /// What a symbolic link leads to.
    pub open spec fn link_target(self) -> Option<Metadata> {
        if self.metadata.kind == FileKind::Symlink {
            self.target
        } else {
            None
        }
    }

    /// Whether the target of a symbolic link exists; nothing for another entry.
    pub open spec fn target_exists_spec(self) -> Option<bool> {
        if self.metadata.kind == FileKind::Symlink {
            Some(self.target is Some)
        } else {
            None
        }
    }

    /// Whether the entry is a directory or leads to one.
    pub open spec fn is_dir_spec(self) -> bool {
        match self.link_target() {
            Some(target) => target.kind == FileKind::Directory,
            None => self.metadata.kind == FileKind::Directory,
        }
    }

    /// Whether the target of a symbolic link exists; nothing for another entry.
    pub fn target_exists(&self) -> (r: Option<bool>)
        ensures
            r == self.target_exists_spec(),
    {
        match self.metadata.kind {
            FileKind::Symlink => Some(self.target.is_some()),
            _ => None,
        }
    }

    /// Whether the entry is a directory or leads to one.
    pub fn is_dir(&self) -> (r: bool)
        ensures
            r == self.is_dir_spec(),
    {
        if let FileKind::Symlink = self.metadata.kind {
            if let Some(target) = self.target {
                return matches!(target.kind, FileKind::Directory);
            }
        }
        matches!(self.metadata.kind, FileKind::Directory)
    }
}

/// An entry that a word of a command names.
#[derive(Debug)]
pub struct Candidate {
    pub path: FsPath,
    pub metadata: Metadata,
    pub symlink_target_exists: Option<bool>,
    pub is_dir: bool,
}

impl Candidate {
    /// The candidate at `path`, where there is an entry.
    pub fn from_path(path: FsPath, entry: Option<Entry>) -> (r: Option<Candidate>)
        ensures
            match r {
                Some(c) => entry is Some && c.path == path && c.metadata == entry->0.metadata
                    && c.symlink_target_exists == entry->0.target_exists_spec() && c.is_dir
                    == entry->0.is_dir_spec(),
                None => entry is None,
            },
    {
        match entry {
            Some(entry) => {
                let symlink_target_exists = entry.target_exists();
                let is_dir = entry.is_dir();
                Some(Candidate { path, metadata: entry.metadata, symlink_target_exists, is_dir })
            },
            None => None,
        }
    }
}

} // verus!
