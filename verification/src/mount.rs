//! What is mirrored: an entry found in a host directory, or a source named
//! by the mount policy.

use crate::host::{Query, QueryView};
use crate::path::{copy_bytes, joined, name_of, HostPath};
use vstd::prelude::*;

verus! {

/// The source of one mirror operation.
#[derive(Debug, PartialEq, Eq)]
pub enum DirEntryOrExplicitMount {
    /// An entry of the host directory `dir`. It is mirrored under its own
    /// name.
    DirEntry { dir: HostPath, name: Vec<u8> },
    /// A source given by its path. It is mirrored under `dst_file_name`,
    /// or, without one, onto the directory that is mirrored into.
    ExplicitMount { src: HostPath, dst_file_name: Option<Vec<u8>> },
}

/// What a [`DirEntryOrExplicitMount`] holds, as the values that contracts speak of.
pub enum MountView {
    DirEntry { dir: Seq<Seq<u8>>, name: Seq<u8> },
    ExplicitMount { src: Seq<Seq<u8>>, dst_file_name: Option<Seq<u8>> },
}

impl View for DirEntryOrExplicitMount {
    type V = MountView;

    open spec fn view(&self) -> MountView {
        match self {
            DirEntryOrExplicitMount::DirEntry { dir, name } => MountView::DirEntry {
                dir: dir@,
                name: name@,
            },
            DirEntryOrExplicitMount::ExplicitMount { src, dst_file_name: Some(name) } => {
                MountView::ExplicitMount { src: src@, dst_file_name: Some(name@) }
            },
            DirEntryOrExplicitMount::ExplicitMount { src, dst_file_name: None } => {
                MountView::ExplicitMount { src: src@, dst_file_name: None }
            },
        }
    }
}

impl MountView {
    /// The name under which the entry is mirrored.
    pub open spec fn file_name(self) -> Option<Seq<u8>> {
        match self {
            MountView::DirEntry { name, .. } => Some(name),
            MountView::ExplicitMount { dst_file_name, .. } => dst_file_name,
        }
    }

    /// The path of the source.
    pub open spec fn path(self) -> Seq<Seq<u8>> {
        match self {
            MountView::DirEntry { dir, name } => joined(dir, seq![name]),
            MountView::ExplicitMount { src, .. } => src,
        }
    }
}

impl Clone for DirEntryOrExplicitMount {
    fn clone(&self) -> (copy: DirEntryOrExplicitMount)
        ensures
            copy@ == self@,
    {
        match self {
            DirEntryOrExplicitMount::DirEntry { dir, name } => DirEntryOrExplicitMount::DirEntry {
                dir: dir.clone(),
                name: copy_bytes(name.as_slice()),
            },
            DirEntryOrExplicitMount::ExplicitMount { src, dst_file_name: Some(name) } => {
                DirEntryOrExplicitMount::ExplicitMount {
                    src: src.clone(),
                    dst_file_name: Some(copy_bytes(name.as_slice())),
                }
            },
            DirEntryOrExplicitMount::ExplicitMount { src, dst_file_name: None } => {
                DirEntryOrExplicitMount::ExplicitMount { src: src.clone(), dst_file_name: None }
            },
        }
    }
}

impl DirEntryOrExplicitMount {
    /// The entry called `name` of the host directory `dir`.
    pub fn from(dir: HostPath, name: Vec<u8>) -> (entry: DirEntryOrExplicitMount)
        ensures
            entry@ == (MountView::DirEntry { dir: dir@, name: name@ }),
    {
        DirEntryOrExplicitMount::DirEntry { dir, name }
    }

    /// The source `mount`, to be mirrored under the last name of `dst_file`.
    pub fn explicit_mount_with_dest_file_name(mount: HostPath, dst_file: &HostPath) -> (entry:
        DirEntryOrExplicitMount)
        ensures
            entry@ == (MountView::ExplicitMount {
                src: mount@,
                dst_file_name: name_of(dst_file@),
            }),
    {
        DirEntryOrExplicitMount::ExplicitMount { src: mount, dst_file_name: dst_file.file_name() }
    }

    /// The name under which the entry is mirrored.
    pub fn file_name(&self) -> (name: Option<Vec<u8>>)
        ensures
            match name {
                Some(n) => self@.file_name() == Some(n@),
                None => self@.file_name().is_none(),
            },
    {
        match self {
            DirEntryOrExplicitMount::DirEntry { name, .. } => Some(copy_bytes(name.as_slice())),
            DirEntryOrExplicitMount::ExplicitMount { dst_file_name: Some(name), .. } => Some(
                copy_bytes(name.as_slice()),
            ),
            DirEntryOrExplicitMount::ExplicitMount { dst_file_name: None, .. } => None,
        }
    }

    /// The path of the source.
    pub fn path(&self) -> (p: HostPath)
        ensures
            p@ == self@.path(),
    {
        match self {
            DirEntryOrExplicitMount::DirEntry { dir, name } => dir.child(name),
            DirEntryOrExplicitMount::ExplicitMount { src, .. } => src.clone(),
        }
    }

    /// The question whose answer says what the source is. A symbolic link
    /// is reported as one, not followed.
    pub fn metadata(&self) -> (question: Query)
        ensures
            question@ == QueryView::Kind(self@.path()),
    {
        Query::Kind(self.path())
    }
}

} // verus!
