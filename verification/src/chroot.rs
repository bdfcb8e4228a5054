//! The two directories that every engine works between.

use crate::path::HostPath;
use vstd::prelude::*;

verus! {

/// Where the view is built and what appears in it at `/nix`.
#[derive(Debug, PartialEq, Eq)]
pub struct RunChroot {
    rootdir: HostPath,
    nixdir: HostPath,
}

/// What a [`RunChroot`] holds, as the values that contracts speak of.
pub struct RunChrootView {
    /// The directory that entries are mirrored into.
    pub rootdir: Seq<Seq<u8>>,
    /// The store directory.
    pub nixdir: Seq<Seq<u8>>,
}

impl View for RunChroot {
    type V = RunChrootView;

    closed spec fn view(&self) -> RunChrootView {
        RunChrootView { rootdir: self.rootdir@, nixdir: self.nixdir@ }
    }
}

impl Clone for RunChroot {
    fn clone(&self) -> (copy: RunChroot)
        ensures
            copy@ == self@,
    {
        RunChroot { rootdir: self.rootdir.clone(), nixdir: self.nixdir.clone() }
    }
}

impl RunChroot {
    /// The context that mirrors into `rootdir` and resolves `/nix` into
    /// `nixdir`.
    pub fn new(rootdir: HostPath, nixdir: HostPath) -> (ctx: RunChroot)
        ensures
            ctx@ == (RunChrootView { rootdir: rootdir@, nixdir: nixdir@ }),
    {
        RunChroot { rootdir, nixdir }
    }

    /// The same store, another directory to mirror into.
    pub fn with_rootdir(&self, rootdir: HostPath) -> (ctx: RunChroot)
        ensures
            ctx@ == (RunChrootView { rootdir: rootdir@, nixdir: self@.nixdir }),
    {
        RunChroot { rootdir, nixdir: self.nixdir.clone() }
    }

    /// The directory that entries are mirrored into.
    pub fn rootdir(&self) -> (p: &HostPath)
        ensures
            p@ == self@.rootdir,
    {
        &self.rootdir
    }

    /// The store directory.
    pub fn nixdir(&self) -> (p: &HostPath)
        ensures
            p@ == self@.nixdir,
    {
        &self.nixdir
    }
}

} // verus!
