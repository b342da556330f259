//! The cache as shared state for concurrent request handling.
//!
//! The live index and the sync bookkeeping form one snapshot guarded by a
//! reader/writer lock whose invariant is that the stored index is
//! well-formed, that is, a complete build. A synchronization builds the
//! new index entirely outside the lock and holds exclusive access only
//! for the swap, so readers are never blocked behind the listing call and
//! only ever observe a fully-old or fully-new index, never a partially
//! populated one.

use vstd::prelude::*;
use vstd::rwlock::RwLock;
use crate::cache::{build_index, redirect_target, spec_redirect, SyncError};
use crate::config::RouteConfig;
use crate::index::{views, Index};

verus! {

/// What the lock guards: the live index and the sync outcome.
pub struct Snapshot {
    pub index: Index,
    pub last_attempt: Option<u64>,
    pub last_success: Option<u64>,
}

/// A route cache shared among request-handling threads.
pub struct SharedCache {
    pub config: RouteConfig,
    pub state: RwLock<Snapshot, spec_fn(Snapshot) -> bool>,
}

impl SharedCache {
    /// The lock admits exactly the snapshots whose index is a complete,
    /// well-formed build.
    pub open spec fn wf(self) -> bool {
        forall|s: Snapshot| #[trigger] self.state.inv(s) <==> s.index.wf()
    }

    /// A shared cache that has never synchronized.
    pub fn new(config: RouteConfig) -> (c: SharedCache)
        ensures
            c.wf(),
            c.config == config,
    {
        let index = Index::new();
        let snap = Snapshot { index, last_attempt: Option::None, last_success: Option::None };
        let state = RwLock::new(snap, Ghost(|s: Snapshot| s.index.wf()));
        SharedCache { config, state }
    }

    /// Applies one listing outcome. The replacement index is built in
    /// full before exclusive access is taken; the critical section is
    /// only the swap and the timestamps. On a failed listing the index
    /// and the last-success timestamp are left as they are.
    pub fn sync(&self, listing: Result<Vec<String>, SyncError>, now: u64) -> (r: Result<
        (),
        SyncError,
    >)
        requires
            self.wf(),
        ensures
            match listing {
                Result::Ok(keys) => r is Ok,
                Result::Err(e) => r == Result::<(), SyncError>::Err(e),
            },
    {
        match listing {
            Result::Ok(keys) => {
                let index = build_index(&keys);
                let (mut snap, handle) = self.state.acquire_write();
                snap.index = index;
                snap.last_attempt = Option::Some(now);
                snap.last_success = Option::Some(now);
                handle.release_write(snap);
                Result::Ok(())
            },
            Result::Err(e) => {
                let (mut snap, handle) = self.state.acquire_write();
                snap.last_attempt = Option::Some(now);
                handle.release_write(snap);
                Result::Err(e)
            },
        }
    }

    /// The branch names of a complete index: a reader observes some
    /// fully-built snapshot, never a partial one.
    pub fn branches(&self) -> (r: Vec<String>)
        requires
            self.wf(),
        ensures
            exists|idx: Index| idx.wf() && views(r@) == #[trigger] idx.branch_names(),
    {
        let read_handle = self.state.acquire_read();
        let snap = read_handle.borrow();
        let r = snap.index.branches();
        proof {
            assert(snap.index.wf());
        }
        read_handle.release_read();
        r
    }

    /// The architecture names under `branch` of a complete index.
    pub fn architectures(&self, branch: &str) -> (r: Vec<String>)
        requires
            self.wf(),
        ensures
            exists|idx: Index| idx.wf() && views(r@) == #[trigger] idx.spec_arches(branch@),
    {
        let read_handle = self.state.acquire_read();
        let snap = read_handle.borrow();
        let r = snap.index.architectures(branch);
        proof {
            assert(snap.index.wf());
        }
        read_handle.release_read();
        r
    }

    /// The versions under `(branch, arch)` of a complete index.
    pub fn versions(&self, branch: &str, arch: &str) -> (r: Vec<String>)
        requires
            self.wf(),
        ensures
            exists|idx: Index|
                idx.wf() && views(r@) == #[trigger] idx.spec_versions(branch@, arch@),
    {
        let read_handle = self.state.acquire_read();
        let snap = read_handle.borrow();
        let r = snap.index.versions(branch, arch);
        proof {
            assert(snap.index.wf());
        }
        read_handle.release_read();
        r
    }

    /// The latest version under `(branch, arch)` of a complete index, or
    /// `None` if some complete index lacks the pair.
    pub fn latest_version(&self, branch: &str, arch: &str) -> (r: Option<String>)
        requires
            self.wf(),
        ensures
            exists|idx: Index|
                idx.wf() && (match r {
                    Option::None => #[trigger] idx.spec_versions(branch@, arch@).len() == 0,
                    Option::Some(v) => idx.spec_versions(branch@, arch@).len() > 0 && v@
                        == idx.spec_versions(branch@, arch@).last(),
                }),
    {
        let read_handle = self.state.acquire_read();
        let snap = read_handle.borrow();
        let r = snap.index.latest_version(branch, arch);
        proof {
            assert(snap.index.wf());
        }
        read_handle.release_read();
        r
    }

    /// The redirect target for a current-version request against a
    /// complete index, or `None` where no version resolves.
    pub fn current_redirect(&self, branch: &str, arch: &str, path: &str) -> (r: Option<String>)
        requires
            self.wf(),
        ensures
            exists|idx: Index|
                idx.wf() && (match r {
                    Option::None => #[trigger] idx.spec_versions(branch@, arch@).len() == 0,
                    Option::Some(u) => idx.spec_versions(branch@, arch@).len() > 0 && u@
                        == spec_redirect(
                        self.config.public_prefix@,
                        branch@,
                        arch@,
                        idx.spec_versions(branch@, arch@).last(),
                        path@,
                    ),
                }),
    {
        let read_handle = self.state.acquire_read();
        let snap = read_handle.borrow();
        let latest = snap.index.latest_version(branch, arch);
        proof {
            assert(snap.index.wf());
        }
        read_handle.release_read();
        match latest {
            Option::None => Option::None,
            Option::Some(v) => Option::Some(
                redirect_target(
                    self.config.public_prefix.as_str(),
                    branch,
                    arch,
                    v.as_str(),
                    path,
                ),
            ),
        }
    }
}

} // verus!
