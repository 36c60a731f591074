//! The decisions of one replication run: which entries to send where, which
//! directories to materialize first, and when the run has failed.

use vstd::prelude::*;
use crate::path::{SimplePath, join_view, views};
use crate::materialize::{
    DirAction,
    DirReply,
    DirectoryCache,
    Materializer,
    dirs_to_materialize,
    dirs_view,
    law_probe_only_uncached,
    parent_dirs,
    parent_dirs_view,
};

verus! {

/// The type of a container record.
#[derive(Clone, Copy, Debug, PartialEq, Eq, Structural)]
pub enum EntryKind {
    File,
    Directory,
    Symlink,
    Other,
}

/// Where a run stands: it ends either completed or aborted.
#[derive(Clone, Copy, Debug, PartialEq, Eq, Structural)]
pub enum RunState {
    Running,
    Completed,
    Aborted,
}

/// A fatal error that the run itself detects.
#[derive(Clone, Copy, Debug, PartialEq, Eq, Structural)]
pub enum TransferError {
    /// The write channel took a different number of bytes than the entry declared.
    SizeMismatch { expected: u64, actual: u64 },
}

/// What to do with one container entry.
#[derive(Debug)]
pub enum EntryPlan {
    /// The run has ended: process no more entries.
    Halt,
    /// Not a regular file: drain it and go on.
    Skip,
    /// Materialize `dirs` in order, then write `size` bytes to `dest`.
    Transfer { dest: String, dirs: Vec<String>, size: u64 },
}

/// Name of the scratch directory made under the base path first.
pub open spec fn scratch_name() -> Seq<char> {
    seq!['.', 't', 'm', 'p']
}

/// One replication run under a base path.
pub struct Replicator {
    base: SimplePath,
    cache: DirectoryCache,
    state: RunState,
}

impl Replicator {
    pub closed spec fn base(&self) -> Seq<char> {
        self.base@
    }

    /// Directories known to exist.
    pub closed spec fn cached(&self) -> Set<Seq<char>> {
        self.cache@
    }

    pub closed spec fn run_state(&self) -> RunState {
        self.state
    }

    /// The base path is canonical.
    pub closed spec fn wf(&self) -> bool {
        self.base.wf()
    }

    /// A run under `base` that knows of no directory yet.
    pub fn new(base: SimplePath) -> (r: Replicator)
        requires
            base.wf(),
        ensures
            r.wf(),
            r.base() == base@,
            r.cached() == Set::<Seq<char>>::empty(),
            r.run_state() == RunState::Running,
    {
        Replicator { base, cache: DirectoryCache::new(), state: RunState::Running }
    }

    pub fn state(&self) -> (s: RunState)
        ensures
            s == self.run_state(),
    {
        self.state
    }

    /// The scratch directory under the base path.
    pub fn scratch_path(&self) -> (p: SimplePath)
        requires
            self.wf(),
        ensures
            p@ == join_view(self.base(), scratch_name()),
            p.wf(),
    {
        proof {
            reveal_strlit(".tmp");
        }
        let p = self.base.join(".tmp");
        assert(".tmp"@ =~= scratch_name());
        p
    }

    /// The directories to materialize before any entry: the scratch directory
    /// and its ancestors, root first.
    pub fn scratch_dirs(&self) -> (d: Vec<String>)
        requires
            self.wf(),
        ensures
            views(d@) == dirs_view(join_view(self.base(), scratch_name())),
    {
        let p = self.scratch_path();
        dirs_to_materialize(&p)
    }

    /// Decides what to do with an entry of type `kind` at `path` declaring
    /// `size` bytes.
    pub fn plan_entry(&self, kind: EntryKind, path: &str, size: u64) -> (r: EntryPlan)
        requires
            self.wf(),
        ensures
            self.run_state() != RunState::Running ==> r is Halt,
            self.run_state() == RunState::Running && kind != EntryKind::File ==> r is Skip,
            self.run_state() == RunState::Running && kind == EntryKind::File ==> {
                let dest = join_view(self.base(), path@);
                r matches EntryPlan::Transfer { dest: d, dirs, size: s } && d@ == dest && views(
                    dirs@,
                ) == parent_dirs_view(dest) && s == size
            },
    {
        if self.state != RunState::Running {
            EntryPlan::Halt
        } else if kind != EntryKind::File {
            EntryPlan::Skip
        } else {
            let dest = self.base.join(path);
            let dirs = parent_dirs(&dest);
            EntryPlan::Transfer { dest: String::from_str(dest.as_str()), dirs, size }
        }
    }

    /// Starts materializing `dirs` against the directories known to exist.
    pub fn start_dirs(&self, dirs: Vec<String>) -> (res: (Materializer, DirAction))
        ensures
            res.0.dirs() == views(dirs@),
            res.0.wf(),
            res.0.moved_on(0, self.cached(), &res.1),
    {
        Materializer::start(dirs, &self.cache)
    }

    /// Hands a reply on to `m`, recording confirmed directories in this run's
    /// cache exactly as `Materializer::step` does; a run that gives up on a
    /// directory aborts the whole replication.
    pub fn dir_step(&mut self, m: &mut Materializer, reply: DirReply) -> (r: DirAction)
        requires
            old(m).wf(),
        ensures
            final(self).base() == old(self).base(),
            final(self).wf() == old(self).wf(),
            old(self).cached().subset_of(final(self).cached()),
            final(m).dirs() == old(m).dirs(),
            final(m).wf(),
            Materializer::stepped(*old(m), *final(m), old(self).cached(), final(self).cached(), reply, &r),
            r is Abort ==> final(self).run_state() == RunState::Aborted,
            !(r is Abort) ==> final(self).run_state() == old(self).run_state(),
            r matches DirAction::Stat(d) ==> !final(self).cached().contains(d@),
    {
        let ghost from = m.index() + 1;
        let r = m.step(&mut self.cache, reply);
        proof {
            if r is Stat {
                law_probe_only_uncached(m.dirs(), from, self.cache@);
            }
        }
        if let DirAction::Abort(_) = &r {
            self.state = RunState::Aborted;
        }
        r
    }

    /// Checks the byte count of a finished transfer; a mismatch aborts the run.
    pub fn finish_entry(&mut self, expected: u64, actual: u64) -> (r: Result<(), TransferError>)
        ensures
            final(self).base() == old(self).base(),
            final(self).wf() == old(self).wf(),
            final(self).cached() == old(self).cached(),
            expected == actual ==> r is Ok && final(self).run_state() == old(self).run_state(),
            expected != actual ==> r == Err::<(), TransferError>(
                TransferError::SizeMismatch { expected, actual },
            ) && final(self).run_state() == RunState::Aborted,
    {
        if expected == actual {
            Ok(())
        } else {
            self.state = RunState::Aborted;
            Err(TransferError::SizeMismatch { expected, actual })
        }
    }

    /// Records a fatal error from the transport: the run is aborted.
    pub fn fail(&mut self)
        ensures
            final(self).base() == old(self).base(),
            final(self).wf() == old(self).wf(),
            final(self).cached() == old(self).cached(),
            final(self).run_state() == RunState::Aborted,
    {
        self.state = RunState::Aborted;
    }

    /// Ends a run that is still going as completed; says whether it was.
    pub fn complete(&mut self) -> (ok: bool)
        ensures
            final(self).base() == old(self).base(),
            final(self).wf() == old(self).wf(),
            final(self).cached() == old(self).cached(),
            ok == (old(self).run_state() == RunState::Running),
            ok ==> final(self).run_state() == RunState::Completed,
            !ok ==> final(self).run_state() == old(self).run_state(),
    {
        if self.state == RunState::Running {
            self.state = RunState::Completed;
            true
        } else {
            false
        }
    }
}

} // verus!
