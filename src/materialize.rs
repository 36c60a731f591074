//! The set of remote directories known to exist, and the decisions that make
//! sure every ancestor directory of a target exists, root first.

use vstd::prelude::*;
use crate::path::{SimplePath, ancestors_view, lemma_ancestors_nonempty, law_ancestors_shorter, views};

verus! {

/// Directories known to exist remotely; entries are added and never removed.
/// The paths are kept in a `Vec` rather than std's
/// ordered set: vstd specifies that set only for keys whose order is known
/// to obey its specification (`key_obeys_cmp_spec`), which it does not
/// establish for `String`, while a scan over a `Vec` is proved exact. Runs
/// are sequential, so no lock guards it.
pub struct DirectoryCache {
    dirs: Vec<String>,
}

impl View for DirectoryCache {
    type V = Set<Seq<char>>;

    closed spec fn view(&self) -> Set<Seq<char>> {
        views(self.dirs@).to_set()
    }
}

impl DirectoryCache {
    /// An empty cache.
    pub fn new() -> (c: DirectoryCache)
        ensures
            c@ == Set::<Seq<char>>::empty(),
    {
        let c = DirectoryCache { dirs: Vec::new() };
        assert(views(c.dirs@) =~= Seq::<Seq<char>>::empty());
        assert(c@ =~= Set::<Seq<char>>::empty());
        c
    }

    /// Whether `p` is known to exist.
    pub fn contains(&self, p: &str) -> (b: bool)
        ensures
            b == self@.contains(p@),
    {
        let key = String::from_str(p);
        let mut i: usize = 0;
        while i < self.dirs.len()
            invariant
                i <= self.dirs@.len(),
                key@ == p@,
                forall|j: int| 0 <= j < i ==> #[trigger] self.dirs@[j]@ != p@,
            decreases self.dirs@.len() - i,
        {
            if self.dirs[i] == key {
                assert(views(self.dirs@)[i as int] == p@);
                return true;
            }
            i = i + 1;
        }
        assert(!views(self.dirs@).contains(p@)) by {
            if views(self.dirs@).contains(p@) {
                let j = choose|j: int| 0 <= j < views(self.dirs@).len() && views(self.dirs@)[j] == p@;
                assert(self.dirs@[j]@ == p@);
            }
        }
        false
    }

    /// Records that `p` exists; recording a known path changes nothing.
    pub fn insert(&mut self, p: &str)
        ensures
            final(self)@ == old(self)@.insert(p@),
    {
        if !self.contains(p) {
            let ghost before = self.dirs@;
            self.dirs.push(String::from_str(p));
            assert(views(self.dirs@) =~= views(before).push(p@));
            assert(views(before).push(p@).to_set() =~= views(before).to_set().insert(p@)) by {
                views(before).lemma_push_to_set_commute(p@);
            }
        } else {
            assert(self@.insert(p@) =~= self@);
        }
    }
}

/// The directories to materialize for `p`: its ancestors, root first. An
/// empty path has none.
pub open spec fn dirs_view(p: Seq<char>) -> Seq<Seq<char>> {
    if p.len() == 0 {
        seq![]
    } else {
        ancestors_view(p).reverse()
    }
}

/// The directories that must exist before a file can be written at `p`: its
/// ancestors without `p` itself, root first.
pub open spec fn parent_dirs_view(p: Seq<char>) -> Seq<Seq<char>> {
    ancestors_view(p).drop_first().reverse()
}

/// The list of directories to materialize leaves out exactly the empty
/// string: the only path with an empty ancestor is the empty path, whose
/// single ancestor is itself.
pub proof fn law_dirs_nonempty(p: Seq<char>)
    ensures
        forall|i: int| 0 <= i < dirs_view(p).len() ==> #[trigger] dirs_view(p)[i].len() > 0,
        forall|i: int|
            0 <= i < parent_dirs_view(p).len() ==> #[trigger] parent_dirs_view(p)[i].len() > 0,
        p.len() == 0 ==> ancestors_view(p) == seq![p],
{
    if p.len() > 0 {
        lemma_ancestors_nonempty(p);
        let a = ancestors_view(p);
        assert forall|i: int| 0 <= i < dirs_view(p).len() implies #[trigger] dirs_view(p)[i].len()
            > 0 by {
            assert(dirs_view(p)[i] == a[a.len() - 1 - i]);
        }
        assert forall|i: int| 0 <= i < parent_dirs_view(p).len() implies #[trigger] parent_dirs_view(
            p,
        )[i].len() > 0 by {
            assert(parent_dirs_view(p)[i] == a.drop_first()[a.len() - 2 - i]);
            assert(a.drop_first()[a.len() - 2 - i] == a[a.len() - 1 - i]);
        }
    }
}

/// A file's own path is never among the directories materialized for it:
/// each of them is strictly shorter.
pub proof fn law_parent_dirs_exclude_target(p: Seq<char>)
    ensures
        forall|i: int|
            0 <= i < parent_dirs_view(p).len() ==> #[trigger] parent_dirs_view(p)[i].len() < p.len(),
{
    law_ancestors_shorter(p);
    let a = ancestors_view(p);
    assert forall|i: int| 0 <= i < parent_dirs_view(p).len() implies #[trigger] parent_dirs_view(
        p,
    )[i].len() < p.len() by {
        assert(parent_dirs_view(p)[i] == a.drop_first()[a.len() - 2 - i]);
        assert(a.drop_first()[a.len() - 2 - i] == a[a.len() - 1 - i]);
    }
}

/// The strings of `v` in reverse order.
fn reversed(v: &Vec<String>) -> (r: Vec<String>)
    ensures
        views(r@) == views(v@).reverse(),
{
    let n = v.len();
    let mut out: Vec<String> = Vec::new();
    let mut i: usize = n;
    while i > 0
        invariant
            n == v@.len(),
            i <= n,
            out@.len() == n - i,
            forall|j: int| 0 <= j < out@.len() ==> #[trigger] out@[j]@ == v@[n - 1 - j]@,
        decreases i,
    {
        out.push(v[i - 1].clone());
        i = i - 1;
    }
    assert(views(out@) =~= views(v@).reverse());
    out
}

/// The ancestors of `p` to materialize, root first.
pub fn dirs_to_materialize(p: &SimplePath) -> (r: Vec<String>)
    ensures
        views(r@) == dirs_view(p@),
{
    if p.as_str().unicode_len() == 0 {
        let r: Vec<String> = Vec::new();
        assert(views(r@) =~= Seq::<Seq<char>>::empty());
        r
    } else {
        reversed(&p.ancestors())
    }
}

/// The directories to materialize before writing a file at `p`, root first.
pub fn parent_dirs(p: &SimplePath) -> (r: Vec<String>)
    ensures
        views(r@) == parent_dirs_view(p@),
{
    let mut a = p.ancestors();
    assert(views(a@).len() >= 1);
    let ghost before = a@;
    a.remove(0);
    assert(views(a@) =~= views(before).drop_first());
    reversed(&a)
}

/// The index of the first directory at or after `from` that `cache` does not
/// hold, or the length of `dirs` when there is none.
pub open spec fn first_uncached(dirs: Seq<Seq<char>>, from: int, cache: Set<Seq<char>>) -> int
    decreases dirs.len() - from,
{
    if from < 0 || from >= dirs.len() {
        dirs.len() as int
    } else if cache.contains(dirs[from]) {
        first_uncached(dirs, from + 1, cache)
    } else {
        from
    }
}

/// The directory probed next is one the cache does not hold; those skipped
/// over are all in the cache.
pub proof fn law_probe_only_uncached(dirs: Seq<Seq<char>>, from: int, cache: Set<Seq<char>>)
    requires
        0 <= from <= dirs.len(),
    ensures
        from <= first_uncached(dirs, from, cache) <= dirs.len(),
        first_uncached(dirs, from, cache) < dirs.len() ==> !cache.contains(
            dirs[first_uncached(dirs, from, cache)],
        ),
        forall|j: int| from <= j < first_uncached(dirs, from, cache) ==> cache.contains(#[trigger] dirs[j]),
    decreases dirs.len() - from,
{
    if from < dirs.len() && cache.contains(dirs[from]) {
        law_probe_only_uncached(dirs, from + 1, cache);
    }
}

/// A directory once recorded in the cache is never probed again: the cache
/// only grows, and the next probe is always of a directory it does not hold.
pub proof fn law_cached_dir_never_probed(
    dirs: Seq<Seq<char>>,
    from: int,
    cache: Set<Seq<char>>,
    d: Seq<char>,
)
    requires
        0 <= from <= dirs.len(),
        cache.contains(d),
    ensures
        first_uncached(dirs, from, cache) < dirs.len() ==> dirs[first_uncached(dirs, from, cache)]
            != d,
{
    law_probe_only_uncached(dirs, from, cache);
}

/// The directories that a run over `dirs` checks, in order, when every check
/// or creation succeeds: each one that the cache does not hold yet, once.
pub open spec fn probes(dirs: Seq<Seq<char>>, cache: Set<Seq<char>>) -> Seq<Seq<char>>
    decreases dirs.len(),
{
    if dirs.len() == 0 {
        seq![]
    } else if cache.contains(dirs[0]) {
        probes(dirs.drop_first(), cache)
    } else {
        seq![dirs[0]] + probes(dirs.drop_first(), cache.insert(dirs[0]))
    }
}

/// The directories checked over successive runs that share one cache.
pub open spec fn run_probes(runs: Seq<Seq<Seq<char>>>, cache: Set<Seq<char>>) -> Seq<Seq<char>>
    decreases runs.len(),
{
    if runs.len() == 0 {
        seq![]
    } else {
        probes(runs[0], cache) + run_probes(runs.drop_first(), cache + runs[0].to_set())
    }
}

/// What a run checks from position `from` on is the first uncached
/// directory, then what it checks after recording that one: the order in
/// which `Materializer::step` asks for checks.
pub proof fn law_probes_follow_steps(dirs: Seq<Seq<char>>, from: int, cache: Set<Seq<char>>)
    requires
        0 <= from <= dirs.len(),
    ensures
        ({
            let f = first_uncached(dirs, from, cache);
            probes(dirs.subrange(from, dirs.len() as int), cache) == if f < dirs.len() {
                seq![dirs[f]] + probes(dirs.subrange(f + 1, dirs.len() as int), cache.insert(dirs[f]))
            } else {
                Seq::<Seq<char>>::empty()
            }
        }),
    decreases dirs.len() - from,
{
    let rest = dirs.subrange(from, dirs.len() as int);
    if from < dirs.len() {
        assert(rest[0] == dirs[from]);
        assert(rest.drop_first() =~= dirs.subrange(from + 1, dirs.len() as int));
        if cache.contains(dirs[from]) {
            law_probes_follow_steps(dirs, from + 1, cache);
        }
    } else {
        assert(rest.len() == 0);
    }
}

proof fn lemma_probes_distinct(dirs: Seq<Seq<char>>, cache: Set<Seq<char>>)
    ensures
        probes(dirs, cache).no_duplicates(),
        forall|i: int|
            0 <= i < probes(dirs, cache).len() ==> !cache.contains(#[trigger] probes(dirs, cache)[i])
                && dirs.contains(probes(dirs, cache)[i]),
    decreases dirs.len(),
{
    if dirs.len() > 0 {
        let d = dirs[0];
        let rest = dirs.drop_first();
        if cache.contains(d) {
            lemma_probes_distinct(rest, cache);
            let p = probes(dirs, cache);
            assert forall|i: int| 0 <= i < p.len() implies !cache.contains(#[trigger] p[i])
                && dirs.contains(p[i]) by {
                let j = choose|j: int| 0 <= j < rest.len() && rest[j] == p[i];
                assert(dirs[j + 1] == p[i]);
            }
        } else {
            let c2 = cache.insert(d);
            lemma_probes_distinct(rest, c2);
            let q = probes(rest, c2);
            let p = seq![d] + q;
            assert(p == probes(dirs, cache));
            assert forall|i: int| 0 <= i < p.len() implies !cache.contains(#[trigger] p[i])
                && dirs.contains(p[i]) by {
                if i == 0 {
                    assert(dirs[0] == p[0]);
                } else {
                    assert(p[i] == q[i - 1]);
                    assert(!c2.contains(q[i - 1]));
                    let j = choose|j: int| 0 <= j < rest.len() && rest[j] == q[i - 1];
                    assert(dirs[j + 1] == p[i]);
                }
            }
            assert forall|i: int, j: int| 0 <= i < p.len() && 0 <= j < p.len() && i != j implies p[i]
                != p[j] by {
                if i == 0 {
                    assert(!c2.contains(q[j - 1]));
                } else if j == 0 {
                    assert(!c2.contains(q[i - 1]));
                } else {
                    assert(p[i] == q[i - 1] && p[j] == q[j - 1]);
                }
            }
        }
    }
}

/// Over successive runs sharing one cache that starts as `cache`, where
/// every check or creation succeeds, no directory is checked twice, and none
/// that the cache held at the start is checked at all.
pub proof fn law_each_dir_checked_once(runs: Seq<Seq<Seq<char>>>, cache: Set<Seq<char>>)
    ensures
        run_probes(runs, cache).no_duplicates(),
        forall|i: int|
            0 <= i < run_probes(runs, cache).len() ==> !cache.contains(
                #[trigger] run_probes(runs, cache)[i],
            ),
    decreases runs.len(),
{
    if runs.len() > 0 {
        let first = runs[0];
        let c2 = cache + first.to_set();
        lemma_probes_distinct(first, cache);
        law_each_dir_checked_once(runs.drop_first(), c2);
        let a = probes(first, cache);
        let b = run_probes(runs.drop_first(), c2);
        let p = a + b;
        assert(p == run_probes(runs, cache));
        assert forall|i: int| 0 <= i < p.len() implies !cache.contains(#[trigger] p[i]) by {
            if i >= a.len() {
                assert(p[i] == b[i - a.len()]);
                assert(!c2.contains(b[i - a.len()]));
            }
        }
        assert forall|i: int, j: int| 0 <= i < p.len() && 0 <= j < p.len() && i != j implies p[i]
            != p[j] by {
            if i < a.len() && j >= a.len() {
                assert(first.contains(a[i]));
                assert(c2.contains(a[i]));
                assert(!c2.contains(b[j - a.len()]));
            } else if j < a.len() && i >= a.len() {
                assert(first.contains(a[j]));
                assert(c2.contains(a[j]));
                assert(!c2.contains(b[i - a.len()]));
            } else if i >= a.len() {
                assert(p[i] == b[i - a.len()] && p[j] == b[j - a.len()]);
            }
        }
    }
}

/// What a remote call answered about the directory in question.
#[derive(Clone, Copy, Debug, PartialEq, Eq, Structural)]
pub enum DirReply {
    /// The existence check found the directory.
    Exists,
    /// The existence check found nothing at that path.
    NotFound,
    /// The creation call made the directory.
    Created,
    /// The creation call found the directory already there.
    AlreadyExists,
    /// The call failed for any other reason.
    Failed,
}

/// What the caller must do next for the directories of one target.
#[derive(Debug)]
pub enum DirAction {
    /// Check whether this directory exists, and reply with the answer.
    Stat(String),
    /// Create this directory, and reply with the answer.
    Mkdir(String),
    /// Every directory exists.
    Done,
    /// Materialization failed at this directory.
    Abort(String),
}

/// Which reply a materialization run is waiting for.
#[derive(Clone, Copy, Debug, PartialEq, Eq, Structural)]
pub enum Phase {
    /// The answer to an existence check.
    Probing,
    /// The answer to a creation call.
    Creating,
    /// None: the run is over.
    Finished,
}

/// One run that makes sure a list of directories exists, root first.
pub struct Materializer {
    dirs: Vec<String>,
    idx: usize,
    phase: Phase,
}

impl Materializer {
    pub closed spec fn dirs(&self) -> Seq<Seq<char>> {
        views(self.dirs@)
    }

    /// Index of the directory being worked on.
    pub closed spec fn index(&self) -> int {
        self.idx as int
    }

    pub closed spec fn phase(&self) -> Phase {
        self.phase
    }

    /// The index stays within the list, and points at a directory while the
    /// run goes on.
    pub open spec fn wf(&self) -> bool {
        &&& 0 <= self.index() <= self.dirs().len()
        &&& self.phase() != Phase::Finished ==> self.index() < self.dirs().len()
    }

    /// After moving to the first uncached directory at or after `from`: the
    /// action asks for a check of it, or says that all is done.
    pub open spec fn moved_on(&self, from: int, cache: Set<Seq<char>>, r: &DirAction) -> bool {
        &&& self.index() == first_uncached(self.dirs(), from, cache)
        &&& self.index() < self.dirs().len() ==> {
            &&& self.phase() == Phase::Probing
            &&& r matches DirAction::Stat(d) && d@ == self.dirs()[self.index()]
        }
        &&& self.index() == self.dirs().len() ==> {
            &&& self.phase() == Phase::Finished
            &&& r is Done
        }
    }

    /// What one step does, from run `m0` and cache `c0` to run `m1` and
    /// cache `c1`, given `reply`, with `r` the action returned: a finished run
    /// stays as it is; a confirmed directory is recorded and the run moves on;
    /// a missing one is to be created; anything else aborts at that directory.
    pub open spec fn stepped(
        m0: Materializer,
        m1: Materializer,
        c0: Set<Seq<char>>,
        c1: Set<Seq<char>>,
        reply: DirReply,
        r: &DirAction,
    ) -> bool {
        &&& m0.phase() == Phase::Finished ==> {
            &&& r is Done
            &&& m1 == m0
            &&& c1 == c0
        }
        &&& m0.phase() != Phase::Finished ==> {
            let d = m0.dirs()[m0.index()];
            let confirmed = (m0.phase() == Phase::Probing && reply == DirReply::Exists) || (
            m0.phase() == Phase::Creating && (reply == DirReply::Created || reply
                == DirReply::AlreadyExists));
            let missing = m0.phase() == Phase::Probing && reply == DirReply::NotFound;
            &&& confirmed ==> {
                &&& c1 == c0.insert(d)
                &&& m1.moved_on(m0.index() + 1, c1, r)
            }
            &&& missing ==> {
                &&& c1 == c0
                &&& m1.index() == m0.index()
                &&& m1.phase() == Phase::Creating
                &&& r matches DirAction::Mkdir(p) && p@ == d
            }
            &&& (!confirmed && !missing) ==> {
                &&& c1 == c0
                &&& m1.phase() == Phase::Finished
                &&& m1.index() == m0.index()
                &&& r matches DirAction::Abort(p) && p@ == d
            }
        }
    }

    fn advance(&mut self, cache: &DirectoryCache) -> (r: DirAction)
        requires
            old(self).index() <= old(self).dirs().len(),
        ensures
            final(self).dirs() == old(self).dirs(),
            final(self).wf(),
            final(self).moved_on(old(self).index(), cache@, &r),
    {
        proof {
            law_probe_only_uncached(self.dirs(), self.index(), cache@);
        }
        let ghost from = self.idx as int;
        let ghost d0 = self.dirs@;
        while self.idx < self.dirs.len() && cache.contains(self.dirs[self.idx].as_str())
            invariant
                self.dirs@ == d0,
                from <= self.idx <= self.dirs@.len(),
                first_uncached(views(self.dirs@), from, cache@) == first_uncached(
                    views(self.dirs@),
                    self.idx as int,
                    cache@,
                ),
            decreases self.dirs@.len() - self.idx,
        {
            assert(views(self.dirs@)[self.idx as int] == self.dirs@[self.idx as int]@);
            self.idx = self.idx + 1;
        }
        if self.idx < self.dirs.len() {
            assert(views(self.dirs@)[self.idx as int] == self.dirs@[self.idx as int]@);
            self.phase = Phase::Probing;
            DirAction::Stat(self.dirs[self.idx].clone())
        } else {
            self.phase = Phase::Finished;
            DirAction::Done
        }
    }

    /// Starts a run over `dirs`: the first action checks the first directory
    /// that `cache` does not hold.
    pub fn start(dirs: Vec<String>, cache: &DirectoryCache) -> (res: (Materializer, DirAction))
        ensures
            res.0.dirs() == views(dirs@),
            res.0.wf(),
            res.0.moved_on(0, cache@, &res.1),
    {
        let mut m = Materializer { dirs, idx: 0, phase: Phase::Probing };
        let a = m.advance(cache);
        (m, a)
    }

    /// Takes the reply to the last action. A directory found or created is
    /// recorded in `cache` and the run moves on; a missing one is to be
    /// created; any failure, or a reply that does not fit the last action,
    /// ends the run at that directory.
    pub fn step(&mut self, cache: &mut DirectoryCache, reply: DirReply) -> (r: DirAction)
        requires
            old(self).wf(),
        ensures
            final(self).dirs() == old(self).dirs(),
            final(self).wf(),
            Materializer::stepped(*old(self), *final(self), old(cache)@, final(cache)@, reply, &r),
    {
        if self.phase == Phase::Finished {
            return DirAction::Done;
        }
        let i = self.idx;
        assert(i < self.dirs.len());
        assert(views(self.dirs@)[i as int] == self.dirs@[i as int]@);
        let confirmed = match (self.phase, reply) {
            (Phase::Probing, DirReply::Exists) => true,
            (Phase::Creating, DirReply::Created) => true,
            (Phase::Creating, DirReply::AlreadyExists) => true,
            _ => false,
        };
        if confirmed {
            cache.insert(self.dirs[i].as_str());
            self.idx = i + 1;
            self.advance(cache)
        } else if self.phase == Phase::Probing && reply == DirReply::NotFound {
            self.phase = Phase::Creating;
            DirAction::Mkdir(self.dirs[i].clone())
        } else {
            self.phase = Phase::Finished;
            DirAction::Abort(self.dirs[i].clone())
        }
    }
}

} // verus!
