//! Purging the chosen projects: one outcome for each path submitted,
//! whatever order the workers finish in.
use vstd::prelude::*;
use crate::walk::{names_view, paths_view, copy_path};

verus! {

/// How purging one project went: `error` is `None` on success, else the
/// cause of the failure.
pub struct CleanupOutcome {
    pub path: Vec<Vec<u8>>,
    pub error: Option<String>,
}

impl CleanupOutcome {
    pub open spec fn path_view(&self) -> Seq<Seq<u8>> {
        names_view(self.path@)
    }

    pub open spec fn succeeded(&self) -> bool {
        self.error is None
    }

    pub fn is_success(&self) -> (r: bool)
        ensures
            r == self.succeeded(),
    {
        self.error.is_none()
    }
}

/// Whether the outcomes answer the submitted paths one for one, in order.
pub open spec fn one_per_path(outcomes: Seq<CleanupOutcome>, paths: Seq<Seq<Seq<u8>>>) -> bool {
    outcomes.len() == paths.len() && forall|i: int| 0 <= i < paths.len() ==> #[trigger] outcomes[i].path_view() == paths[i]
}

/// The outcomes of a dry run: every path succeeds and nothing is run.
pub fn dry_run_outcomes(paths: &Vec<Vec<Vec<u8>>>) -> (r: Vec<CleanupOutcome>)
    ensures
        one_per_path(r@, paths_view(paths@)),
        forall|i: int| 0 <= i < r@.len() ==> (#[trigger] r@[i]).succeeded(),
{
    let mut r: Vec<CleanupOutcome> = Vec::new();
    let mut i: usize = 0;
    while i < paths.len()
        invariant
            i <= paths@.len(),
            r@.len() == i,
            forall|k: int| 0 <= k < i ==> (#[trigger] r@[k]).path_view() == names_view(paths@[k]@),
            forall|k: int| 0 <= k < i ==> (#[trigger] r@[k]).succeeded(),
        decreases paths.len() - i,
    {
        r.push(CleanupOutcome { path: copy_path(&paths[i]), error: None });
        i += 1;
    }
    r
}

/// The outcomes of a purge as workers report them: one slot for each path
/// submitted, filled once.
pub struct OutcomeCollector {
    paths: Vec<Vec<Vec<u8>>>,
    slots: Vec<Option<Option<String>>>,
}

impl OutcomeCollector {
    /// The paths submitted, in order.
    pub closed spec fn submitted(&self) -> Seq<Seq<Seq<u8>>> {
        paths_view(self.paths@)
    }

    /// For each submitted path, its result once reported: `Some(None)` on
    /// success, `Some(Some(cause))` on failure.
    pub closed spec fn reported(&self) -> Seq<Option<Option<String>>> {
        self.slots@
    }

    pub closed spec fn wf(&self) -> bool {
        self.slots@.len() == self.paths@.len()
    }

    pub open spec fn is_complete_spec(&self) -> bool {
        forall|i: int| 0 <= i < self.reported().len() ==> #[trigger] self.reported()[i] is Some
    }

    /// A collector for `paths`, with nothing reported.
    pub fn new(paths: Vec<Vec<Vec<u8>>>) -> (r: OutcomeCollector)
        ensures
            r.wf(),
            r.submitted() == paths_view(paths@),
            r.reported().len() == paths@.len(),
            forall|i: int| 0 <= i < paths@.len() ==> #[trigger] r.reported()[i] is None,
    {
        let mut slots: Vec<Option<Option<String>>> = Vec::new();
        while slots.len() < paths.len()
            invariant
                slots@.len() <= paths@.len(),
                forall|i: int| 0 <= i < slots@.len() ==> #[trigger] slots@[i] is None,
            decreases paths.len() - slots.len(),
        {
            slots.push(None);
        }
        OutcomeCollector { paths, slots }
    }

    pub fn len(&self) -> (r: usize)
        ensures
            r == self.submitted().len(),
    {
        self.paths.len()
    }

    /// The submitted path at `index`.
    pub fn path_at(&self, index: usize) -> (r: Vec<Vec<u8>>)
        requires
            index < self.submitted().len(),
        ensures
            names_view(r@) == self.submitted()[index as int],
    {
        copy_path(&self.paths[index])
    }

    /// Whether the path at `index` has no result yet.
    pub fn is_open(&self, index: usize) -> (r: bool)
        requires
            self.wf(),
        ensures
            r == (index < self.submitted().len() && self.reported()[index as int] is None),
    {
        index < self.slots.len() && self.slots[index].is_none()
    }

    /// Records the result for the path at `index`, which has none yet:
    /// `None` for success, else the cause of the failure.
    pub fn record(&mut self, index: usize, error: Option<String>)
        requires
            old(self).wf(),
            index < old(self).submitted().len(),
            old(self).reported()[index as int] is None,
        ensures
            final(self).wf(),
            final(self).submitted() == old(self).submitted(),
            final(self).reported() == old(self).reported().update(index as int, Some(error)),
    {
        self.slots.set(index, Some(error));
    }

    /// Whether every submitted path has its result.
    pub fn is_complete(&self) -> (r: bool)
        requires
            self.wf(),
        ensures
            r == self.is_complete_spec(),
    {
        let mut i: usize = 0;
        while i < self.slots.len()
            invariant
                i <= self.slots@.len(),
                forall|k: int| 0 <= k < i ==> #[trigger] self.slots@[k] is Some,
            decreases self.slots.len() - i,
        {
            if self.slots[i].is_none() {
                return false;
            }
            i += 1;
        }
        true
    }

    /// The outcomes, one for each submitted path, in the order submitted.
    pub fn into_outcomes(self) -> (r: Vec<CleanupOutcome>)
        requires
            self.wf(),
            self.is_complete_spec(),
        ensures
            one_per_path(r@, self.submitted()),
            forall|i: int| 0 <= i < r@.len() ==> Some((#[trigger] r@[i]).error) == self.reported()[i],
    {
        let OutcomeCollector { paths, slots } = self;
        let mut r: Vec<CleanupOutcome> = Vec::new();
        let mut i: usize = 0;
        while i < paths.len()
            invariant
                slots@.len() == paths@.len(),
                forall|k: int| 0 <= k < slots@.len() ==> #[trigger] slots@[k] is Some,
                i <= paths@.len(),
                r@.len() == i,
                forall|k: int| 0 <= k < i ==> (#[trigger] r@[k]).path_view() == names_view(paths@[k]@),
                forall|k: int| 0 <= k < i ==> Some((#[trigger] r@[k]).error) == slots@[k],
            decreases paths.len() - i,
        {
            let error = match &slots[i] {
                Some(e) => clone_error(e),
                None => None,
            };
            r.push(CleanupOutcome { path: copy_path(&paths[i]), error });
            i += 1;
        }
        r
    }
}

pub(crate) fn clone_error(e: &Option<String>) -> (r: Option<String>)
    ensures
        r == *e,
{
    match e {
        Some(s) => Some(s.clone()),
        None => None,
    }
}

/// No submitted path is lost or answered twice: each path has as many
/// outcomes as it was submitted times.
pub proof fn lemma_outcomes_match_submissions(outcomes: Seq<CleanupOutcome>, paths: Seq<Seq<Seq<u8>>>)
    requires
        one_per_path(outcomes, paths),
    ensures
        outcomes.map_values(|o: CleanupOutcome| o.path_view()).to_multiset() == paths.to_multiset(),
{
    assert(outcomes.map_values(|o: CleanupOutcome| o.path_view()) =~= paths);
}

/// The positions of the submitted paths that worker `w` of `workers` takes.
pub open spec fn worker_share(n: nat, workers: nat, w: nat) -> Seq<nat>
    decreases n,
{
    if n == 0 {
        Seq::empty()
    } else {
        let r = worker_share((n - 1) as nat, workers, w);
        if (n - 1) as nat % workers == w { r.push((n - 1) as nat) } else { r }
    }
}

/// The positions, out of `n`, that worker `w` of a pool of `workers` takes:
/// every `workers`-th one, starting at `w`.
pub fn worker_indices(n: usize, workers: usize, w: usize) -> (r: Vec<usize>)
    requires
        workers > 0,
    ensures
        r@.map_values(|i: usize| i as nat) == worker_share(n as nat, workers as nat, w as nat),
{
    let mut r: Vec<usize> = Vec::new();
    let mut i: usize = 0;
    while i < n
        invariant
            i <= n,
            workers > 0,
            r@.map_values(|i: usize| i as nat) == worker_share(i as nat, workers as nat, w as nat),
        decreases n - i,
    {
        let ghost before = r@;
        if i % workers == w {
            r.push(i);
            assert(r@.map_values(|i: usize| i as nat) =~= before.map_values(|i: usize| i as nat).push(i as nat));
        }
        i += 1;
    }
    r
}

proof fn lemma_share_members(n: nat, workers: nat, w: nat, i: nat)
    requires
        workers > 0,
    ensures
        worker_share(n, workers, w).contains(i) <==> (i < n && i % workers == w),
        worker_share(n, workers, w).no_duplicates(),
        forall|k: int| 0 <= k < worker_share(n, workers, w).len() ==> #[trigger] worker_share(n, workers, w)[k] < n,
    decreases n,
{
    if n > 0 {
        let m = (n - 1) as nat;
        lemma_share_members(m, workers, w, i);
        let r = worker_share(m, workers, w);
        if m % workers == w {
            assert(r.push(m)[r.len() as int] == m);
            if r.push(m).contains(i) && i != m {
                let k = choose|k: int| 0 <= k < r.push(m).len() && r.push(m)[k] == i;
                assert(r[k] == i);
            }
            if r.contains(i) {
                let k = choose|k: int| 0 <= k < r.len() && r[k] == i;
                assert(r.push(m)[k] == i);
            }
        }
    }
}

/// Whatever the size of the pool, each submitted path is taken by exactly
/// one worker, once.
pub proof fn lemma_each_path_one_worker(n: nat, workers: nat, i: nat)
    requires
        workers > 0,
        i < n,
    ensures
        worker_share(n, workers, i % workers).contains(i),
        forall|w: nat| w != i % workers ==> !(#[trigger] worker_share(n, workers, w)).contains(i),
        worker_share(n, workers, i % workers).no_duplicates(),
{
    lemma_share_members(n, workers, i % workers, i);
    assert forall|w: nat| w != i % workers implies !(#[trigger] worker_share(n, workers, w)).contains(i) by {
        lemma_share_members(n, workers, w, i);
    }
}

} // verus!
