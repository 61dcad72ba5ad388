use vstd::prelude::*;
use crate::order::{final_results, finish, merge};
use crate::result::{views, ResultView, ScanResult};

verus! {

/// Why the results of the workers could not be put together.
#[derive(Clone, Copy, Debug, PartialEq, Eq, Structural)]
pub enum JoinError {
    /// Results were handed in for a worker that the scan does not have.
    UnknownWorker,
    /// Results were handed in twice for the same worker.
    AlreadyJoined,
    /// A worker ended without handing in its results.
    WorkerMissing,
}

/// Whether `order` names each of the workers `0..workers` exactly once: an
/// order in which the workers may hand in their results, none of them lost
/// and none handed in twice.
pub open spec fn is_merge_order(order: Seq<int>, workers: nat) -> bool {
    &&& forall|i: int| 0 <= i < order.len() ==> 0 <= #[trigger] order[i] < workers
    &&& forall|i: int, j: int| 0 <= i < j < order.len() ==> order[i] != order[j]
    &&& forall|w: int| 0 <= w < workers ==> #[trigger] order.contains(w)
}

/// The results of a scan while its workers hand them in.
///
/// It is made empty before the workers start, each worker appends its
/// results once, and when all of them have done so it is closed with
/// [`ResultSet::finish`], which gives the final results.
#[derive(Debug)]
pub struct ResultSet {
    results: Vec<ScanResult>,
    joined: Vec<bool>,
    order: Vec<usize>,
}

impl ResultSet {
    /// The invariant of the type: the workers that have handed in their
    /// results are known by their flag, and none of them is listed twice.
    pub closed spec fn wf(&self) -> bool {
        &&& forall|i: int|
            0 <= i < self.order().len() ==> 0 <= #[trigger] self.order()[i] < self.joined@.len()
        &&& forall|i: int, j: int|
            0 <= i < j < self.order().len() ==> self.order()[i] != self.order()[j]
        &&& forall|w: int|
            0 <= w < self.joined@.len() ==> (#[trigger] self.joined@[w] <==> self.order().contains(
                w,
            ))
    }

    /// The number of workers of the scan.
    pub closed spec fn workers(&self) -> nat {
        self.joined@.len()
    }

    /// The workers that have handed in their results, in the order in which
    /// they did.
    pub closed spec fn order(&self) -> Seq<int> {
        self.order@.map_values(|w: usize| w as int)
    }

    /// The results handed in so far: those of the first worker that handed
    /// in, then those of the next, and so on.
    pub closed spec fn results(&self) -> Seq<ResultView> {
        views(self.results@)
    }

    /// Whether every worker has handed in its results.
    pub open spec fn complete(&self) -> bool {
        forall|w: int| 0 <= w < self.workers() ==> #[trigger] self.order().contains(w)
    }

    /// In a well-formed set the workers that have handed in are workers of
    /// the scan, and each of them is listed once; so once the set is
    /// complete, each worker of the scan is listed exactly once.
    pub proof fn lemma_merge_order(&self)
        requires
            self.wf(),
        ensures
            forall|i: int|
                0 <= i < self.order().len() ==> 0 <= #[trigger] self.order()[i] < self.workers(),
            forall|i: int, j: int|
                0 <= i < j < self.order().len() ==> self.order()[i] != self.order()[j],
            self.complete() ==> is_merge_order(self.order(), self.workers()),
    {
    }

    /// An empty set for a scan with `workers` workers.
    pub fn new(workers: usize) -> (set: ResultSet)
        ensures
            set.wf(),
            set.workers() == workers,
            set.order() == Seq::<int>::empty(),
            set.results() == Seq::<ResultView>::empty(),
    {
        let mut joined: Vec<bool> = Vec::new();
        let mut i: usize = 0;
        while i < workers
            invariant
                i <= workers,
                joined@.len() == i,
                forall|w: int| 0 <= w < i ==> !(#[trigger] joined@[w]),
            decreases workers - i,
        {
            joined.push(false);
            i = i + 1;
        }
        let set = ResultSet { results: Vec::new(), joined, order: Vec::new() };
        assert(set.results() =~= Seq::<ResultView>::empty());
        assert(set.order() =~= Seq::<int>::empty());
        set
    }

    /// Appends the results of `worker` to the set and says how many workers
    /// have handed in by now. Results for a worker that the scan does not
    /// have, or that has handed in before, are refused and the set stays as
    /// it is.
    pub fn append(&mut self, worker: usize, results: Vec<ScanResult>) -> (outcome: Result<
        usize,
        JoinError,
    >)
        requires
            old(self).wf(),
        ensures
            final(self).wf(),
            final(self).workers() == old(self).workers(),
            match outcome {
                Ok(count) => {
                    &&& worker < old(self).workers()
                    &&& !old(self).order().contains(worker as int)
                    &&& final(self).order() == old(self).order().push(worker as int)
                    &&& final(self).results() == old(self).results() + views(results@)
                    &&& count == final(self).order().len()
                },
                Err(error) => {
                    &&& final(self).order() == old(self).order()
                    &&& final(self).results() == old(self).results()
                    &&& error == if worker >= old(self).workers() {
                        JoinError::UnknownWorker
                    } else {
                        JoinError::AlreadyJoined
                    }
                    &&& (worker >= old(self).workers() || old(self).order().contains(worker as int))
                },
            },
    {
        if worker >= self.joined.len() {
            return Err(JoinError::UnknownWorker);
        }
        if self.joined[worker] {
            return Err(JoinError::AlreadyJoined);
        }
        let ghost before = self.results@;
        let ghost old_order = self.order();
        merge(&mut self.results, results);
        self.joined.set(worker, true);
        self.order.push(worker);
        proof {
            let new_order = self.order();
            assert(new_order =~= old_order.push(worker as int));
            assert(views(self.results@) =~= views(before) + views(results@));
            assert forall|w: int| 0 <= w < self.joined@.len() implies (
            #[trigger] self.joined@[w] <==> new_order.contains(w)) by {
                if w == worker {
                    assert(new_order[old_order.len() as int] == w);
                } else {
                    if old_order.contains(w) {
                        let i = choose|i: int| 0 <= i < old_order.len() && old_order[i] == w;
                        assert(new_order[i] == w);
                    }
                    if new_order.contains(w) {
                        let i = choose|i: int| 0 <= i < new_order.len() && new_order[i] == w;
                        assert(old_order[i] == w);
                    }
                }
            }
            assert forall|i: int, j: int| 0 <= i < j < new_order.len() implies new_order[i]
                != new_order[j] by {
                if j == old_order.len() {
                    assert(old_order[i] == new_order[i]);
                    assert(old_order.contains(new_order[i]));
                }
            }
        }
        Ok(self.order.len())
    }

    /// Whether every worker has handed in its results.
    pub fn is_complete(&self) -> (complete: bool)
        requires
            self.wf(),
        ensures
            complete == self.complete(),
    {
        let mut w: usize = 0;
        while w < self.joined.len()
            invariant
                self.wf(),
                w <= self.joined@.len(),
                forall|v: int| 0 <= v < w ==> #[trigger] self.order().contains(v),
            decreases self.joined@.len() - w,
        {
            if !self.joined[w] {
                assert(!self.order().contains(w as int));
                return false;
            }
            w = w + 1;
        }
        true
    }

    /// Closes the set once the workers are done and gives the final results:
    /// the merged results, sorted by port where `sort` is set, then without
    /// closed ports where `no_closed` is set. Where a worker has not handed
    /// in its results the scan has a gap, and it fails as a whole.
    pub fn finish(self, sort: bool, no_closed: bool) -> (outcome: Result<
        Vec<ScanResult>,
        JoinError,
    >)
        requires
            self.wf(),
        ensures
            match outcome {
                Ok(finished) => {
                    &&& self.complete()
                    &&& views(finished@) == final_results(self.results(), sort, no_closed)
                },
                Err(error) => !self.complete() && error == JoinError::WorkerMissing,
            },
    {
        if !self.is_complete() {
            return Err(JoinError::WorkerMissing);
        }
        Ok(finish(self.results, sort, no_closed))
    }
}

} // verus!
