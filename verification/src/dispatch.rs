use vstd::prelude::*;

use crate::builder::DispatcherBuilder;
use crate::registry::{contains_usize, lemma_conflict_symmetric, lemma_push_no_duplicates, Dependencies};

verus! {

/// Fixed-size, index-addressable per-task running state: slot `i` is held
/// for the whole interval between task `i`'s submission and the end of
/// its effect, and is clear before and after a full pass.
pub struct CompletionTracker {
    pub bits: Vec<bool>,
}

impl View for CompletionTracker {
    type V = Seq<bool>;

    open spec fn view(&self) -> Seq<bool> {
        self.bits@
    }
}

impl CompletionTracker {
    /// An all-clear tracker with one slot per task.
    pub fn with_size(n: usize) -> (r: CompletionTracker)
        ensures
            r@.len() == n,
            forall|i: int| 0 <= i < n ==> !r@[i],
    {
        CompletionTracker { bits: falses(n) }
    }

    /// Sets or clears one slot.
    pub fn set(&mut self, i: usize, v: bool)
        requires
            i < old(self)@.len(),
        ensures
            final(self)@ == old(self)@.update(i as int, v),
    {
        self.bits[i] = v;
    }

    /// Reads one slot.
    pub fn get(&self, i: usize) -> (r: bool)
        requires
            i < self@.len(),
        ensures
            r == self@[i as int],
    {
        self.bits[i]
    }

    /// Whether every slot is clear.
    pub fn all_clear(&self) -> (r: bool)
        ensures
            r == (forall|i: int| 0 <= i < self@.len() ==> !self@[i]),
    {
        let mut i: usize = 0;
        while i < self.bits.len()
            invariant
                i <= self@.len(),
                forall|j: int| 0 <= j < i ==> !self@[j],
            decreases self@.len() - i,
        {
            if self.bits[i] {
                return false;
            }
            i = i + 1;
        }
        true
    }
}

/// A vector of `n` cleared flags.
fn falses(n: usize) -> (r: Vec<bool>)
    ensures
        r@.len() == n,
        forall|i: int| 0 <= i < n ==> !r@[i],
{
    let mut r: Vec<bool> = Vec::new();
    let mut i: usize = 0;
    while i < n
        invariant
            i <= n,
            r@.len() == i,
            forall|j: int| 0 <= j < i ==> !r@[j],
        decreases n - i,
    {
        r.push(false);
        i = i + 1;
    }
    r
}

/// How many of the listed predecessor ids are not finished yet.
pub open spec fn count_unfinished(preds: Seq<usize>, finished: Seq<bool>) -> nat
    decreases preds.len(),
{
    if preds.len() == 0 {
        0nat
    } else {
        count_unfinished(preds.drop_last(), finished) + (if finished[preds.last() as int] {
            0nat
        } else {
            1nat
        })
    }
}

/// The unmet count is zero exactly when every listed predecessor is
/// finished.
pub proof fn lemma_count_zero(preds: Seq<usize>, finished: Seq<bool>)
    ensures
        (count_unfinished(preds, finished) == 0) <==> (forall|j: int|
            0 <= j < preds.len() ==> finished[(#[trigger] preds[j]) as int]),
    decreases preds.len(),
{
    if preds.len() > 0 {
        lemma_count_zero(preds.drop_last(), finished);
        assert(forall|j: int|
            #![trigger preds.drop_last()[j]]
            #![trigger preds[j]]
            0 <= j < preds.len() - 1 ==> preds.drop_last()[j] == preds[j]);
        assert(preds.last() == preds[preds.len() - 1]);
        if count_unfinished(preds, finished) == 0 {
            assert forall|j: int| 0 <= j < preds.len() implies finished[(
            #[trigger] preds[j]) as int] by {
                if j < preds.len() - 1 {
                    assert(finished[(preds.drop_last()[j]) as int]);
                }
            }
        }
        if forall|j: int| 0 <= j < preds.len() ==> finished[(#[trigger] preds[j]) as int] {
            assert forall|j: int| 0 <= j < preds.drop_last().len() implies finished[(
            #[trigger] preds.drop_last()[j]) as int] by {
                assert(finished[(preds[j]) as int]);
            }
        }
    }
}

/// Flipping the flag of an id that is not listed leaves the count alone.
pub proof fn lemma_count_update_other(preds: Seq<usize>, finished: Seq<bool>, x: usize, v: bool)
    requires
        forall|j: int| 0 <= j < preds.len() ==> #[trigger] preds[j] != x,
        forall|j: int| 0 <= j < preds.len() ==> ((#[trigger] preds[j]) as int) < finished.len(),
        0 <= x < finished.len(),
    ensures
        count_unfinished(preds, finished.update(x as int, v)) == count_unfinished(
            preds,
            finished,
        ),
    decreases preds.len(),
{
    if preds.len() > 0 {
        assert(forall|j: int|
            #![trigger preds.drop_last()[j]]
            #![trigger preds[j]]
            0 <= j < preds.len() - 1 ==> preds.drop_last()[j] == preds[j]);
        lemma_count_update_other(preds.drop_last(), finished, x, v);
        assert(preds.last() == preds[preds.len() - 1]);
        assert(preds.last() != x);
        assert(finished.update(x as int, v)[preds.last() as int] == finished[preds.last() as int]);
        assert(count_unfinished(preds, finished) == count_unfinished(preds.drop_last(), finished)
            + (if finished[preds.last() as int] {
                0nat
            } else {
                1nat
            }));
        assert(count_unfinished(preds, finished.update(x as int, v)) == count_unfinished(
            preds.drop_last(),
            finished.update(x as int, v),
        ) + (if finished.update(x as int, v)[preds.last() as int] {
            0nat
        } else {
            1nat
        }));
    }
}

/// Finishing one listed, unfinished id lowers the count by exactly one.
pub proof fn lemma_count_update_finish(preds: Seq<usize>, finished: Seq<bool>, x: usize)
    requires
        preds.no_duplicates(),
        exists|k: int| 0 <= k < preds.len() && preds[k] == x,
        forall|j: int| 0 <= j < preds.len() ==> ((#[trigger] preds[j]) as int) < finished.len(),
        0 <= x < finished.len(),
        !finished[x as int],
    ensures
        count_unfinished(preds, finished) == count_unfinished(
            preds,
            finished.update(x as int, true),
        ) + 1,
    decreases preds.len(),
{
    let k = choose|k: int| 0 <= k < preds.len() && preds[k] == x;
    assert(forall|j: int|
        #![trigger preds.drop_last()[j]]
        #![trigger preds[j]]
        0 <= j < preds.len() - 1 ==> preds.drop_last()[j] == preds[j]);
    assert(preds.last() == preds[preds.len() - 1]);
    if k == preds.len() - 1 {
        assert forall|j: int| 0 <= j < preds.len() - 1 implies #[trigger] preds.drop_last()[j]
            != x by {
            assert(preds[j] != preds[k]);
        }
        lemma_count_update_other(preds.drop_last(), finished, x, true);
        assert(finished.update(x as int, true)[preds.last() as int]);
        assert(count_unfinished(preds, finished) == count_unfinished(preds.drop_last(), finished)
            + 1);
        assert(count_unfinished(preds, finished.update(x as int, true)) == count_unfinished(
            preds.drop_last(),
            finished.update(x as int, true),
        ));
    } else {
        assert(preds.drop_last()[k] == x);
        assert(preds.drop_last().no_duplicates());
        lemma_count_update_finish(preds.drop_last(), finished, x);
        assert(preds.last() == preds[preds.len() - 1] && preds[k] == x);
        assert(preds.last() != x);
        assert(finished.update(x as int, true)[preds.last() as int] == finished[preds.last() as int]);
        assert(count_unfinished(preds, finished) == count_unfinished(preds.drop_last(), finished)
            + (if finished[preds.last() as int] {
                0nat
            } else {
                1nat
            }));
        assert(count_unfinished(preds, finished.update(x as int, true)) == count_unfinished(
            preds.drop_last(),
            finished.update(x as int, true),
        ) + (if finished.update(x as int, true)[preds.last() as int] {
            0nat
        } else {
            1nat
        }));
    }
}

/// When no listed id is finished, the count is the whole list.
pub proof fn lemma_count_all_unfinished(preds: Seq<usize>, finished: Seq<bool>)
    requires
        forall|j: int| 0 <= j < preds.len() ==> !finished[(#[trigger] preds[j]) as int],
    ensures
        count_unfinished(preds, finished) == preds.len(),
    decreases preds.len(),
{
    if preds.len() > 0 {
        assert(forall|j: int|
            #![trigger preds.drop_last()[j]]
            #![trigger preds[j]]
            0 <= j < preds.len() - 1 ==> preds.drop_last()[j] == preds[j]);
        assert forall|j: int| 0 <= j < preds.drop_last().len() implies !finished[(
        #[trigger] preds.drop_last()[j]) as int] by {
            assert(!finished[(preds[j]) as int]);
        }
        lemma_count_all_unfinished(preds.drop_last(), finished);
        assert(preds.last() == preds[preds.len() - 1]);
        assert(!finished[(preds[preds.len() - 1]) as int]);
    }
}

/// The frozen task graph together with the live state of one dispatch
/// pass: total predecessor lists (explicit edges plus one implicit edge
/// for every conflicting pair), dependents, the ready queue, per-task
/// unmet predecessor counts, the completion tracker, and which tasks
/// have started and finished.
pub struct Dispatcher {
    pub dependencies: Dependencies,
    pub preds: Vec<Vec<usize>>,
    pub dependents: Vec<Vec<usize>>,
    pub ready: Vec<usize>,
    pub unmet: Vec<usize>,
    pub running: CompletionTracker,
    pub started: Vec<bool>,
    pub finished: Vec<bool>,
}

impl Dispatcher {
    /// How many tasks the frozen graph holds.
    pub open spec fn task_count(self) -> nat {
        self.preds@.len()
    }

    /// All predecessors of task `b`: explicit dependencies plus the
    /// implicit conflict edges materialized at freeze time.
    pub open spec fn preds_of(self, b: int) -> Seq<usize> {
        self.preds@[b]@
    }

    /// The ids that have task `a` as a predecessor.
    pub open spec fn dependents_of(self, a: int) -> Seq<usize> {
        self.dependents@[a]@
    }

    /// The explicit dependencies task `b` was registered with.
    pub open spec fn explicit_deps_of(self, b: int) -> Seq<usize> {
        self.dependencies.deps_of(b)
    }

    /// Tasks `a` and `b` conflict under the registered footprints.
    pub open spec fn conflicts(self, a: int, b: int) -> bool {
        self.dependencies.conflicts(a, b)
    }

    /// Task `i` has been submitted in this pass.
    pub open spec fn started(self, i: int) -> bool {
        self.started@[i]
    }

    /// Task `i`'s effect has finished in this pass.
    pub open spec fn finished(self, i: int) -> bool {
        self.finished@[i]
    }

    /// Task `i` is running: submitted and not yet finished; this is
    /// exactly its completion-tracker bit.
    pub open spec fn running(self, i: int) -> bool {
        self.running@[i]
    }

    /// The dispatcher is well formed. Beyond sizes:
    /// - predecessors point strictly backwards (the graph is acyclic);
    /// - explicit dependencies are predecessors, and so is the earlier
    ///   task of every conflicting pair (the conflict closure);
    /// - `dependents` inverts `preds`;
    /// - `unmet` counts each task's unfinished predecessors;
    /// - the tracker bit is set exactly while a task is running;
    /// - a started task has all its predecessors finished;
    /// - `ready` holds exactly the unstarted tasks with no unmet
    ///   predecessor.
    pub open spec fn graph_wf(self) -> bool {
        let n = self.task_count();
        &&& self.dependencies.wf()
        &&& self.dependencies.task_count() == n
        &&& self.dependents@.len() == n
        &&& forall|b: int| 0 <= b < n ==> (#[trigger] self.preds_of(b)).no_duplicates()
        &&& forall|b: int, a: usize|
            0 <= b < n && #[trigger] self.preds_of(b).contains(a) ==> (a as int) < b
        &&& forall|b: int, a: usize|
            0 <= b < n && #[trigger] self.explicit_deps_of(b).contains(a) ==> self.preds_of(
                b,
            ).contains(a)
        &&& forall|a: usize, b: usize|
            #![trigger self.conflicts(a as int, b as int)]
            (a as int) < (b as int) && (b as int) < n && self.conflicts(a as int, b as int)
                ==> self.preds_of(b as int).contains(a)
        &&& forall|a: int| 0 <= a < n ==> (#[trigger] self.dependents_of(a)).no_duplicates()
        &&& forall|a: int, b: usize|
            0 <= a < n && #[trigger] self.dependents_of(a).contains(b) ==> a < b && (b as int)
                < n
        &&& forall|a: usize, b: usize|
            #![trigger self.dependents_of(a as int).contains(b)]
            #![trigger self.preds_of(b as int).contains(a)]
            (a as int) < n && (b as int) < n ==> (self.dependents_of(a as int).contains(b)
                <==> self.preds_of(b as int).contains(a))
    }

    /// The live part of well-formedness: counts, flags and the ready
    /// queue agree with the predecessor lists.
    pub open spec fn state_wf(self) -> bool {
        let n = self.task_count();
        &&& self.unmet@.len() == n
        &&& self.started@.len() == n
        &&& self.finished@.len() == n
        &&& self.running@.len() == n
        &&& forall|b: int|
            0 <= b < n ==> (#[trigger] self.unmet@[b]) == count_unfinished(
                self.preds_of(b),
                self.finished@,
            )
        &&& forall|i: int| 0 <= i < n ==> ((#[trigger] self.finished@[i]) ==> self.started@[i])
        &&& forall|i: int|
            0 <= i < n ==> (#[trigger] self.running@[i]) == (self.started@[i]
                && !self.finished@[i])
        &&& forall|b: int, a: usize|
            0 <= b < n && #[trigger] self.preds_of(b).contains(a) && self.started@[b]
                ==> self.finished@[a as int]
        &&& self.ready@.no_duplicates()
        &&& forall|i: usize|
            #![trigger self.ready@.contains(i)]
            #![trigger self.unmet@[i as int]]
            self.ready@.contains(i) <==> ((i as int) < n && !self.started@[i as int]
                && self.unmet@[i as int] == 0)
    }

    pub open spec fn wf(self) -> bool {
        self.graph_wf() && self.state_wf()
    }
}

impl DispatcherBuilder {
    /// Freezes the accumulated registrations into a dispatcher.
    ///
    /// Materializes the conflict closure: besides its explicit
    /// dependencies, every task gets the earlier member of each
    /// conflicting pair it belongs to as a predecessor, so that resource
    /// safety reduces to predecessor ordering. Seeds the initial ready
    /// set from the total predecessor lists and allocates an all-clear
    /// completion tracker sized to the task count.
    pub fn finish(self) -> (d: Dispatcher)
        requires
            self.wf(),
        ensures
            d.wf(),
            d.task_count() == self.task_count(),
            d.dependencies == self.dependencies,
            forall|b: int|
                0 <= b < d.task_count() ==> #[trigger] d.explicit_deps_of(b) == self.deps_of(b),
            forall|i: int|
                0 <= i < d.task_count() ==> !#[trigger] d.started(i) && !d.finished(i)
                    && !d.running(i),
            forall|b: usize, a: usize|
                #![trigger d.preds_of(b as int).contains(a)]
                (b as int) < d.task_count() ==> (d.preds_of(b as int).contains(a) <==> (
                self.deps_of(b as int).contains(a) || ((a as int) < (b as int)
                    && self.dependencies.conflicts(a as int, b as int)))),
    {
        let DispatcherBuilder { dependencies, ready: _seed, map: _map, dependents } = self;
        let mut dependents = dependents;
        let n = dependents.len();
        proof {
            assert forall|a: int| 0 <= a < n implies (#[trigger] dependents@[a]@).no_duplicates() by {
                assert(self.dependents_of(a).no_duplicates());
                assert(self.dependents_of(a) == dependents@[a]@);
            }
            assert forall|a: int, b: usize|
                0 <= a < n && #[trigger] dependents@[a]@.contains(b) implies a < b && (b as int)
                < n by {
                assert(self.dependents_of(a) == dependents@[a]@);
                assert(self.dependents_of(a).contains(b));
            }
            assert forall|a: usize, b: usize|
                #![trigger dependents@[a as int]@.contains(b)]
                #![trigger dependencies.deps_of(b as int).contains(a)]
                (a as int) < n && 0 <= (b as int) && (b as int) < n implies (dependents@[
                a as int]@.contains(b) <==> dependencies.deps_of(b as int).contains(a)) by {
                assert(self.dependents_of(a as int) == dependents@[a as int]@);
                assert(self.deps_of(b as int) == dependencies.deps_of(b as int));
                assert((a as int) < self.task_count() && (b as int) < self.task_count() ==> (
                self.dependents_of(a as int).contains(b) <==> self.deps_of(b as int).contains(
                    a,
                )));
            }
        }
        let mut preds: Vec<Vec<usize>> = Vec::new();
        let mut j: usize = 0;
        while j < n
            invariant
                self.wf(),
                dependencies == self.dependencies,
                n == self.task_count(),
                j <= n,
                preds@.len() == j,
                dependents@.len() == n,
                forall|b: int| 0 <= b < j ==> (#[trigger] preds@[b]@).no_duplicates(),
                forall|b: int, a: usize|
                    0 <= b < j && #[trigger] preds@[b]@.contains(a) ==> (a as int) < b,
                forall|b: usize, a: usize|
                    #![trigger preds@[b as int]@.contains(a)]
                    #![trigger dependencies.conflicts(a as int, b as int)]
                    (b as int) < j ==> (preds@[b as int]@.contains(a) <==> (dependencies.deps_of(
                        b as int,
                    ).contains(a) || ((a as int) < (b as int) && dependencies.conflicts(
                        a as int,
                        b as int,
                    )))),
                forall|a: int| 0 <= a < n ==> (#[trigger] dependents@[a]@).no_duplicates(),
                forall|a: int, b: usize|
                    0 <= a < n && #[trigger] dependents@[a]@.contains(b) ==> a < b && (b as int)
                        < n,
                forall|a: usize, b: usize|
                    #![trigger dependents@[a as int]@.contains(b)]
                    #![trigger dependencies.deps_of(b as int).contains(a)]
                    (a as int) < n && j <= (b as int) && (b as int) < n ==> (dependents@[a as int]@.contains(b) <==> dependencies.deps_of(
                        b as int,
                    ).contains(a)),
                forall|a: usize, b: usize|
                    #![trigger dependents@[a as int]@.contains(b)]
                    #![trigger preds@[b as int]@.contains(a)]
                    (a as int) < n && (b as int) < j ==> (dependents@[a as int]@.contains(b)
                        <==> preds@[b as int]@.contains(a)),
            decreases n - j,
        {
            let elen = dependencies.dependencies[j].len();
            let mut row: Vec<usize> = Vec::new();
            let mut t: usize = 0;
            while t < elen
                invariant
                    self.wf(),
                    dependencies == self.dependencies,
                    n == self.task_count(),
                    (j as int) < n,
                    elen == dependencies.deps_of(j as int).len(),
                    t <= elen,
                    row@ == dependencies.deps_of(j as int).take(t as int),
                decreases elen - t,
            {
                let x = dependencies.dependencies[j][t];
                row.push(x);
                proof {
                    broadcast use vstd::seq_lib::group_seq_properties;

                    assert(row@ == dependencies.deps_of(j as int).take(t as int).push(x));
                    assert(row@ =~= dependencies.deps_of(j as int).take(t as int + 1));
                }
                t = t + 1;
            }
            proof {
                broadcast use vstd::seq_lib::group_seq_properties;

                assert(row@ == dependencies.deps_of(j as int).take(elen as int));
                assert(row@ =~= dependencies.deps_of(j as int));
                assert(self.deps_of(j as int) == dependencies.deps_of(j as int));
                assert(self.deps_of(j as int).no_duplicates());
            }
            let mut i: usize = 0;
            while i < j
                invariant
                    self.wf(),
                    dependencies == self.dependencies,
                    n == self.task_count(),
                    j < n,
                    i <= j,
                    preds@.len() == j,
                    dependents@.len() == n,
                    row@.no_duplicates(),
                    forall|a: usize| #[trigger] row@.contains(a) ==> (a as int) < j,
                    forall|a: usize|
                        #![trigger row@.contains(a)]
                        #![trigger dependencies.conflicts(a as int, j as int)]
                        row@.contains(a) <==> (dependencies.deps_of(j as int).contains(a) || ((
                        a as int) < i && dependencies.conflicts(a as int, j as int))),
                    forall|b: int| 0 <= b < j ==> (#[trigger] preds@[b]@).no_duplicates(),
                    forall|b: int, a: usize|
                        0 <= b < j && #[trigger] preds@[b]@.contains(a) ==> (a as int) < b,
                    forall|b: usize, a: usize|
                        #![trigger preds@[b as int]@.contains(a)]
                        #![trigger dependencies.conflicts(a as int, b as int)]
                        (b as int) < j ==> (preds@[b as int]@.contains(a) <==> (
                        dependencies.deps_of(b as int).contains(a) || ((a as int) < (b as int)
                            && dependencies.conflicts(a as int, b as int)))),
                    forall|a: int| 0 <= a < n ==> (#[trigger] dependents@[a]@).no_duplicates(),
                    forall|a: int, b: usize|
                        0 <= a < n && #[trigger] dependents@[a]@.contains(b) ==> a < b && (
                        b as int) < n,
                    forall|a: usize, b: usize|
                        #![trigger dependents@[a as int]@.contains(b)]
                        #![trigger dependencies.deps_of(b as int).contains(a)]
                        (a as int) < n && j < (b as int) && (b as int) < n ==> (dependents@[a as int]@.contains(b) <==> dependencies.deps_of(
                            b as int,
                        ).contains(a)),
                    forall|a: usize|
                        #![trigger dependents@[a as int]@.contains(j)]
                        (a as int) < n ==> (dependents@[a as int]@.contains(j)
                            <==> row@.contains(a)),
                    forall|a: usize, b: usize|
                        #![trigger dependents@[a as int]@.contains(b)]
                        #![trigger preds@[b as int]@.contains(a)]
                        (a as int) < n && (b as int) < j ==> (dependents@[a as int]@.contains(b)
                            <==> preds@[b as int]@.contains(a)),
                decreases j - i,
            {
                let c = dependencies.conflict(i, j);
                let ghost rowpre = row@;
                let ghost dpre = dependents@;
                if c {
                    if !contains_usize(&row, i) {
                        proof {
                            lemma_push_no_duplicates(rowpre, i);
                        }
                        row.push(i);
                        dependents[i].push(j);
                        proof {
                            broadcast use vstd::seq_lib::group_seq_properties;

                            assert(dependents@ == dpre.update(i as int, dependents@[i as int]));
                            assert(dependents@[i as int]@ == dpre[i as int]@.push(j));
                            assert(!dpre[i as int]@.contains(j));
                            lemma_push_no_duplicates(dpre[i as int]@, j);
                        }
                    }
                }
                proof {
                    broadcast use vstd::seq_lib::group_seq_properties;

                    assert forall|a: usize|
                        #![trigger row@.contains(a)]
                        #![trigger dependencies.conflicts(a as int, j as int)]
                        row@.contains(a) <==> (dependencies.deps_of(j as int).contains(a) || ((
                    a as int) < i + 1 && dependencies.conflicts(a as int, j as int))) by {
                        if a == i {
                            if c && !rowpre.contains(i) {
                                assert(row@ == rowpre.push(i));
                                assert(row@.contains(i));
                            }
                        } else {
                            assert(rowpre.contains(a) <==> (dependencies.deps_of(
                                j as int,
                            ).contains(a) || ((a as int) < i && dependencies.conflicts(
                                a as int,
                                j as int,
                            ))));
                            if row@ != rowpre {
                                assert(row@ == rowpre.push(i));
                            }
                        }
                    }
                    assert forall|a: usize|
                        #![trigger dependents@[a as int]@.contains(j)]
                        (a as int) < n implies (dependents@[a as int]@.contains(j)
                        <==> row@.contains(a)) by {
                        if a == i {
                            if c && !rowpre.contains(i) {
                                assert(dependents@[a as int]@ == dpre[a as int]@.push(j));
                            } else {
                                assert(dependents@[a as int]@ == dpre[a as int]@);
                            }
                        } else {
                            if dependents@ != dpre {
                                assert(dependents@[a as int]@ == dpre[a as int]@);
                                assert(row@ == rowpre.push(i));
                            }
                        }
                    }
                }
                i = i + 1;
            }
            preds.push(row);
            proof {
                broadcast use vstd::seq_lib::group_seq_properties;

            }
            j = j + 1;
        }
        let mut unmet: Vec<usize> = Vec::new();
        let mut ready: Vec<usize> = Vec::new();
        let mut b: usize = 0;
        while b < n
            invariant
                b <= n,
                preds@.len() == n,
                unmet@.len() == b,
                forall|bb: int| 0 <= bb < b ==> (#[trigger] unmet@[bb]) == preds@[bb]@.len(),
                ready@.no_duplicates(),
                forall|x: usize|
                    #[trigger] ready@.contains(x) <==> ((x as int) < b && preds@[x as int]@.len()
                        == 0),
            decreases n - b,
        {
            let row_len = preds[b].len();
            unmet.push(row_len);
            if row_len == 0 {
                proof {
                    broadcast use vstd::seq_lib::group_seq_properties;

                    assert(!ready@.contains(b));
                    lemma_push_no_duplicates(ready@, b);
                }
                ready.push(b);
            }
            proof {
                broadcast use vstd::seq_lib::group_seq_properties;

            }
            b = b + 1;
        }
        let started = falses(n);
        let finished = falses(n);
        let running = CompletionTracker::with_size(n);
        let d = Dispatcher { dependencies, preds, dependents, ready, unmet, running, started, finished };
        proof {
            broadcast use vstd::seq_lib::group_seq_properties;

            assert forall|bb: int| 0 <= bb < n implies (#[trigger] d.unmet@[bb])
                == count_unfinished(d.preds_of(bb), d.finished@) by {
                assert forall|jj: int| 0 <= jj < d.preds_of(bb).len() implies !d.finished@[(
                #[trigger] d.preds_of(bb)[jj]) as int] by {
                    assert(d.preds_of(bb).contains(d.preds_of(bb)[jj]));
                }
                lemma_count_all_unfinished(d.preds_of(bb), d.finished@);
            }
            assert forall|i: usize|
                #![trigger d.ready@.contains(i)]
                #![trigger d.unmet@[i as int]]
                d.ready@.contains(i) <==> ((i as int) < n && !d.started@[i as int]
                && d.unmet@[i as int] == 0) by {}
        }
        d
    }
}

/// The static part of well-formedness carries over to any state that
/// keeps the same graph.
proof fn lemma_graph_wf_transfer(a: Dispatcher, b: Dispatcher)
    requires
        a.graph_wf(),
        b.dependencies == a.dependencies,
        b.preds == a.preds,
        b.dependents == a.dependents,
    ensures
        b.graph_wf(),
{
    let n = b.task_count();
    assert(n == a.task_count());
    assert forall|bb: int| 0 <= bb < n implies (#[trigger] b.preds_of(bb)).no_duplicates() by {
        assert(a.preds_of(bb).no_duplicates());
        assert(b.preds_of(bb) == a.preds_of(bb));
    }
    assert forall|bb: int, aa: usize|
        0 <= bb < n && #[trigger] b.preds_of(bb).contains(aa) implies (aa as int) < bb by {
        assert(b.preds_of(bb) == a.preds_of(bb));
        assert(a.preds_of(bb).contains(aa));
    }
    assert forall|bb: int, aa: usize|
        0 <= bb < n && #[trigger] b.explicit_deps_of(bb).contains(aa) implies b.preds_of(
        bb,
    ).contains(aa) by {
        assert(b.explicit_deps_of(bb) == a.explicit_deps_of(bb));
        assert(a.explicit_deps_of(bb).contains(aa));
        assert(b.preds_of(bb) == a.preds_of(bb));
    }
    assert forall|aa: usize, bb: usize|
        #![trigger b.conflicts(aa as int, bb as int)]
        (aa as int) < (bb as int) && (bb as int) < n && b.conflicts(aa as int, bb as int)
            implies b.preds_of(bb as int).contains(aa) by {
        assert(b.conflicts(aa as int, bb as int) == a.conflicts(aa as int, bb as int));
        assert(a.conflicts(aa as int, bb as int) ==> a.preds_of(bb as int).contains(aa));
        assert(b.preds_of(bb as int) == a.preds_of(bb as int));
    }
    assert forall|aa: int| 0 <= aa < n implies (
    #[trigger] b.dependents_of(aa)).no_duplicates() by {
        assert(a.dependents_of(aa).no_duplicates());
        assert(b.dependents_of(aa) == a.dependents_of(aa));
    }
    assert forall|aa: int, bb: usize|
        0 <= aa < n && #[trigger] b.dependents_of(aa).contains(bb) implies aa < bb && (
    bb as int) < n by {
        assert(b.dependents_of(aa) == a.dependents_of(aa));
        assert(a.dependents_of(aa).contains(bb));
    }
    assert forall|aa: usize, bb: usize|
        #![trigger b.dependents_of(aa as int).contains(bb)]
        #![trigger b.preds_of(bb as int).contains(aa)]
        (aa as int) < n && (bb as int) < n implies (b.dependents_of(aa as int).contains(bb)
        <==> b.preds_of(bb as int).contains(aa)) by {
        assert(b.dependents_of(aa as int) == a.dependents_of(aa as int));
        assert(b.preds_of(bb as int) == a.preds_of(bb as int));
        assert((aa as int) < a.task_count() && (bb as int) < a.task_count() ==> (
        a.dependents_of(aa as int).contains(bb) <==> a.preds_of(bb as int).contains(aa)));
    }
}

/// Dropping the last element keeps membership of everything but the
/// last element of a duplicate-free sequence.
proof fn lemma_drop_last_contains<A>(s: Seq<A>, x: A)
    requires
        s.no_duplicates(),
        s.len() > 0,
    ensures
        s.drop_last().contains(x) <==> (s.contains(x) && x != s.last()),
{
    assert(forall|j: int|
        #![trigger s.drop_last()[j]]
        #![trigger s[j]]
        0 <= j < s.len() - 1 ==> s.drop_last()[j] == s[j]);
    assert(s.last() == s[s.len() - 1]);
    if s.drop_last().contains(x) {
        let j = choose|j: int| 0 <= j < s.len() - 1 && s.drop_last()[j] == x;
        assert(s[j] == x);
        assert(s[j] != s[s.len() - 1]);
    }
    if s.contains(x) && x != s.last() {
        let j = choose|j: int| 0 <= j < s.len() && s[j] == x;
        assert(s.drop_last()[j] == x);
    }
}

/// How many flags of a sequence are set.
pub open spec fn count_true(s: Seq<bool>) -> nat
    decreases s.len(),
{
    if s.len() == 0 {
        0nat
    } else {
        count_true(s.drop_last()) + (if s.last() {
            1nat
        } else {
            0nat
        })
    }
}

/// Setting one cleared flag raises the count by one.
proof fn lemma_count_true_update(s: Seq<bool>, i: int)
    requires
        0 <= i < s.len(),
        !s[i],
    ensures
        count_true(s.update(i, true)) == count_true(s) + 1,
    decreases s.len(),
{
    let s2 = s.update(i, true);
    if i == s.len() - 1 {
        assert(s2.drop_last() =~= s.drop_last());
        assert(s2.last());
    } else {
        assert(s2.drop_last() =~= s.drop_last().update(i, true));
        assert(!s.drop_last()[i]);
        lemma_count_true_update(s.drop_last(), i);
        assert(s2.last() == s.last());
    }
}

/// A sequence of cleared flags counts zero.
proof fn lemma_count_true_none(s: Seq<bool>)
    requires
        forall|i: int| 0 <= i < s.len() ==> !s[i],
    ensures
        count_true(s) == 0,
    decreases s.len(),
{
    if s.len() > 0 {
        assert(forall|j: int|
            #![trigger s.drop_last()[j]]
            #![trigger s[j]]
            0 <= j < s.len() - 1 ==> s.drop_last()[j] == s[j]);
        lemma_count_true_none(s.drop_last());
        assert(s.last() == s[s.len() - 1]);
    }
}

/// The count never exceeds the length.
proof fn lemma_count_true_le(s: Seq<bool>)
    ensures
        count_true(s) <= s.len(),
    decreases s.len(),
{
    if s.len() > 0 {
        lemma_count_true_le(s.drop_last());
    }
}

/// When every flag is set, the count is the length.
proof fn lemma_count_true_all(s: Seq<bool>)
    requires
        forall|i: int| 0 <= i < s.len() ==> s[i],
    ensures
        count_true(s) == s.len(),
    decreases s.len(),
{
    if s.len() > 0 {
        assert(forall|j: int|
            #![trigger s.drop_last()[j]]
            #![trigger s[j]]
            0 <= j < s.len() - 1 ==> s.drop_last()[j] == s[j]);
        lemma_count_true_all(s.drop_last());
        assert(s.last() == s[s.len() - 1]);
    }
}

impl Dispatcher {
    /// Takes one task off the ready queue and marks it submitted: its
    /// completion-tracker bit is set for the whole interval until
    /// `complete` is called for it. Returns `None` exactly when the
    /// ready queue is empty, leaving the state untouched.
    ///
    /// Every predecessor of the returned task has already finished.
    pub fn start_next(&mut self) -> (r: Option<usize>)
        requires
            old(self).wf(),
        ensures
            final(self).wf(),
            final(self).task_count() == old(self).task_count(),
            final(self).dependencies == old(self).dependencies,
            final(self).preds == old(self).preds,
            final(self).dependents == old(self).dependents,
            final(self).finished == old(self).finished,
            final(self).unmet == old(self).unmet,
            r is None <==> old(self).ready@.len() == 0,
            r is None ==> final(self).ready@ == old(self).ready@ && final(self).started == old(
                self,
            ).started && final(self).running == old(self).running,
            forall|i: usize|
                r == Some(i) ==> (i as int) < old(self).task_count() && old(
                    self,
                ).ready@.contains(i) && !old(self).started(i as int) && final(self).started@
                    == old(self).started@.update(i as int, true) && final(self).running@ == old(
                    self,
                ).running@.update(i as int, true) && final(self).ready@ == old(
                    self,
                ).ready@.drop_last(),
            forall|i: usize, p: usize|
                r == Some(i) && #[trigger] old(self).preds_of(i as int).contains(p) ==> old(
                    self,
                ).finished(p as int),
    {
        proof {
            broadcast use vstd::seq_lib::group_seq_properties;

        }
        let ghost pre = *self;
        match self.ready.pop() {
            None => {
                proof {
                    broadcast use vstd::seq_lib::group_seq_properties;

                    assert(self.ready@ == pre.ready@);
                    lemma_graph_wf_transfer(pre, *self);
                    let n = pre.task_count();
                    assert forall|bb: int| 0 <= bb < n implies (#[trigger] self.unmet@[bb])
                        == count_unfinished(self.preds_of(bb), self.finished@) by {
                        assert(pre.unmet@[bb] == count_unfinished(
                            pre.preds_of(bb),
                            pre.finished@,
                        ));
                        assert(self.preds_of(bb) == pre.preds_of(bb));
                    }
                    assert forall|ii: int|
                        0 <= ii < n implies ((#[trigger] self.finished@[ii])
                        ==> self.started@[ii]) by {
                        assert(pre.finished@[ii] ==> pre.started@[ii]);
                    }
                    assert forall|ii: int|
                        0 <= ii < n implies (#[trigger] self.running@[ii]) == (self.started@[ii]
                        && !self.finished@[ii]) by {
                        assert(pre.running@[ii] == (pre.started@[ii] && !pre.finished@[ii]));
                    }
                    assert forall|b: int, a: usize|
                        0 <= b < n && #[trigger] self.preds_of(b).contains(a)
                            && self.started@[b] implies self.finished@[a as int] by {
                        assert(self.preds_of(b) == pre.preds_of(b));
                        assert(pre.preds_of(b).contains(a));
                        assert(pre.started@[b]);
                        assert(pre.finished@[a as int]);
                    }
                    assert forall|x: usize|
                        #![trigger self.ready@.contains(x)]
                        #![trigger self.unmet@[x as int]]
                        self.ready@.contains(x) <==> ((x as int) < n && !self.started@[x as int]
                            && self.unmet@[x as int] == 0) by {
                        assert(pre.ready@.contains(x) <==> ((x as int) < n && !pre.started@[
                            x as int] && pre.unmet@[x as int] == 0));
                    }
                }
                None
            },
            Some(i) => {
                proof {
                    broadcast use vstd::seq_lib::group_seq_properties;

                    assert(pre.ready@.contains(i));
                    assert((i as int) < pre.task_count() && !pre.started@[i as int]
                        && pre.unmet@[i as int] == 0);
                    lemma_count_zero(pre.preds_of(i as int), pre.finished@);
                }
                self.started[i] = true;
                self.running.set(i, true);
                proof {
                    broadcast use vstd::seq_lib::group_seq_properties;

                    let n = pre.task_count();
                    lemma_graph_wf_transfer(pre, *self);
                    assert forall|bb: int| 0 <= bb < n implies (#[trigger] self.unmet@[bb])
                        == count_unfinished(self.preds_of(bb), self.finished@) by {
                        assert(pre.unmet@[bb] == count_unfinished(
                            pre.preds_of(bb),
                            pre.finished@,
                        ));
                        assert(self.preds_of(bb) == pre.preds_of(bb));
                    }
                    assert forall|ii: int|
                        0 <= ii < n implies ((#[trigger] self.finished@[ii])
                        ==> self.started@[ii]) by {
                        assert(pre.finished@[ii] ==> pre.started@[ii]);
                    }
                    assert forall|ii: int|
                        0 <= ii < n implies (#[trigger] self.running@[ii]) == (self.started@[ii]
                        && !self.finished@[ii]) by {
                        assert(pre.running@[ii] == (pre.started@[ii] && !pre.finished@[ii]));
                        if ii == i as int {
                            assert(pre.finished@[ii] ==> pre.started@[ii]);
                        }
                    }
                    assert forall|b: int, a: usize|
                        0 <= b < n && #[trigger] self.preds_of(b).contains(a)
                            && self.started@[b] implies self.finished@[a as int] by {
                        assert(self.preds_of(b) == pre.preds_of(b));
                        assert(pre.preds_of(b).contains(a));
                        if b == i as int {
                            assert(pre.unmet@[b] == 0);
                            let j = choose|j: int|
                                0 <= j < pre.preds_of(b).len() && pre.preds_of(b)[j] == a;
                            assert(pre.finished@[(pre.preds_of(b)[j]) as int]);
                        } else {
                            assert(pre.started@[b]);
                            assert(pre.finished@[a as int]);
                        }
                    }
                    assert forall|x: usize|
                        #![trigger self.ready@.contains(x)]
                        #![trigger self.unmet@[x as int]]
                        self.ready@.contains(x) <==> ((x as int) < n && !self.started@[x as int]
                            && self.unmet@[x as int] == 0) by {
                        lemma_drop_last_contains(pre.ready@, x);
                        assert(pre.ready@.contains(x) <==> ((x as int) < n
                            && !pre.started@[x as int] && pre.unmet@[x as int] == 0));
                    }
                    assert(self.ready@.no_duplicates()) by {
                        assert(forall|j: int|
                            #![trigger self.ready@[j]]
                            0 <= j < self.ready@.len() ==> self.ready@[j] == pre.ready@[j]);
                    }
                    assert forall|i2: usize, p: usize|
                        Some(i) == Some(i2) && #[trigger] pre.preds_of(i2 as int).contains(p)
                            implies pre.finished(p as int) by {
                        let j = choose|j: int|
                            0 <= j < pre.preds_of(i2 as int).len() && pre.preds_of(i2 as int)[j]
                                == p;
                        assert(pre.finished@[(pre.preds_of(i2 as int)[j]) as int]);
                    }
                }
                Some(i)
            },
        }
    }

    /// Records that the submitted task's effect has finished: clears its
    /// completion-tracker bit, counts it finished, lowers every
    /// dependent's unmet-predecessor count, and pushes each dependent
    /// whose count reaches zero onto the ready queue.
    pub fn complete(&mut self, id: usize)
        requires
            old(self).wf(),
            (id as int) < old(self).task_count(),
            old(self).running(id as int),
        ensures
            final(self).wf(),
            final(self).task_count() == old(self).task_count(),
            final(self).dependencies == old(self).dependencies,
            final(self).preds == old(self).preds,
            final(self).dependents == old(self).dependents,
            final(self).started == old(self).started,
            final(self).finished@ == old(self).finished@.update(id as int, true),
            final(self).running@ == old(self).running@.update(id as int, false),
    {
        proof {
            broadcast use vstd::seq_lib::group_seq_properties;

        }
        let ghost pre = *self;
        let ghost n = pre.task_count();
        let ghost fin0 = pre.finished@;
        let ghost fin1 = pre.finished@.update(id as int, true);
        self.running.set(id, false);
        self.finished[id] = true;
        let mut t: usize = 0;
        let deps_len = self.dependents[id].len();
        while t < deps_len
            invariant
                pre.wf(),
                (id as int) < n,
                n == pre.task_count(),
                pre.running(id as int),
                fin0 == pre.finished@,
                fin1 == fin0.update(id as int, true),
                deps_len == pre.dependents_of(id as int).len(),
                t <= deps_len,
                self.dependencies == pre.dependencies,
                self.preds == pre.preds,
                self.dependents == pre.dependents,
                self.started == pre.started,
                self.finished@ == fin1,
                self.running@ == pre.running@.update(id as int, false),
                self.unmet@.len() == n,
                self.ready@.no_duplicates(),
                forall|b: usize|
                    (b as int) < n && pre.dependents_of(id as int).take(t as int).contains(b)
                        ==> (#[trigger] self.unmet@[b as int]) == count_unfinished(
                        pre.preds_of(b as int),
                        fin1,
                    ),
                forall|b: usize|
                    (b as int) < n && !pre.dependents_of(id as int).take(t as int).contains(b)
                        ==> (#[trigger] self.unmet@[b as int]) == count_unfinished(
                        pre.preds_of(b as int),
                        fin0,
                    ),
                forall|x: usize|
                    #![trigger self.ready@.contains(x)]
                    #![trigger self.unmet@[x as int]]
                    self.ready@.contains(x) <==> ((x as int) < n && !pre.started@[x as int]
                        && self.unmet@[x as int] == 0),
            decreases deps_len - t,
        {
            let d = self.dependents[id][t];
            proof {
                broadcast use vstd::seq_lib::group_seq_properties;

                assert(pre.dependents_of(id as int).contains(d));
                assert((id as int) < d && (d as int) < n);
                assert(pre.preds_of(d as int).contains(id));
                if pre.dependents_of(id as int).take(t as int).contains(d) {
                    let idx = choose|idx: int|
                        0 <= idx < t && pre.dependents_of(id as int).take(t as int)[idx] == d;
                    assert(pre.dependents_of(id as int)[idx] == pre.dependents_of(id as int)[
                        t as int]);
                    assert(false);
                }
                assert(self.unmet@[d as int] == count_unfinished(pre.preds_of(d as int), fin0));
                assert forall|jj: int|
                    0 <= jj < pre.preds_of(d as int).len() implies ((#[trigger] pre.preds_of(
                    d as int,
                )[jj]) as int) < fin0.len() by {
                    assert(pre.preds_of(d as int).contains(pre.preds_of(d as int)[jj]));
                }
                assert(!fin0[id as int]);
                lemma_count_update_finish(pre.preds_of(d as int), fin0, id);
            }
            let ghost upre = self.unmet@;
            let ghost readypre = self.ready@;
            let u = self.unmet[d];
            self.unmet[d] = u - 1;
            proof {
                broadcast use vstd::seq_lib::group_seq_properties;

                assert(self.unmet@ == upre.update(d as int, (u - 1) as usize));
            }
            if u - 1 == 0 {
                proof {
                    broadcast use vstd::seq_lib::group_seq_properties;

                    assert(!self.ready@.contains(d)) by {
                        assert(readypre.contains(d) <==> ((d as int) < n && !pre.started@[
                            d as int] && upre[d as int] == 0));
                        assert(upre[d as int] == u);
                    }
                    lemma_push_no_duplicates(self.ready@, d);
                }
                self.ready.push(d);
            }
            proof {
                broadcast use vstd::seq_lib::group_seq_properties;

                let taken = pre.dependents_of(id as int).take(t as int);
                assert(pre.dependents_of(id as int).take(t as int + 1) == taken.push(d));
                assert forall|b: usize|
                    (b as int) < n && pre.dependents_of(id as int).take(t as int + 1).contains(
                        b,
                    ) implies (#[trigger] self.unmet@[b as int]) == count_unfinished(
                    pre.preds_of(b as int),
                    fin1,
                ) by {
                    if b == d {
                        assert(self.unmet@[d as int] == u - 1);
                    } else {
                        assert(taken.contains(b));
                        assert(self.unmet@[b as int] == upre[b as int]);
                    }
                }
                assert forall|b: usize|
                    (b as int) < n && !pre.dependents_of(id as int).take(t as int + 1).contains(
                        b,
                    ) implies (#[trigger] self.unmet@[b as int]) == count_unfinished(
                    pre.preds_of(b as int),
                    fin0,
                ) by {
                    assert(!taken.contains(b));
                    assert(b != d);
                    assert(self.unmet@[b as int] == upre[b as int]);
                }
                assert forall|x: usize|
                    #![trigger self.ready@.contains(x)]
                    #![trigger self.unmet@[x as int]]
                    self.ready@.contains(x) <==> ((x as int) < n && !pre.started@[x as int]
                        && self.unmet@[x as int] == 0) by {
                    if x == d {
                        assert(!pre.started@[d as int]) by {
                            if pre.started@[d as int] {
                                assert(pre.preds_of(d as int).contains(id));
                                assert(pre.finished@[id as int]);
                            }
                        }
                        if self.ready@ != readypre {
                            assert(self.ready@ == readypre.push(d));
                        }
                        assert(readypre.contains(d) <==> ((d as int) < n && !pre.started@[
                            d as int] && upre[d as int] == 0));
                    } else {
                        if self.ready@ != readypre {
                            assert(self.ready@ == readypre.push(d));
                        }
                        assert(readypre.contains(x) <==> ((x as int) < n && !pre.started@[
                            x as int] && upre[x as int] == 0));
                        if (x as int) < n {
                            assert(self.unmet@[x as int] == upre[x as int]);
                        } else {
                            assert(!readypre.contains(x));
                        }
                    }
                }
            }
            t = t + 1;
        }
        proof {
            broadcast use vstd::seq_lib::group_seq_properties;

            assert(pre.dependents_of(id as int).take(deps_len as int) == pre.dependents_of(
                id as int,
            ));
            let n = pre.task_count();
            assert(self.unmet.len() == n);
            assert(n <= usize::MAX);
            assert forall|b2: usize|
                (b2 as int) < n && pre.dependents_of(id as int).contains(b2)
                    implies #[trigger] self.unmet@[b2 as int] == count_unfinished(
                pre.preds_of(b2 as int),
                fin1,
            ) by {
                assert(pre.dependents_of(id as int).take(t as int).contains(b2));
            }
            assert forall|b2: usize|
                (b2 as int) < n && !pre.dependents_of(id as int).contains(b2)
                    implies #[trigger] self.unmet@[b2 as int] == count_unfinished(
                pre.preds_of(b2 as int),
                fin0,
            ) by {
                assert(!pre.dependents_of(id as int).take(t as int).contains(b2));
            }
            assert forall|b: int| 0 <= b < n implies (#[trigger] self.unmet@[b])
                == count_unfinished(self.preds_of(b), self.finished@) by {
                let bu = b as usize;
                assert(bu as int == b);
                assert(self.preds_of(b) == pre.preds_of(b));
                assert(pre.preds_of(bu as int) == pre.preds_of(b));
                if pre.dependents_of(id as int).contains(bu) {
                    assert(self.unmet@[bu as int] == count_unfinished(
                        pre.preds_of(bu as int),
                        fin1,
                    ));
                } else {
                    assert(self.unmet@[bu as int] == count_unfinished(
                        pre.preds_of(bu as int),
                        fin0,
                    ));
                    assert(pre.dependents_of(id as int).contains(bu) <==> pre.preds_of(
                        bu as int,
                    ).contains(id));
                    assert(!pre.preds_of(b).contains(id));
                    assert forall|jj: int|
                        0 <= jj < pre.preds_of(b).len() implies #[trigger] pre.preds_of(b)[jj]
                            != id && ((pre.preds_of(b)[jj]) as int) < fin0.len() by {
                        assert(pre.preds_of(b).contains(pre.preds_of(b)[jj]));
                    }
                    lemma_count_update_other(pre.preds_of(b), fin0, id, true);
                }
            }
            lemma_graph_wf_transfer(pre, *self);
            assert forall|b: int, a: usize|
                0 <= b < n && #[trigger] self.preds_of(b).contains(a) && self.started@[b]
                    implies self.finished@[a as int] by {
                assert(self.preds_of(b) == pre.preds_of(b));
                assert(pre.preds_of(b).contains(a) && pre.started@[b]);
                assert(pre.finished@[a as int]);
            }
            assert forall|ii: int|
                0 <= ii < n implies ((#[trigger] self.finished@[ii]) ==> self.started@[ii]) by {
                assert(pre.finished@[ii] ==> pre.started@[ii]);
                if ii == id as int {
                    assert(pre.started@[ii]);
                }
            }
            assert forall|ii: int|
                0 <= ii < n implies (#[trigger] self.running@[ii]) == (self.started@[ii]
                && !self.finished@[ii]) by {
                assert(pre.running@[ii] == (pre.started@[ii] && !pre.finished@[ii]));
            }
            assert forall|x: usize|
                #![trigger self.ready@.contains(x)]
                #![trigger self.unmet@[x as int]]
                self.ready@.contains(x) <==> ((x as int) < n && !self.started@[x as int]
                    && self.unmet@[x as int] == 0) by {
                assert(self.ready@.contains(x) <==> ((x as int) < n && !pre.started@[x as int]
                    && self.unmet@[x as int] == 0));
            }
        }
    }

    /// Whether the pass is complete: every task has finished, which is
    /// observed as an empty ready queue with an entirely clear tracker.
    pub fn pass_complete(&self) -> (r: bool)
        requires
            self.wf(),
        ensures
            r == (forall|i: int| 0 <= i < self.task_count() ==> self.finished(i)),
    {
        let ghost n = self.task_count();
        let no_ready = self.ready.is_empty();
        let clear = self.running.all_clear();
        proof {
            broadcast use vstd::seq_lib::group_seq_properties;

            if no_ready && clear {
                assert forall|x: int| 0 <= x < n implies !self.running(x) by {
                    assert(!self.running@[x]);
                }
                lemma_quiescent_upto(*self, n as int);
                assert forall|i: int| 0 <= i < n implies self.finished(i) by {
                    assert(self.finished@[i]);
                }
            }
            if !no_ready {
                let x = self.ready@[0];
                assert(self.ready@.contains(x));
                assert((x as int) < n && !self.started@[x as int]);
                assert(!self.finished(x as int));
            }
            if !clear {
                let i = choose|i: int| 0 <= i < n && self.running@[i];
                assert(!self.finished(i));
            }
        }
        no_ready && clear
    }
}

/// With an empty ready queue and a clear tracker, every task up to `i`
/// has finished: were some task unfinished, the least one would have all
/// its predecessors finished and would therefore sit in the ready queue.
proof fn lemma_quiescent_upto(d: Dispatcher, i: int)
    requires
        d.wf(),
        d.ready@.len() == 0,
        forall|x: int| 0 <= x < d.task_count() ==> !d.running(x),
        0 <= i <= d.task_count(),
    ensures
        forall|x: int| 0 <= x < i ==> d.finished@[x],
    decreases i,
{
    broadcast use vstd::seq_lib::group_seq_properties;

    if i > 0 {
        lemma_quiescent_upto(d, i - 1);
        let b = i - 1;
        if !d.started@[b] {
            assert forall|j: int| 0 <= j < d.preds_of(b).len() implies d.finished@[(
            #[trigger] d.preds_of(b)[j]) as int] by {
                assert(d.preds_of(b).contains(d.preds_of(b)[j]));
            }
            lemma_count_zero(d.preds_of(b), d.finished@);
            assert(d.unmet@[b] == 0);
            assert(d.preds.len() == d.task_count());
            let bu = b as usize;
            assert(bu as int == b);
            assert(d.unmet@[bu as int] == 0);
            assert(d.ready@.contains(bu));
            assert(false);
        }
        assert(!d.running(b));
        assert(d.running@[b] == (d.started@[b] && !d.finished@[b]));
        assert(d.finished@[b]);
    }
}


impl Dispatcher {
    /// Runs one complete pass without effects: repeatedly starts a ready
    /// task and completes it, returning the order in which the tasks
    /// ran. Every registered task appears in the order exactly once,
    /// every predecessor ahead of its dependents, and the pass ends with
    /// every task finished and the completion tracker entirely clear.
    pub fn run_schedule(&mut self) -> (order: Vec<usize>)
        requires
            old(self).wf(),
            forall|i: int| 0 <= i < old(self).task_count() ==> !old(self).started(i),
        ensures
            final(self).wf(),
            final(self).task_count() == old(self).task_count(),
            final(self).dependencies == old(self).dependencies,
            final(self).preds == old(self).preds,
            order@.no_duplicates(),
            order@.len() == old(self).task_count(),
            forall|i: usize| #[trigger] order@.contains(i) <==> (i as int) < old(
                self,
            ).task_count(),
            forall|i: int|
                0 <= i < old(self).task_count() ==> final(self).finished(i) && !final(self).running(i),
            final(self).ready@.len() == 0,
            forall|k: int, p: usize|
                0 <= k < order@.len() && #[trigger] final(self).preds_of(
                    order@[k] as int,
                ).contains(p) ==> (exists|k2: int| 0 <= k2 < k && order@[k2] == p),
    {
        proof {
            broadcast use vstd::seq_lib::group_seq_properties;

        }
        let ghost n = old(self).task_count();
        let mut order: Vec<usize> = Vec::new();
        proof {
            assert forall|x: int| 0 <= x < n implies !(#[trigger] self.running@[x]) by {
                assert(self.running@[x] == (self.started@[x] && !self.finished@[x]));
                assert(!self.started(x));
            }
            assert forall|i: usize|
                #[trigger] order@.contains(i) <==> ((i as int) < n && self.started@[i as int]) by {
                assert(order@.len() == 0);
                if (i as int) < n {
                    assert(!self.started(i as int));
                }
            }
            assert forall|x: int| 0 <= x < self.started@.len() implies !self.started@[x] by {
                assert(!self.started(x));
            }
            lemma_count_true_none(self.started@);
        }
        loop
            invariant
                self.wf(),
                n == self.task_count(),
                self.dependencies == old(self).dependencies,
                self.preds == old(self).preds,
                self.dependents == old(self).dependents,
                forall|x: int| 0 <= x < n ==> !(#[trigger] self.running@[x]),
                forall|i: usize|
                    #[trigger] order@.contains(i) <==> ((i as int) < n && self.started@[i as int]),
                order@.no_duplicates(),
                order@.len() == count_true(self.started@),
                forall|k: int, p: usize|
                    0 <= k < order@.len() && #[trigger] self.preds_of(
                        order@[k] as int,
                    ).contains(p) ==> (exists|k2: int| 0 <= k2 < k && order@[k2] == p),
            ensures
                self.wf(),
                n == self.task_count(),
                self.dependencies == old(self).dependencies,
                self.preds == old(self).preds,
                forall|x: int| 0 <= x < n ==> !(#[trigger] self.running@[x]),
                forall|i: usize|
                    #[trigger] order@.contains(i) <==> ((i as int) < n && self.started@[i as int]),
                order@.no_duplicates(),
                order@.len() == count_true(self.started@),
                forall|k: int, p: usize|
                    0 <= k < order@.len() && #[trigger] self.preds_of(
                        order@[k] as int,
                    ).contains(p) ==> (exists|k2: int| 0 <= k2 < k && order@[k2] == p),
                self.ready@.len() == 0,
            decreases n - count_true(self.started@),
        {
            proof {
                lemma_count_true_le(self.started@);
            }
            let ghost pre = *self;
            let nxt = self.start_next();
            match nxt {
                None => {
                    proof {
                        broadcast use vstd::seq_lib::group_seq_properties;

                        assert(self.started == pre.started);
                        assert forall|k: int, p: usize|
                            0 <= k < order@.len() && #[trigger] self.preds_of(
                                order@[k] as int,
                            ).contains(p) implies (exists|k2: int|
                            0 <= k2 < k && order@[k2] == p) by {
                            assert(self.preds_of(order@[k] as int) == pre.preds_of(
                                order@[k] as int,
                            ));
                            assert(pre.preds_of(order@[k] as int).contains(p));
                        }
                        assert forall|i: usize|
                            #[trigger] order@.contains(i) <==> ((i as int) < n
                                && self.started@[i as int]) by {
                            assert(order@.contains(i) <==> ((i as int) < n && pre.started@[
                                i as int]));
                        }
                        assert forall|x: int| 0 <= x < n implies !(
                        #[trigger] self.running@[x]) by {
                            assert(!pre.running@[x]);
                            assert(self.running == pre.running);
                        }
                    }
                    break ;
                },
                Some(i) => {
                    proof {
                        broadcast use vstd::seq_lib::group_seq_properties;

                        assert(!pre.started(i as int));
                        assert(!pre.started@[i as int]);
                        assert((i as int) < n);
                        assert(pre.started@.len() == n);
                        lemma_count_true_update(pre.started@, i as int);
                        assert(self.running(i as int)) by {
                            assert(self.running@[i as int]);
                        }
                    }
                    let ghost mid = *self;
                    self.complete(i);
                    let ghost opre = order@;
                    order.push(i);
                    proof {
                        broadcast use vstd::seq_lib::group_seq_properties;

                        assert(self.started@ == pre.started@.update(i as int, true));
                        assert(order@ == opre.push(i));
                        assert(!opre.contains(i));
                        lemma_push_no_duplicates(opre, i);
                        assert forall|x: usize|
                            #[trigger] order@.contains(x) <==> ((x as int) < n
                                && self.started@[x as int]) by {
                            assert(opre.contains(x) <==> ((x as int) < n && pre.started@[
                                x as int]));
                        }
                        assert forall|x: int| 0 <= x < n implies !(
                        #[trigger] self.running@[x]) by {
                            assert(self.running@ == mid.running@.update(i as int, false));
                            assert(mid.running@ == pre.running@.update(i as int, true));
                            if x != i as int {
                                assert(!pre.running@[x]);
                            }
                        }
                        assert forall|k: int, p: usize|
                            0 <= k < order@.len() && #[trigger] self.preds_of(
                                order@[k] as int,
                            ).contains(p) implies (exists|k2: int|
                            0 <= k2 < k && order@[k2] == p) by {
                            if k < opre.len() {
                                assert(order@[k] == opre[k]);
                                assert(self.preds_of(opre[k] as int) == pre.preds_of(
                                    opre[k] as int,
                                ));
                                assert(pre.preds_of(opre[k] as int).contains(p));
                                let k2 = choose|k2: int| 0 <= k2 < k && opre[k2] == p;
                                assert(order@[k2] == p);
                            } else {
                                assert(order@[k] == i);
                                assert(pre.preds_of(i as int).contains(p));
                                assert(pre.finished(p as int));
                                assert(pre.finished@[p as int] ==> pre.started@[p as int]);
                                assert((p as int) < i as int);
                                assert(opre.contains(p));
                                let k2 = choose|k2: int| 0 <= k2 < opre.len() && opre[k2] == p;
                                assert(order@[k2] == p);
                            }
                        }
                        lemma_count_true_le(self.started@);
                        assert(count_true(self.started@) == count_true(pre.started@) + 1);
                    }
                },
            }
        }
        proof {
            broadcast use vstd::seq_lib::group_seq_properties;

            assert forall|x: int| 0 <= x < n implies !self.running(x) by {
                assert(!self.running@[x]);
            }
            lemma_quiescent_upto(*self, n as int);
            assert forall|i: int| 0 <= i < n implies self.started@[i] by {
                assert(self.finished@[i]);
            }
            lemma_count_true_all(self.started@);
            assert forall|i: int| 0 <= i < n implies self.finished(i) && !self.running(i) by {
                assert(self.finished@[i]);
                assert(!self.running@[i]);
            }
        }
        order
    }
}

/// An explicit dependency orders execution: while a task runs, each of
/// its declared dependencies has finished and is no longer running, so
/// the dependency's execution interval ended before the dependent's
/// began.
pub proof fn lemma_explicit_dependency_ordering(d: Dispatcher, a: usize, b: usize)
    requires
        d.wf(),
        (b as int) < d.task_count(),
        d.explicit_deps_of(b as int).contains(a),
        d.started(b as int),
    ensures
        d.finished(a as int),
        !d.running(a as int),
{
    assert(d.preds_of(b as int).contains(a));
    assert(d.finished@[a as int]);
    assert(d.running@[a as int] == (d.started@[a as int] && !d.finished@[a as int]));
}

/// Conflicting tasks never run at the same time: whatever the explicit
/// edges, the conflict closure makes the earlier task a predecessor of
/// the later one, and a task starts only after its predecessors finish.
pub proof fn lemma_no_conflicting_overlap(d: Dispatcher, a: usize, b: usize)
    requires
        d.wf(),
        (a as int) < d.task_count(),
        (b as int) < d.task_count(),
        a != b,
        d.conflicts(a as int, b as int),
    ensures
        !(d.running(a as int) && d.running(b as int)),
{
    if d.running(a as int) && d.running(b as int) {
        assert(d.running@[a as int] == (d.started@[a as int] && !d.finished@[a as int]));
        assert(d.running@[b as int] == (d.started@[b as int] && !d.finished@[b as int]));
        if (a as int) < (b as int) {
            assert(d.preds_of(b as int).contains(a));
            assert(d.finished@[a as int]);
        } else {
            lemma_conflict_symmetric(
                d.dependencies.reads_of(a as int),
                d.dependencies.writes_of(a as int),
                d.dependencies.reads_of(b as int),
                d.dependencies.writes_of(b as int),
            );
            assert(d.conflicts(b as int, a as int));
            assert(d.preds_of(a as int).contains(b));
            assert(d.finished@[b as int]);
        }
    }
}

/// A task that declares several explicit dependencies starts only after
/// every one of them has finished: while it is started, each dependency
/// is finished and no longer running, so a dependent's execution
/// interval begins after both of its dependencies' intervals end.
pub proof fn lemma_dependent_waits_for_all(d: Dispatcher, a: usize, b: usize, c: usize)
    requires
        d.wf(),
        (c as int) < d.task_count(),
        d.explicit_deps_of(c as int).contains(a),
        d.explicit_deps_of(c as int).contains(b),
        d.started(c as int),
    ensures
        d.finished(a as int) && !d.running(a as int),
        d.finished(b as int) && !d.running(b as int),
{
    lemma_explicit_dependency_ordering(d, a, c);
    lemma_explicit_dependency_ordering(d, b, c);
}

/// Tasks that sit in the ready queue together are independent: neither
/// is a predecessor of the other, and their footprints do not conflict.
/// The scheduler therefore places no ordering constraint between them:
/// they may be started in either order or held running at the same time.
pub proof fn lemma_ready_tasks_independent(d: Dispatcher, a: usize, b: usize)
    requires
        d.wf(),
        a != b,
        d.ready@.contains(a),
        d.ready@.contains(b),
    ensures
        !d.preds_of(a as int).contains(b),
        !d.preds_of(b as int).contains(a),
        !d.conflicts(a as int, b as int),
{
    let n = d.task_count();
    assert((a as int) < n && !d.started@[a as int] && d.unmet@[a as int] == 0);
    assert((b as int) < n && !d.started@[b as int] && d.unmet@[b as int] == 0);
    lemma_count_zero(d.preds_of(a as int), d.finished@);
    lemma_count_zero(d.preds_of(b as int), d.finished@);
    if d.preds_of(a as int).contains(b) {
        let j = choose|j: int| 0 <= j < d.preds_of(a as int).len() && d.preds_of(a as int)[j] == b;
        assert(d.finished@[(d.preds_of(a as int)[j]) as int]);
        assert(d.finished@[b as int] ==> d.started@[b as int]);
        assert(false);
    }
    if d.preds_of(b as int).contains(a) {
        let j = choose|j: int| 0 <= j < d.preds_of(b as int).len() && d.preds_of(b as int)[j] == a;
        assert(d.finished@[(d.preds_of(b as int)[j]) as int]);
        assert(d.finished@[a as int] ==> d.started@[a as int]);
        assert(false);
    }
    if d.conflicts(a as int, b as int) {
        if (a as int) < (b as int) {
            assert(d.preds_of(b as int).contains(a));
        } else {
            lemma_conflict_symmetric(
                d.dependencies.reads_of(a as int),
                d.dependencies.writes_of(a as int),
                d.dependencies.reads_of(b as int),
                d.dependencies.writes_of(b as int),
            );
            assert(d.conflicts(b as int, a as int));
            assert(d.preds_of(a as int).contains(b));
        }
    }
}

/// Pairs a task's dense id with its unit of work, in the shape handed to
/// the execution engine.
pub struct TaskDispatch<T> {
    pub id: usize,
    pub task: T,
}

impl<T> TaskDispatch<T> {
    /// Binds a work unit to its dense id.
    pub fn new(id: usize, task: T) -> (r: TaskDispatch<T>)
        ensures
            r.id == id,
            r.task == task,
    {
        TaskDispatch { id, task }
    }
}

} // verus!
