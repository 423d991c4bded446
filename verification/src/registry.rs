use vstd::prelude::*;

use crate::ResourceId;

verus! {

/// Reverse access index: for each resource, the list of task ids that
/// declared an access of one kind on it.
///
/// The table comes from the `fnv` crate (an alias for std's `HashMap`
/// with the FNV hasher), so it is held behind trusted wrappers;
/// `access_index_map` names its contents, keyed by the raw resource id.
#[verifier::external_body]
pub struct AccessIndex {
    table: fnv::FnvHashMap<ResourceId, Vec<usize>>,
}

/// The contents of an `AccessIndex`: which task ids each raw resource id
/// maps to.
pub uninterp spec fn access_index_map(m: AccessIndex) -> Map<u64, Seq<usize>>;

impl View for AccessIndex {
    type V = Map<u64, Seq<usize>>;

    open spec fn view(&self) -> Map<u64, Seq<usize>> {
        access_index_map(*self)
    }
}

/// The accessor list of one resource, empty when the resource was never
/// named.
pub open spec fn accessors_of(m: AccessIndex, k: u64) -> Seq<usize> {
    if access_index_map(m).dom().contains(k) {
        access_index_map(m)[k]
    } else {
        Seq::<usize>::empty()
    }
}

/// The contents of an index that holds no entries.
pub open spec fn no_accessors() -> Map<u64, Seq<usize>> {
    Map::empty()
}

impl AccessIndex {
    /// Relies on std's `HashMap::default` (through fnv's `FnvHashMap`
    /// alias): a fresh table holds no entries.
    #[verifier::external_body]
    pub fn new() -> (r: AccessIndex)
        ensures
            r@ == no_accessors(),
    {
        AccessIndex { table: fnv::FnvHashMap::default() }
    }

    /// Relies on std's `HashMap::entry` / `or_insert` and `Vec::push`: the
    /// task id is appended to this resource's list and every other
    /// resource keeps its list.
    #[verifier::external_body]
    pub fn push(&mut self, r: ResourceId, id: usize)
        ensures
            access_index_map(*final(self)) == access_index_map(*old(self)).insert(
                r.0,
                accessors_of(*old(self), r.0).push(id),
            ),
    {
        self.table.entry(r).or_insert(Vec::new()).push(id);
    }

    /// Relies on std's `HashMap::get` and `Vec::clone`: returns a copy of
    /// the accessor list of the resource, empty when the resource was
    /// never named.
    #[verifier::external_body]
    pub fn tasks_of(&self, r: ResourceId) -> (v: Vec<usize>)
        ensures
            v@ == accessors_of(*self, r.0),
    {
        match self.table.get(&r) {
            Some(list) => list.clone(),
            None => Vec::new(),
        }
    }
}

/// The ids in the list appear in strictly increasing order: the order
/// in which the tasks were registered.
pub open spec fn ascending(s: Seq<usize>) -> bool {
    forall|i: int, j: int| #![trigger s[i], s[j]] 0 <= i < j < s.len() ==> s[i] < s[j]
}

/// Appending an id larger than every member keeps a list ascending.
pub(crate) proof fn lemma_push_ascending(s: Seq<usize>, e: usize)
    requires
        ascending(s),
        forall|j: int| 0 <= j < s.len() ==> #[trigger] s[j] < e,
    ensures
        ascending(s.push(e)),
{
    assert forall|i: int, j: int|
        #![trigger s.push(e)[i], s.push(e)[j]]
        0 <= i < j < s.push(e).len() implies s.push(e)[i] < s.push(e)[j] by {
        if j < s.len() {
            assert(s.push(e)[i] == s[i] && s.push(e)[j] == s[j]);
        } else {
            assert(s.push(e)[i] == s[i] && s.push(e)[j] == e);
        }
    }
}

/// Two footprint components name at least one common resource.
pub open spec fn shares(a: Seq<ResourceId>, b: Seq<ResourceId>) -> bool {
    exists|x: ResourceId| a.contains(x) && b.contains(x)
}

/// Two declared footprints conflict: they share a resource on which at
/// least one of the two sides declares a write.
pub open spec fn footprints_conflict(
    ra: Seq<ResourceId>,
    wa: Seq<ResourceId>,
    rb: Seq<ResourceId>,
    wb: Seq<ResourceId>,
) -> bool {
    shares(wa, rb) || shares(wa, wb) || shares(wb, ra)
}

/// Conflict is a symmetric relation between footprints.
pub proof fn lemma_conflict_symmetric(
    ra: Seq<ResourceId>,
    wa: Seq<ResourceId>,
    rb: Seq<ResourceId>,
    wb: Seq<ResourceId>,
)
    ensures
        footprints_conflict(ra, wa, rb, wb) == footprints_conflict(rb, wb, ra, wa),
{
    assert forall|p: Seq<ResourceId>, q: Seq<ResourceId>| shares(p, q) implies shares(q, p) by {
        let x = choose|x: ResourceId| p.contains(x) && q.contains(x);
        assert(q.contains(x) && p.contains(x));
    }
}

/// Append-only record of every task's declared footprint and explicit
/// dependency list, together with the reverse indices from a resource to
/// the tasks that read it and the tasks that write it.
pub struct Dependencies {
    pub dependencies: Vec<Vec<usize>>,
    pub rev_reads: AccessIndex,
    pub rev_writes: AccessIndex,
    pub reads: Vec<Vec<ResourceId>>,
    pub writes: Vec<Vec<ResourceId>>,
}

impl Dependencies {
    /// How many tasks have been registered.
    pub open spec fn task_count(self) -> nat {
        self.dependencies@.len()
    }

    /// The explicit dependency ids task `i` was registered with.
    pub open spec fn deps_of(self, i: int) -> Seq<usize> {
        self.dependencies@[i]@
    }

    /// The resources task `i` declared it reads.
    pub open spec fn reads_of(self, i: int) -> Seq<ResourceId> {
        self.reads@[i]@
    }

    /// The resources task `i` declared it writes.
    pub open spec fn writes_of(self, i: int) -> Seq<ResourceId> {
        self.writes@[i]@
    }

    /// Tasks `a` and `b` conflict: their footprints share a resource on
    /// which at least one of the two declares a write.
    pub open spec fn conflicts(self, a: int, b: int) -> bool {
        footprints_conflict(
            self.reads_of(a),
            self.writes_of(a),
            self.reads_of(b),
            self.writes_of(b),
        )
    }

    /// One registered row is well formed: its footprint lists are free of
    /// duplicates (a footprint is a set of resources).
    pub open spec fn row_wf(self, i: int) -> bool {
        self.reads_of(i).no_duplicates() && self.writes_of(i).no_duplicates()
    }

    /// The registry is well formed: all per-task columns have one row per
    /// task, and the reverse indices hold a task under a resource exactly
    /// when the task's footprint names that resource.
    pub open spec fn wf(self) -> bool {
        &&& self.reads@.len() == self.task_count()
        &&& self.writes@.len() == self.task_count()
        &&& forall|i: int| 0 <= i < self.task_count() ==> #[trigger] self.row_wf(i)
        &&& forall|k: u64, i: usize|
            #![trigger accessors_of(self.rev_reads, k).contains(i)]
            #![trigger self.reads_of(i as int).contains(ResourceId(k))]
            accessors_of(self.rev_reads, k).contains(i) <==> (i < self.task_count()
                && self.reads_of(i as int).contains(ResourceId(k)))
        &&& forall|k: u64, i: usize|
            #![trigger accessors_of(self.rev_writes, k).contains(i)]
            #![trigger self.writes_of(i as int).contains(ResourceId(k))]
            accessors_of(self.rev_writes, k).contains(i) <==> (i < self.task_count()
                && self.writes_of(i as int).contains(ResourceId(k)))
        &&& forall|k: u64| #[trigger] accessors_of(self.rev_reads, k).no_duplicates()
        &&& forall|k: u64| #[trigger] accessors_of(self.rev_writes, k).no_duplicates()
        &&& forall|k: u64| ascending(#[trigger] accessors_of(self.rev_reads, k))
        &&& forall|k: u64| ascending(#[trigger] accessors_of(self.rev_writes, k))
    }

    /// An empty registry: no tasks, no indexed resources.
    pub fn new() -> (r: Dependencies)
        ensures
            r.wf(),
            r.task_count() == 0,
    {
        let r = Dependencies {
            dependencies: Vec::new(),
            rev_reads: AccessIndex::new(),
            rev_writes: AccessIndex::new(),
            reads: Vec::new(),
            writes: Vec::new(),
        };
        proof {
            broadcast use vstd::seq_lib::group_seq_properties;

        }
        r
    }

    /// Registers the footprint and explicit dependency list of the task
    /// with the next dense id, appending the task to the reverse index
    /// entry of every resource it accesses.
    pub fn add(
        &mut self,
        id: usize,
        reads: Vec<ResourceId>,
        writes: Vec<ResourceId>,
        dependencies: Vec<usize>,
    )
        requires
            old(self).wf(),
            id == old(self).task_count(),
            reads@.no_duplicates(),
            writes@.no_duplicates(),
        ensures
            final(self).wf(),
            final(self).task_count() == old(self).task_count() + 1,
            final(self).deps_of(id as int) == dependencies@,
            final(self).reads_of(id as int) == reads@,
            final(self).writes_of(id as int) == writes@,
            forall|i: int|
                0 <= i < id ==> final(self).deps_of(i) == old(self).deps_of(i)
                    && final(self).reads_of(i) == old(self).reads_of(i)
                    && final(self).writes_of(i) == old(self).writes_of(i),
            forall|x: ResourceId|
                reads@.contains(x) ==> #[trigger] accessors_of(final(self).rev_reads, x.0)
                    == accessors_of(old(self).rev_reads, x.0).push(id),
            forall|k: u64|
                !reads@.contains(ResourceId(k)) ==> #[trigger] accessors_of(
                    final(self).rev_reads,
                    k,
                ) == accessors_of(old(self).rev_reads, k),
            forall|x: ResourceId|
                writes@.contains(x) ==> #[trigger] accessors_of(final(self).rev_writes, x.0)
                    == accessors_of(old(self).rev_writes, x.0).push(id),
            forall|k: u64|
                !writes@.contains(ResourceId(k)) ==> #[trigger] accessors_of(
                    final(self).rev_writes,
                    k,
                ) == accessors_of(old(self).rev_writes, k),
    {
        proof {
            broadcast use vstd::seq_lib::group_seq_properties;

        }
        let mut j: usize = 0;
        while j < reads.len()
            invariant
                old(self).wf(),
                id == old(self).task_count(),
                j <= reads@.len(),
                reads@.no_duplicates(),
                self.dependencies == old(self).dependencies,
                self.reads == old(self).reads,
                self.writes == old(self).writes,
                self.rev_writes == old(self).rev_writes,
                forall|x: ResourceId|
                    reads@.take(j as int).contains(x) ==> #[trigger] accessors_of(
                        self.rev_reads,
                        x.0,
                    ) == accessors_of(old(self).rev_reads, x.0).push(id),
                forall|k: u64|
                    !reads@.take(j as int).contains(ResourceId(k)) ==> #[trigger] accessors_of(
                        self.rev_reads,
                        k,
                    ) == accessors_of(old(self).rev_reads, k),
            decreases reads@.len() - j,
        {
            let x = reads[j];
            proof {
                broadcast use vstd::seq_lib::group_seq_properties;

                assert(x == ResourceId(x.0));
                if reads@.take(j as int).contains(x) {
                    let idx = choose|idx: int|
                        0 <= idx < j && reads@.take(j as int)[idx] == x;
                    assert(reads@[idx] == reads@[j as int]);
                    assert(false);
                }
            }
            let ghost pre = self.rev_reads;
            self.rev_reads.push(x, id);
            proof {
                broadcast use vstd::seq_lib::group_seq_properties;

                assert(accessors_of(pre, x.0) == accessors_of(old(self).rev_reads, x.0));
                assert(accessors_of(self.rev_reads, x.0) == accessors_of(pre, x.0).push(id));
                assert forall|k: u64| k != x.0 implies accessors_of(self.rev_reads, k)
                    == accessors_of(pre, k) by {
                    assert(access_index_map(self.rev_reads).dom() == access_index_map(
                        pre,
                    ).dom().insert(x.0));
                }
                assert(reads@.take(j as int + 1) == reads@.take(j as int).push(x));
                assert(reads@.take(j as int + 1).contains(x));
                assert forall|y: ResourceId| reads@.take(j as int + 1).contains(y)
                    implies accessors_of(self.rev_reads, y.0) == accessors_of(
                    old(self).rev_reads,
                    y.0,
                ).push(id) by {
                    if y != x {
                        assert(reads@.take(j as int).contains(y));
                        assert(y == ResourceId(y.0));
                        assert(y.0 != x.0);
                        assert(accessors_of(pre, y.0) == accessors_of(
                            old(self).rev_reads,
                            y.0,
                        ).push(id));
                        assert(accessors_of(self.rev_reads, y.0) == accessors_of(pre, y.0));
                    } else {
                        assert(accessors_of(self.rev_reads, y.0) == accessors_of(
                            pre,
                            y.0,
                        ).push(id));
                        assert(accessors_of(pre, y.0) == accessors_of(old(self).rev_reads, y.0));
                    }
                }
                assert forall|k: u64| !reads@.take(j as int + 1).contains(ResourceId(k))
                    implies accessors_of(self.rev_reads, k) == accessors_of(
                    old(self).rev_reads,
                    k,
                ) by {
                    assert(!reads@.take(j as int).contains(ResourceId(k)));
                    assert(k != x.0);
                    assert(accessors_of(self.rev_reads, k) == accessors_of(pre, k));
                    assert(accessors_of(pre, k) == accessors_of(old(self).rev_reads, k));
                }
            }
            j = j + 1;
        }
        proof {
            broadcast use vstd::seq_lib::group_seq_properties;

            assert(reads@.take(reads@.len() as int) == reads@);
        }
        let mut j: usize = 0;
        while j < writes.len()
            invariant
                old(self).wf(),
                id == old(self).task_count(),
                j <= writes@.len(),
                writes@.no_duplicates(),
                self.dependencies == old(self).dependencies,
                self.reads == old(self).reads,
                self.writes == old(self).writes,
                forall|x: ResourceId|
                    reads@.contains(x) ==> #[trigger] accessors_of(self.rev_reads, x.0)
                        == accessors_of(old(self).rev_reads, x.0).push(id),
                forall|k: u64|
                    !reads@.contains(ResourceId(k)) ==> #[trigger] accessors_of(
                        self.rev_reads,
                        k,
                    ) == accessors_of(old(self).rev_reads, k),
                forall|x: ResourceId|
                    writes@.take(j as int).contains(x) ==> #[trigger] accessors_of(
                        self.rev_writes,
                        x.0,
                    ) == accessors_of(old(self).rev_writes, x.0).push(id),
                forall|k: u64|
                    !writes@.take(j as int).contains(ResourceId(k)) ==> #[trigger] accessors_of(
                        self.rev_writes,
                        k,
                    ) == accessors_of(old(self).rev_writes, k),
            decreases writes@.len() - j,
        {
            let x = writes[j];
            proof {
                broadcast use vstd::seq_lib::group_seq_properties;

                assert(x == ResourceId(x.0));
                if writes@.take(j as int).contains(x) {
                    let idx = choose|idx: int|
                        0 <= idx < j && writes@.take(j as int)[idx] == x;
                    assert(writes@[idx] == writes@[j as int]);
                    assert(false);
                }
            }
            let ghost pre = self.rev_writes;
            self.rev_writes.push(x, id);
            proof {
                broadcast use vstd::seq_lib::group_seq_properties;

                assert(accessors_of(pre, x.0) == accessors_of(old(self).rev_writes, x.0));
                assert(accessors_of(self.rev_writes, x.0) == accessors_of(pre, x.0).push(id));
                assert forall|k: u64| k != x.0 implies accessors_of(self.rev_writes, k)
                    == accessors_of(pre, k) by {
                    assert(access_index_map(self.rev_writes).dom() == access_index_map(
                        pre,
                    ).dom().insert(x.0));
                }
                assert(writes@.take(j as int + 1) == writes@.take(j as int).push(x));
                assert(writes@.take(j as int + 1).contains(x));
                assert forall|y: ResourceId| writes@.take(j as int + 1).contains(y)
                    implies accessors_of(self.rev_writes, y.0) == accessors_of(
                    old(self).rev_writes,
                    y.0,
                ).push(id) by {
                    if y != x {
                        assert(writes@.take(j as int).contains(y));
                        assert(y == ResourceId(y.0));
                        assert(y.0 != x.0);
                        assert(accessors_of(pre, y.0) == accessors_of(
                            old(self).rev_writes,
                            y.0,
                        ).push(id));
                        assert(accessors_of(self.rev_writes, y.0) == accessors_of(pre, y.0));
                    } else {
                        assert(accessors_of(self.rev_writes, y.0) == accessors_of(
                            pre,
                            y.0,
                        ).push(id));
                        assert(accessors_of(pre, y.0) == accessors_of(old(self).rev_writes, y.0));
                    }
                }
                assert forall|k: u64| !writes@.take(j as int + 1).contains(ResourceId(k))
                    implies accessors_of(self.rev_writes, k) == accessors_of(
                    old(self).rev_writes,
                    k,
                ) by {
                    assert(!writes@.take(j as int).contains(ResourceId(k)));
                    assert(k != x.0);
                    assert(accessors_of(self.rev_writes, k) == accessors_of(pre, k));
                    assert(accessors_of(pre, k) == accessors_of(old(self).rev_writes, k));
                }
            }
            j = j + 1;
        }
        proof {
            broadcast use vstd::seq_lib::group_seq_properties;

            assert(writes@.take(writes@.len() as int) == writes@);
        }
        self.reads.push(reads);
        self.writes.push(writes);
        self.dependencies.push(dependencies);
        proof {
            broadcast use vstd::seq_lib::group_seq_properties;

            let prev = *old(self);
            assert forall|i: int| 0 <= i < self.task_count() implies #[trigger] self.row_wf(i) by {
                if i < id {
                    assert(prev.row_wf(i));
                }
            }
            assert(self.reads_of(id as int) == reads@);
            assert(self.writes_of(id as int) == writes@);
            assert forall|k: u64, i: usize|
                #![trigger accessors_of(self.rev_reads, k).contains(i)]
                #![trigger self.reads_of(i as int).contains(ResourceId(k))]
                accessors_of(self.rev_reads, k).contains(i) <==> (i < self.task_count()
                    && self.reads_of(i as int).contains(ResourceId(k))) by {
                assert(accessors_of(prev.rev_reads, k).contains(i) == (i < prev.task_count()
                    && prev.reads_of(i as int).contains(ResourceId(k))));
                if reads@.contains(ResourceId(k)) {
                    assert(accessors_of(self.rev_reads, ResourceId(k).0) == accessors_of(
                        prev.rev_reads,
                        ResourceId(k).0,
                    ).push(id));
                    assert(accessors_of(self.rev_reads, k).contains(i) == (accessors_of(
                        prev.rev_reads,
                        k,
                    ).contains(i) || i == id));
                } else {
                    assert(accessors_of(self.rev_reads, k) == accessors_of(prev.rev_reads, k));
                }
                if i < id {
                    assert(self.reads_of(i as int) == prev.reads_of(i as int));
                }
            }
            assert forall|k: u64, i: usize|
                #![trigger accessors_of(self.rev_writes, k).contains(i)]
                #![trigger self.writes_of(i as int).contains(ResourceId(k))]
                accessors_of(self.rev_writes, k).contains(i) <==> (i < self.task_count()
                    && self.writes_of(i as int).contains(ResourceId(k))) by {
                assert(accessors_of(prev.rev_writes, k).contains(i) == (i < prev.task_count()
                    && prev.writes_of(i as int).contains(ResourceId(k))));
                if writes@.contains(ResourceId(k)) {
                    assert(accessors_of(self.rev_writes, ResourceId(k).0) == accessors_of(
                        prev.rev_writes,
                        ResourceId(k).0,
                    ).push(id));
                    assert(accessors_of(self.rev_writes, k).contains(i) == (accessors_of(
                        prev.rev_writes,
                        k,
                    ).contains(i) || i == id));
                } else {
                    assert(accessors_of(self.rev_writes, k) == accessors_of(prev.rev_writes, k));
                }
                if i < id {
                    assert(self.writes_of(i as int) == prev.writes_of(i as int));
                }
            }
            assert forall|k: u64| #[trigger]
                accessors_of(self.rev_reads, k).no_duplicates() by {
                if reads@.contains(ResourceId(k)) {
                    assert(accessors_of(self.rev_reads, ResourceId(k).0) == accessors_of(
                        prev.rev_reads,
                        ResourceId(k).0,
                    ).push(id));
                    assert(!accessors_of(prev.rev_reads, k).contains(id));
                    lemma_push_no_duplicates(accessors_of(prev.rev_reads, k), id);
                } else {
                    assert(accessors_of(self.rev_reads, k) == accessors_of(prev.rev_reads, k));
                }
            }
            assert forall|k: u64| #[trigger]
                accessors_of(self.rev_writes, k).no_duplicates() by {
                if writes@.contains(ResourceId(k)) {
                    assert(accessors_of(self.rev_writes, ResourceId(k).0) == accessors_of(
                        prev.rev_writes,
                        ResourceId(k).0,
                    ).push(id));
                    assert(!accessors_of(prev.rev_writes, k).contains(id));
                    lemma_push_no_duplicates(accessors_of(prev.rev_writes, k), id);
                } else {
                    assert(accessors_of(self.rev_writes, k) == accessors_of(prev.rev_writes, k));
                }
            }
            assert forall|k: u64| ascending(#[trigger] accessors_of(self.rev_reads, k)) by {
                assert(ascending(accessors_of(prev.rev_reads, k)));
                if reads@.contains(ResourceId(k)) {
                    assert(accessors_of(self.rev_reads, ResourceId(k).0) == accessors_of(
                        prev.rev_reads,
                        ResourceId(k).0,
                    ).push(id));
                    let s = accessors_of(prev.rev_reads, k);
                    assert forall|j: int| 0 <= j < s.len() implies #[trigger] s[j] < id by {
                        assert(s.contains(s[j]));
                    }
                    lemma_push_ascending(s, id);
                } else {
                    assert(accessors_of(self.rev_reads, k) == accessors_of(prev.rev_reads, k));
                }
            }
            assert forall|k: u64| ascending(#[trigger] accessors_of(self.rev_writes, k)) by {
                assert(ascending(accessors_of(prev.rev_writes, k)));
                if writes@.contains(ResourceId(k)) {
                    assert(accessors_of(self.rev_writes, ResourceId(k).0) == accessors_of(
                        prev.rev_writes,
                        ResourceId(k).0,
                    ).push(id));
                    let s = accessors_of(prev.rev_writes, k);
                    assert forall|j: int| 0 <= j < s.len() implies #[trigger] s[j] < id by {
                        assert(s.contains(s[j]));
                    }
                    lemma_push_ascending(s, id);
                } else {
                    assert(accessors_of(self.rev_writes, k) == accessors_of(prev.rev_writes, k));
                }
            }
        }
    }

    /// How many tasks are registered.
    pub fn count(&self) -> (n: usize)
        ensures
            n == self.task_count(),
    {
        self.dependencies.len()
    }

    /// A copy of the ids of the tasks that declared a read on `r`.
    pub fn tasks_reading(&self, r: ResourceId) -> (v: Vec<usize>)
        ensures
            v@ == accessors_of(self.rev_reads, r.0),
    {
        self.rev_reads.tasks_of(r)
    }

    /// A copy of the ids of the tasks that declared a write on `r`.
    pub fn tasks_writing(&self, r: ResourceId) -> (v: Vec<usize>)
        ensures
            v@ == accessors_of(self.rev_writes, r.0),
    {
        self.rev_writes.tasks_of(r)
    }

    /// Whether tasks `a` and `b` conflict under the registered footprints.
    pub fn conflict(&self, a: usize, b: usize) -> (r: bool)
        requires
            self.wf(),
            a < self.task_count(),
            b < self.task_count(),
        ensures
            r == self.conflicts(a as int, b as int),
    {
        if any_shared(&self.writes[a], &self.reads[b]) {
            return true;
        }
        if any_shared(&self.writes[a], &self.writes[b]) {
            return true;
        }
        any_shared(&self.writes[b], &self.reads[a])
    }
}

/// Appending a fresh element keeps a sequence free of duplicates.
pub(crate) proof fn lemma_push_no_duplicates<A>(s: Seq<A>, e: A)
    requires
        s.no_duplicates(),
        !s.contains(e),
    ensures
        s.push(e).no_duplicates(),
{
    broadcast use vstd::seq_lib::group_seq_properties;

}

/// Whether a footprint component contains the given resource.
pub(crate) fn vec_contains(v: &Vec<ResourceId>, x: ResourceId) -> (r: bool)
    ensures
        r == v@.contains(x),
{
    let mut i: usize = 0;
    while i < v.len()
        invariant
            i <= v@.len(),
            forall|j: int| 0 <= j < i ==> v@[j] != x,
        decreases v@.len() - i,
    {
        if v[i] == x {
            return true;
        }
        i = i + 1;
    }
    false
}

/// Whether a list of task ids contains the given id.
pub(crate) fn contains_usize(v: &Vec<usize>, x: usize) -> (r: bool)
    ensures
        r == v@.contains(x),
{
    let mut i: usize = 0;
    while i < v.len()
        invariant
            i <= v@.len(),
            forall|j: int| 0 <= j < i ==> v@[j] != x,
        decreases v@.len() - i,
    {
        if v[i] == x {
            return true;
        }
        i = i + 1;
    }
    false
}

/// Whether two footprint components name a common resource.
fn any_shared(a: &Vec<ResourceId>, b: &Vec<ResourceId>) -> (r: bool)
    ensures
        r == shares(a@, b@),
{
    let mut i: usize = 0;
    while i < a.len()
        invariant
            i <= a@.len(),
            forall|j: int| 0 <= j < i ==> !b@.contains(#[trigger] a@[j]),
        decreases a@.len() - i,
    {
        if vec_contains(b, a[i]) {
            assert(shares(a@, b@)) by {
                assert(a@.contains(a@[i as int]));
            }
            return true;
        }
        i = i + 1;
    }
    proof {
        if shares(a@, b@) {
            let x = choose|x: ResourceId| a@.contains(x) && b@.contains(x);
            let idx = choose|idx: int| 0 <= idx < a@.len() && a@[idx] == x;
            assert(!b@.contains(a@[idx]));
        }
    }
    false
}

} // verus!
