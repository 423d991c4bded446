use vstd::prelude::*;

use crate::ResourceId;
use crate::names::NameIndex;
use crate::registry::{contains_usize, lemma_push_no_duplicates, vec_contains, Dependencies};

verus! {

/// Failure of one registration step.
#[derive(Clone, Copy, Debug, PartialEq, Eq, Structural)]
pub enum BuildError {
    /// A dependency name had not been registered before the task that
    /// declared it; registering out of order would break the graph's
    /// acyclicity-by-construction.
    UnknownDependency,
}

/// Incremental, validated accumulator for the task graph: footprints and
/// explicit edges in the registry, the name-to-id association, each
/// task's dependents, and the ids whose explicit dependency list was
/// empty at registration time.
pub struct DispatcherBuilder {
    pub dependencies: Dependencies,
    pub ready: Vec<usize>,
    pub map: NameIndex,
    pub dependents: Vec<Vec<usize>>,
}

impl DispatcherBuilder {
    /// How many tasks have been registered.
    pub open spec fn task_count(self) -> nat {
        self.dependents@.len()
    }

    /// The explicit dependency ids of task `i`.
    pub open spec fn deps_of(self, i: int) -> Seq<usize> {
        self.dependencies.deps_of(i)
    }

    /// The ids that declared task `i` as an explicit dependency.
    pub open spec fn dependents_of(self, i: int) -> Seq<usize> {
        self.dependents@[i]@
    }

    /// The registered name-to-id association.
    pub open spec fn names(self) -> Map<Seq<char>, usize> {
        self.map@
    }

    /// The builder is well formed:
    /// - the registry carries one row per task, ids are dense;
    /// - every explicit dependency points at a strictly earlier id;
    /// - `dependents_of(a)` holds `b` exactly when `b` declared `a`;
    /// - every registered name resolves to a registered id;
    /// - `ready` holds exactly the ids registered without dependencies.
    pub open spec fn wf(self) -> bool {
        &&& self.dependencies.wf()
        &&& self.dependencies.task_count() == self.task_count()
        &&& forall|b: int|
            0 <= b < self.task_count() ==> (#[trigger] self.deps_of(b)).no_duplicates()
        &&& forall|b: int, a: usize|
            0 <= b < self.task_count() && #[trigger] self.deps_of(b).contains(a) ==> (a as int)
                < b
        &&& forall|a: int|
            0 <= a < self.task_count() ==> (#[trigger] self.dependents_of(a)).no_duplicates()
        &&& forall|a: int, b: usize|
            0 <= a < self.task_count() && #[trigger] self.dependents_of(a).contains(b) ==> a < b
                && (b as int) < self.task_count()
        &&& forall|a: usize, b: usize|
            #![trigger self.dependents_of(a as int).contains(b)]
            #![trigger self.deps_of(b as int).contains(a)]
            (a as int) < self.task_count() && (b as int) < self.task_count() ==> (
            self.dependents_of(a as int).contains(b) <==> self.deps_of(b as int).contains(a))
        &&& forall|s: Seq<char>|
            #[trigger] self.names().dom().contains(s) ==> (self.names()[s] as int)
                < self.task_count()
        &&& self.ready@.no_duplicates()
        &&& forall|i: usize|
            #![trigger self.ready@.contains(i)]
            #![trigger self.deps_of(i as int)]
            self.ready@.contains(i) <==> ((i as int) < self.task_count() && self.deps_of(
                i as int,
            ).len() == 0)
    }

    /// An empty builder: no tasks, no names.
    pub fn new() -> (r: DispatcherBuilder)
        ensures
            r.wf(),
            r.task_count() == 0,
            r.names() == crate::names::no_names(),
    {
        DispatcherBuilder {
            dependencies: Dependencies::new(),
            ready: Vec::new(),
            map: NameIndex::new(),
            dependents: Vec::new(),
        }
    }

    /// Registers a task under `name` with its declared footprint and the
    /// names of its explicit dependencies.
    ///
    /// Fails with `UnknownDependency`, leaving the builder untouched,
    /// exactly when one of the dependency names has not been registered
    /// yet; otherwise assigns the next dense id and returns it.
    pub fn add_task(
        &mut self,
        name: &str,
        reads: Vec<ResourceId>,
        writes: Vec<ResourceId>,
        deps: &Vec<&str>,
    ) -> (r: Result<usize, BuildError>)
        requires
            old(self).wf(),
            old(self).task_count() < usize::MAX,
        ensures
            final(self).wf(),
            r is Err <==> (exists|j: int|
                0 <= j < deps@.len() && !old(self).names().dom().contains(#[trigger] deps@[j]@)),
            r is Err ==> *final(self) == *old(self) && r == Err::<usize, BuildError>(
                BuildError::UnknownDependency,
            ),
            r is Ok ==> r->Ok_0 == old(self).task_count()
                && final(self).task_count() == old(self).task_count() + 1,
            r is Ok ==> final(self).names() == old(self).names().insert(
                name@,
                old(self).task_count() as usize,
            ),
            r is Ok ==> (forall|x: ResourceId|
                #[trigger] final(self).dependencies.reads_of(
                    old(self).task_count() as int,
                ).contains(x) <==> reads@.contains(x)),
            r is Ok ==> (forall|x: ResourceId|
                #[trigger] final(self).dependencies.writes_of(
                    old(self).task_count() as int,
                ).contains(x) <==> writes@.contains(x)),
            r is Ok ==> (forall|a: usize|
                #[trigger] final(self).deps_of(old(self).task_count() as int).contains(a)
                    <==> (exists|j: int|
                    0 <= j < deps@.len() && old(self).names().dom().contains(#[trigger] deps@[j]@)
                        && old(self).names()[deps@[j]@] == a)),
            r is Ok ==> (forall|i: int|
                0 <= i < old(self).task_count() ==> #[trigger] final(self).deps_of(i) == old(
                    self,
                ).deps_of(i) && final(self).dependencies.reads_of(i) == old(
                    self,
                ).dependencies.reads_of(i) && final(self).dependencies.writes_of(i) == old(
                    self,
                ).dependencies.writes_of(i)),
            r is Ok ==> final(self).dependents_of(old(self).task_count() as int)
                == Seq::<usize>::empty(),
            r is Ok ==> (forall|a: usize|
                (a as int) < old(self).task_count() && #[trigger] final(self).deps_of(
                    old(self).task_count() as int,
                ).contains(a) ==> final(self).dependents_of(a as int) == old(
                    self,
                ).dependents_of(a as int).push(old(self).task_count() as usize)),
            r is Ok ==> (forall|a: usize|
                (a as int) < old(self).task_count() && !(#[trigger] final(self).deps_of(
                    old(self).task_count() as int,
                ).contains(a)) ==> final(self).dependents_of(a as int) == old(
                    self,
                ).dependents_of(a as int)),
            r is Ok && deps@.len() == 0 ==> final(self).ready@ == old(self).ready@.push(
                old(self).task_count() as usize,
            ),
            r is Ok && deps@.len() > 0 ==> final(self).ready@ == old(self).ready@,
    {
        proof {
            broadcast use vstd::seq_lib::group_seq_properties;

        }
        let ghost n = old(self).task_count();
        let mut resolved: Vec<usize> = Vec::new();
        let mut j: usize = 0;
        while j < deps.len()
            invariant
                old(self).wf(),
                *self == *old(self),
                j <= deps@.len(),
                forall|jj: int| 0 <= jj < j ==> old(self).names().dom().contains(#[trigger] deps@[jj]@),
                forall|a: usize|
                    #[trigger] resolved@.contains(a) <==> (exists|jj: int|
                        0 <= jj < j && old(self).names().dom().contains(#[trigger] deps@[jj]@)
                            && old(self).names()[deps@[jj]@] == a),
                resolved@.no_duplicates(),
                forall|a: usize| #[trigger] resolved@.contains(a) ==> (a as int) < old(
                    self,
                ).task_count(),
            decreases deps@.len() - j,
        {
            let dep_name: &str = deps[j];
            let ghost rpre = resolved@;
            match self.map.get(dep_name) {
                None => {
                    return Err(BuildError::UnknownDependency);
                },
                Some(a) => {
                    proof {
                        assert(old(self).names().dom().contains(dep_name@));
                        assert((old(self).names()[dep_name@] as int) < old(self).task_count());
                    }
                    if !contains_usize(&resolved, a) {
                        proof {
                            lemma_push_no_duplicates(resolved@, a);
                        }
                        resolved.push(a);
                    }
                    proof {
                        broadcast use vstd::seq_lib::group_seq_properties;

                        assert(deps@[j as int]@ == dep_name@);
                        assert(resolved@.contains(a));
                        assert forall|x: usize| #[trigger] resolved@.contains(x) implies (
                        exists|jj: int|
                            0 <= jj < j + 1 && old(self).names().dom().contains(
                                #[trigger] deps@[jj]@,
                            ) && old(self).names()[deps@[jj]@] == x) by {
                            if rpre.contains(x) {
                                let jj = choose|jj: int|
                                    0 <= jj < j && old(self).names().dom().contains(
                                        #[trigger] deps@[jj]@,
                                    ) && old(self).names()[deps@[jj]@] == x;
                                assert(0 <= jj < j + 1 && old(self).names().dom().contains(
                                    deps@[jj]@,
                                ) && old(self).names()[deps@[jj]@] == x);
                            } else {
                                assert(x == a);
                                assert(0 <= j < j + 1 && old(self).names().dom().contains(
                                    deps@[j as int]@,
                                ) && old(self).names()[deps@[j as int]@] == x);
                            }
                        }
                        assert forall|x: usize|
                            (exists|jj: int|
                                0 <= jj < j + 1 && old(self).names().dom().contains(
                                    #[trigger] deps@[jj]@,
                                ) && old(self).names()[deps@[jj]@] == x) implies #[trigger] resolved@.contains(
                            x,
                        ) by {
                            let jj = choose|jj: int|
                                0 <= jj < j + 1 && old(self).names().dom().contains(
                                    #[trigger] deps@[jj]@,
                                ) && old(self).names()[deps@[jj]@] == x;
                            if jj < j {
                                assert(rpre.contains(x));
                            } else {
                                assert(x == a);
                            }
                        }
                    }
                },
            }
            j = j + 1;
        }
        let id = self.dependents.len();
        let ghost resolved_snap = resolved@;
        let mut t: usize = 0;
        while t < resolved.len()
            invariant
                old(self).wf(),
                resolved@ == resolved_snap,
                resolved@.no_duplicates(),
                forall|a: usize| #[trigger] resolved@.contains(a) ==> (a as int) < n,
                id == n,
                n == old(self).task_count(),
                t <= resolved@.len(),
                self.dependencies == old(self).dependencies,
                self.map == old(self).map,
                self.ready == old(self).ready,
                self.dependents@.len() == n,
                forall|a: int|
                    0 <= a < n && resolved@.take(t as int).contains(a as usize)
                        ==> #[trigger] self.dependents@[a]@ == old(self).dependents@[a]@.push(id),
                forall|a: int|
                    0 <= a < n && !resolved@.take(t as int).contains(a as usize)
                        ==> #[trigger] self.dependents@[a] == old(self).dependents@[a],
            decreases resolved@.len() - t,
        {
            let a = resolved[t];
            proof {
                broadcast use vstd::seq_lib::group_seq_properties;

                assert(resolved@.contains(a));
                if resolved@.take(t as int).contains(a) {
                    let idx = choose|idx: int|
                        0 <= idx < t && resolved@.take(t as int)[idx] == a;
                    assert(resolved@[idx] == resolved@[t as int]);
                    assert(false);
                }
            }
            let ghost pre = self.dependents@;
            self.dependents[a].push(id);
            proof {
                broadcast use vstd::seq_lib::group_seq_properties;

                assert(self.dependents@ == pre.update(a as int, self.dependents@[a as int]));
                assert(self.dependents@[a as int]@ == pre[a as int]@.push(id));
                assert(resolved@.take(t as int + 1) == resolved@.take(t as int).push(a));
                assert forall|b: int|
                    0 <= b < n && resolved@.take(t as int + 1).contains(b as usize)
                        implies #[trigger] self.dependents@[b]@ == old(
                    self,
                ).dependents@[b]@.push(id) by {
                    if b != a as int {
                        assert(resolved@.take(t as int).contains(b as usize));
                    }
                }
            }
            t = t + 1;
        }
        proof {
            broadcast use vstd::seq_lib::group_seq_properties;

            assert(resolved@.take(resolved@.len() as int) == resolved@);
        }
        self.dependents.push(Vec::new());
        let reads_set = dedup_resources(reads);
        let writes_set = dedup_resources(writes);
        self.dependencies.add(id, reads_set, writes_set, resolved);
        self.map.insert(name, id);
        if deps.len() == 0 {
            proof {
                broadcast use vstd::seq_lib::group_seq_properties;

                assert(!old(self).ready@.contains(id));
                lemma_push_no_duplicates(old(self).ready@, id);
            }
            self.ready.push(id);
        }
        proof {
            broadcast use vstd::seq_lib::group_seq_properties;

            let prev = *old(self);
            assert(self.deps_of(id as int) == resolved_snap);
            if deps@.len() > 0 {
                assert(prev.names().dom().contains(deps@[0]@));
                assert(resolved_snap.contains(prev.names()[deps@[0]@]));
            }
            assert forall|b: int|
                0 <= b < self.task_count() implies (#[trigger] self.deps_of(
                b,
            )).no_duplicates() by {
                if b < id {
                    assert(prev.deps_of(b).no_duplicates());
                    assert(self.deps_of(b) == prev.deps_of(b));
                }
            }
            assert forall|b: int, a: usize|
                0 <= b < self.task_count() && #[trigger] self.deps_of(b).contains(a)
                    implies (a as int) < b by {
                if b < id {
                    assert(self.deps_of(b) == prev.deps_of(b));
                    assert(prev.deps_of(b).contains(a));
                }
            }
            assert forall|a: int|
                0 <= a < self.task_count() implies (#[trigger] self.dependents_of(
                a,
            )).no_duplicates() by {
                if a < id {
                    assert(prev.dependents_of(a).no_duplicates());
                    if resolved_snap.contains(a as usize) {
                        assert(self.dependents_of(a) == prev.dependents_of(a).push(id));
                        assert(!prev.dependents_of(a).contains(id));
                        lemma_push_no_duplicates(prev.dependents_of(a), id);
                    } else {
                        assert(self.dependents@[a] == prev.dependents@[a]);
                    }
                }
            }
            assert forall|a: int, b: usize|
                0 <= a < self.task_count() && #[trigger] self.dependents_of(a).contains(b)
                    implies a < b && (b as int) < self.task_count() by {
                if a < id {
                    if resolved_snap.contains(a as usize) {
                        assert(self.dependents_of(a) == prev.dependents_of(a).push(id));
                        if b != id {
                            assert(prev.dependents_of(a).contains(b));
                        }
                    } else {
                        assert(self.dependents@[a] == prev.dependents@[a]);
                        assert(prev.dependents_of(a).contains(b));
                    }
                }
            }
            assert forall|a: usize, b: usize|
                #![trigger self.dependents_of(a as int).contains(b)]
                #![trigger self.deps_of(b as int).contains(a)]
                (a as int) < self.task_count() && (b as int) < self.task_count() implies (
            self.dependents_of(a as int).contains(b) <==> self.deps_of(b as int).contains(
                a,
            )) by {
                if (a as int) < id && (b as int) < id {
                    assert(self.deps_of(b as int) == prev.deps_of(b as int));
                    assert(prev.dependents_of(a as int).contains(b) <==> prev.deps_of(
                        b as int,
                    ).contains(a));
                    if resolved_snap.contains(a) {
                        assert(self.dependents_of(a as int) == prev.dependents_of(
                            a as int,
                        ).push(id));
                    } else {
                        assert(self.dependents@[a as int] == prev.dependents@[a as int]);
                    }
                } else if (a as int) < id && b == id {
                    if resolved_snap.contains(a) {
                        assert(self.dependents_of(a as int) == prev.dependents_of(
                            a as int,
                        ).push(id));
                    } else {
                        assert(self.dependents@[a as int] == prev.dependents@[a as int]);
                        assert(!prev.dependents_of(a as int).contains(b));
                    }
                } else if a == id {
                    assert(self.dependents_of(id as int) == Seq::<usize>::empty());
                    if (b as int) < id {
                        assert(self.deps_of(b as int) == prev.deps_of(b as int));
                        if prev.deps_of(b as int).contains(a) {
                            assert((a as int) < b as int);
                            assert(false);
                        }
                    } else {
                        if resolved_snap.contains(a) {
                            assert((a as int) < n);
                            assert(false);
                        }
                    }
                }
            }
            assert forall|s: Seq<char>| #[trigger]
                self.names().dom().contains(s) implies (self.names()[s] as int)
                < self.task_count() by {
                if s != name@ {
                    assert(prev.names().dom().contains(s));
                }
            }
            assert forall|i: usize|
                #![trigger self.ready@.contains(i)]
                #![trigger self.deps_of(i as int)]
                self.ready@.contains(i) <==> ((i as int) < self.task_count() && self.deps_of(
                i as int,
            ).len() == 0) by {
                assert(prev.ready@.contains(i) <==> ((i as int) < prev.task_count()
                    && prev.deps_of(i as int).len() == 0));
                if deps@.len() == 0 {
                    assert(self.ready@ == prev.ready@.push(id));
                    assert(self.ready@.contains(i) <==> (prev.ready@.contains(i) || i == id));
                } else {
                    assert(self.ready@ == prev.ready@);
                }
                if (i as int) < id {
                    assert(self.deps_of(i as int) == prev.deps_of(i as int));
                }
                if i == id {
                    assert(self.deps_of(id as int) == resolved_snap);
                    assert(!prev.ready@.contains(id));
                    if deps@.len() == 0 {
                        if resolved_snap.len() > 0 {
                            assert(resolved_snap.contains(resolved_snap[0]));
                        }
                    } else {
                        assert(resolved_snap.len() > 0);
                    }
                }
            }
        }
        Ok(id)
    }
}

/// Copies a declared footprint component, dropping repeated mentions of
/// a resource: a footprint is a set.
fn dedup_resources(v: Vec<ResourceId>) -> (r: Vec<ResourceId>)
    ensures
        r@.no_duplicates(),
        forall|x: ResourceId| #[trigger] r@.contains(x) <==> v@.contains(x),
{
    proof {
        broadcast use vstd::seq_lib::group_seq_properties;

    }
    let mut r: Vec<ResourceId> = Vec::new();
    let mut i: usize = 0;
    while i < v.len()
        invariant
            i <= v@.len(),
            r@.no_duplicates(),
            forall|x: ResourceId| #[trigger] r@.contains(x) <==> v@.take(i as int).contains(x),
        decreases v@.len() - i,
    {
        let x = v[i];
        let already = vec_contains(&r, x);
        if !already {
            r.push(x);
        }
        proof {
            broadcast use vstd::seq_lib::group_seq_properties;

            assert(v@.take(i as int + 1) == v@.take(i as int).push(x));
        }
        i = i + 1;
    }
    proof {
        broadcast use vstd::seq_lib::group_seq_properties;

        assert(v@.take(v@.len() as int) == v@);
    }
    r
}

} // verus!
