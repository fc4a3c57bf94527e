use vstd::prelude::*;

use crate::error::HostError;
use crate::graph::{ModuleGraph, ENTRY};
use crate::link::{deps_first, instantiation_order, link, link_failure, module_links, post_order, reaches};

verus! {

/// Where a module stands in evaluation.
#[derive(Debug, Clone, PartialEq, Eq)]
pub enum Outcome {
    /// Not yet run.
    Pending,
    /// Its body ran to completion.
    Evaluated,
    /// Its body threw, or one of its dependencies failed first; `origin` is
    /// the module whose body threw.
    Failed { origin: usize, cause: String },
}

/// Evaluation of a linked graph in instantiation order.  Positions before
/// `next` are settled; the module at `next` is the one to run.
pub struct Evaluation {
    pub order: Vec<usize>,
    pub next: usize,
    pub outcomes: Vec<Outcome>,
}

/// Whether outcome `o` already stands in `outcomes`.
pub open spec fn known_outcome(outcomes: Seq<Outcome>, o: Outcome) -> bool {
    exists|y: int| 0 <= y < outcomes.len() && outcomes[y] == o
}

/// No module body runs twice: each module occupies one position of the
/// order, and each position is settled once, even when imports form a cycle.
pub proof fn lemma_runs_once(e: Evaluation, g: ModuleGraph, p: int, q: int)
    requires
        e.wf(g),
        0 <= p < e.order@.len(),
        0 <= q < e.order@.len(),
        p != q,
    ensures
        e.order@[p] != e.order@[q],
{
}

impl Evaluation {
    /// Whether dependency edge `k` of module `m` leads to a failed module.
    pub open spec fn dep_failed(&self, g: ModuleGraph, m: int, k: int) -> bool {
        self.outcomes@[g.deps(m)[k] as int] is Failed
    }

    /// Whether some dependency of module `m` has failed.
    pub open spec fn has_failed_dep(&self, g: ModuleGraph, m: int) -> bool {
        exists|k: int| 0 <= k < g.deps(m).len() && #[trigger] self.dep_failed(g, m, k)
    }

    /// Whether module `m` carries the failure of its dependency along edge `k`.
    pub open spec fn carries(&self, g: ModuleGraph, m: int, k: int) -> bool {
        &&& self.outcomes@[g.deps(m)[k] as int] is Failed
        &&& self.outcomes@[g.deps(m)[k] as int] == self.outcomes@[m]
    }

    /// Whether module `m` failed by taking on the failure of a dependency.
    pub open spec fn inherited_failure(&self, g: ModuleGraph, m: int) -> bool {
        exists|k: int| 0 <= k < g.deps(m).len() && #[trigger] self.carries(g, m, k)
    }

    /// Consistency with the graph: the order lists distinct records, those
    /// before `next` are settled and those from `next` on are pending.
    pub open spec fn wf(&self, g: ModuleGraph) -> bool {
        &&& g.wf()
        &&& self.outcomes@.len() == g.records@.len()
        &&& self.next <= self.order@.len()
        &&& self.order@.no_duplicates()
        &&& forall|p: int| 0 <= p < self.order@.len() ==> (#[trigger] self.order@[p] as int) < g.records@.len()
        &&& forall|p: int| 0 <= p < self.order@.len()
            ==> (self.outcomes@[#[trigger] self.order@[p] as int] is Pending) == (p >= self.next)
        &&& forall|m: int| 0 <= m < self.outcomes@.len() && (#[trigger] self.outcomes@[m]) is Failed
            ==> (self.outcomes@[m]->origin as int) < g.records@.len()
    }

    /// Starts evaluating a fully loaded graph: nothing has run yet.  Only a
    /// complete graph can be evaluated, so a failed load leaves every module
    /// unevaluated.
    pub fn new(g: &ModuleGraph, order: Vec<usize>) -> (r: Evaluation)
        requires
            g.wf(),
            g.complete(),
            order@.no_duplicates(),
            forall|p: int| 0 <= p < order@.len() ==> (#[trigger] order@[p] as int) < g.records@.len(),
        ensures
            r.wf(*g),
            r.order == order,
            r.next == 0,
            forall|m: int| 0 <= m < g.records@.len() ==> r.outcomes@[m] is Pending,
    {
        let n = g.records.len();
        let mut outcomes: Vec<Outcome> = Vec::new();
        let mut i: usize = 0;
        while i < n
            invariant
                i <= n,
                n == g.records@.len(),
                outcomes@.len() == i,
                forall|j: int| 0 <= j < i ==> #[trigger] outcomes@[j] is Pending,
            decreases n - i,
        {
            outcomes.push(Outcome::Pending);
            i = i + 1;
        }
        Evaluation { order, next: 0, outcomes }
    }

    /// The failed dependency of module `m` met first, if any.
    fn failed_dep(&self, g: &ModuleGraph, m: usize) -> (r: Option<usize>)
        requires
            self.wf(*g),
            (m as int) < g.records@.len(),
        ensures
            match r {
                Some(k) => k < g.deps(m as int).len() && self.dep_failed(*g, m as int, k as int),
                None => !self.has_failed_dep(*g, m as int),
            },
    {
        let n = g.records[m].targets.len();
        let mut k: usize = 0;
        while k < n
            invariant
                self.wf(*g),
                (m as int) < g.records@.len(),
                n == g.deps(m as int).len(),
                k <= n,
                forall|j: int| 0 <= j < k ==> !#[trigger] self.dep_failed(*g, m as int, j),
            decreases n - k,
        {
            assert(g.record_ok(m as int));
            let d = g.records[m].targets[k];
            if let Outcome::Failed { .. } = &self.outcomes[d] {
                return Some(k);
            }
            k = k + 1;
        }
        None
    }

    /// Settles, in order, every module with a failed dependency (each takes
    /// on that failure, so it is attributed to the module whose body threw),
    /// and then names the next module whose body must run, if any is left.
    /// Modules settled before the call keep their outcome.
    pub fn next_module(&mut self, g: &ModuleGraph) -> (r: Option<usize>)
        requires
            old(self).wf(*g),
        ensures
            final(self).wf(*g),
            final(self).order == old(self).order,
            old(self).next <= final(self).next,
            forall|p: int| 0 <= p < old(self).next
                ==> final(self).outcomes@[#[trigger] old(self).order@[p] as int] == old(self).outcomes@[old(self).order@[p] as int],
            forall|p: int| old(self).next <= p < final(self).next
                ==> #[trigger] final(self).inherited_failure(*g, final(self).order@[p] as int),
            forall|x: int| 0 <= x < final(self).outcomes@.len() && (#[trigger] final(self).outcomes@[x]) is Failed
                ==> known_outcome(old(self).outcomes@, final(self).outcomes@[x]),
            match r {
                Some(m) => final(self).next < final(self).order@.len() && m == final(self).order@[final(self).next as int]
                    && !final(self).has_failed_dep(*g, m as int),
                None => final(self).next == final(self).order@.len(),
            },
    {
        while self.next < self.order.len()
            invariant
                self.wf(*g),
                self.order == old(self).order,
                old(self).next <= self.next,
                forall|p: int| 0 <= p < old(self).next
                    ==> self.outcomes@[#[trigger] old(self).order@[p] as int] == old(self).outcomes@[old(self).order@[p] as int],
                forall|p: int| old(self).next <= p < self.next
                    ==> #[trigger] self.inherited_failure(*g, self.order@[p] as int),
                forall|x: int| 0 <= x < self.outcomes@.len() && (#[trigger] self.outcomes@[x]) is Failed
                    ==> known_outcome(old(self).outcomes@, self.outcomes@[x]),
            decreases self.order@.len() - self.next,
        {
            let m = self.order[self.next];
            match self.failed_dep(g, m) {
                None => {
                    return Some(m);
                },
                Some(k) => {
                    assert(g.record_ok(m as int));
                    let d = g.records[m].targets[k];
                    let failed = match &self.outcomes[d] {
                        Outcome::Failed { origin, cause } => Outcome::Failed { origin: *origin, cause: cause.clone() },
                        _ => Outcome::Pending,
                    };
                    let ghost before = *self;
                    let ghost pos = self.next as int;
                    self.outcomes.set(m, failed);
                    self.next = self.next + 1;
                    proof {
                        assert(self.carries(*g, m as int, k as int));
                        assert forall|x: int| 0 <= x < self.outcomes@.len() && (#[trigger] self.outcomes@[x]) is Failed
                            implies known_outcome(old(self).outcomes@, self.outcomes@[x]) by {
                            if x == m as int {
                                assert(self.outcomes@[x] == before.outcomes@[d as int]);
                                assert(known_outcome(old(self).outcomes@, before.outcomes@[d as int]));
                            } else {
                                assert(self.outcomes@[x] == before.outcomes@[x]);
                            }
                        };
                        assert forall|p: int| 0 <= p < self.order@.len() implies
                            (self.outcomes@[#[trigger] self.order@[p] as int] is Pending) == (p >= self.next) by {
                            if p != pos {
                                assert(self.order@[p] != m);
                            }
                        };
                        assert forall|x: int| 0 <= x < self.outcomes@.len() && (#[trigger] self.outcomes@[x]) is Failed
                            implies (self.outcomes@[x]->origin as int) < g.records@.len() by {
                            if x != m as int {
                                assert(self.outcomes@[x] == before.outcomes@[x]);
                            } else {
                                assert(before.outcomes@[d as int] is Failed);
                            }
                        };
                        assert forall|p: int| 0 <= p < old(self).next implies
                            self.outcomes@[#[trigger] old(self).order@[p] as int] == old(self).outcomes@[old(self).order@[p] as int] by {
                            assert(self.order@[p] != m);
                        };
                        assert forall|p: int| old(self).next <= p < self.next implies
                            #[trigger] self.inherited_failure(*g, self.order@[p] as int) by {
                            if p < pos {
                                let q = self.order@[p] as int;
                                assert(before.inherited_failure(*g, q));
                                let j = choose|j: int| 0 <= j < g.deps(q).len() && #[trigger] before.carries(*g, q, j);
                                assert(g.record_ok(q));
                                assert(self.order@[p] != m);
                                assert(g.deps(q)[j] != m);
                                assert(self.carries(*g, q, j));
                            }
                        };
                    }
                },
            }
        }
        None
    }
    /// Records what running the body of the module at `next` gave: it is
    /// evaluated, or it failed on its own account.  Modules settled before
    /// keep their outcome.
    pub fn report(&mut self, g: &ModuleGraph, result: Result<(), String>)
        requires
            old(self).wf(*g),
            old(self).next < old(self).order@.len(),
        ensures
            final(self).wf(*g),
            final(self).order == old(self).order,
            final(self).next == old(self).next + 1,
            forall|p: int| 0 <= p < old(self).next
                ==> final(self).outcomes@[#[trigger] old(self).order@[p] as int] == old(self).outcomes@[old(self).order@[p] as int],
            final(self).outcomes@[old(self).order@[old(self).next as int] as int] == (match result {
                Ok(()) => Outcome::Evaluated,
                Err(cause) => Outcome::Failed { origin: old(self).order@[old(self).next as int], cause },
            }),
    {
        let m = self.order[self.next];
        let settled = match result {
            Ok(()) => Outcome::Evaluated,
            Err(cause) => Outcome::Failed { origin: m, cause },
        };
        let ghost pos = self.next as int;
        assert(self.next < self.order.len());
        let nxt = self.next + 1;
        self.outcomes.set(m, settled);
        self.next = nxt;
        proof {
            assert forall|p: int| 0 <= p < self.order@.len() implies
                (self.outcomes@[#[trigger] self.order@[p] as int] is Pending) == (p >= self.next) by {
                if p != pos {
                    assert(self.order@[p] != m);
                }
            };
            assert forall|p: int| 0 <= p < old(self).next implies
                self.outcomes@[#[trigger] old(self).order@[p] as int] == old(self).outcomes@[old(self).order@[p] as int] by {
                assert(self.order@[p] != m);
            };
            assert forall|x: int| 0 <= x < self.outcomes@.len() && (#[trigger] self.outcomes@[x]) is Failed
                implies (self.outcomes@[x]->origin as int) < g.records@.len() by {
                if x != m as int {
                    assert(self.outcomes@[x] == old(self).outcomes@[x]);
                }
            };
        }
    }

    /// The settlement of the entry module (listed last): nothing while it is
    /// pending, success once evaluated, and otherwise an `EvaluationError`
    /// naming the module whose body threw.
    pub fn entry_result(&self, g: &ModuleGraph) -> (r: Option<Result<(), HostError>>)
        requires
            self.wf(*g),
            self.order@.len() > 0,
        ensures
            match self.outcomes@[self.order@.last() as int] {
                Outcome::Pending => r is None,
                Outcome::Evaluated => r == Some(Ok::<(), HostError>(())),
                Outcome::Failed { origin, cause } => r matches Some(Err(
                    HostError::EvaluationError { specifier, cause: c },
                )) && specifier@ == g.specs()[origin as int] && c == cause,
            },
    {
        let last = self.order[self.order.len() - 1];
        match &self.outcomes[last] {
            Outcome::Pending => None,
            Outcome::Evaluated => Some(Ok(())),
            Outcome::Failed { origin, cause } => Some(Err(HostError::EvaluationError {
                specifier: g.records[*origin].specifier.href.clone(),
                cause: cause.clone(),
            })),
        }
    }
}

/// Links a fully loaded graph and, only if every import binds, returns an
/// evaluation ready to run it in instantiation order.  No module runs before
/// the whole graph is linked.
pub fn instantiate(g: &ModuleGraph) -> (r: Result<Evaluation, HostError>)
    requires
        g.wf(),
        g.complete(),
    ensures
        match r {
            Ok(e) => {
                &&& e.wf(*g)
                &&& e.next == 0
                &&& e.order@.len() > 0
                &&& e.order@.last() == ENTRY
                &&& e.order@ == post_order(*g)
                &&& deps_first(*g, e.order@)
                &&& forall|p: int| 0 <= p < e.order@.len() ==> reaches(*g, ENTRY, #[trigger] e.order@[p])
                &&& forall|p: int| 0 <= p < e.order@.len() ==> module_links(*g, #[trigger] e.order@[p] as int)
                &&& forall|m: int| 0 <= m < g.records@.len() ==> e.outcomes@[m] is Pending
            },
            Err(err) => exists|m: usize| reaches(*g, ENTRY, m) && #[trigger] link_failure(*g, m as int, err),
        },
        r is Ok <==> forall|m: usize| reaches(*g, ENTRY, m) ==> #[trigger] module_links(*g, m as int),
{
    let order = instantiation_order(g);
    match link(g, &order) {
        Ok(()) => {
            assert forall|m: usize| reaches(*g, ENTRY, m) implies #[trigger] module_links(*g, m as int) by {
                assert(order@.contains(m));
                let p = choose|p: int| 0 <= p < order@.len() && order@[p] == m;
                assert(module_links(*g, order@[p] as int));
            };
            Ok(Evaluation::new(g, order))
        },
        Err(err) => {
            let ghost p = choose|p: int| 0 <= p < order@.len() && !module_links(*g, #[trigger] order@[p] as int)
                && link_failure(*g, order@[p] as int, err);
            assert(reaches(*g, ENTRY, order@[p]));
            assert(link_failure(*g, order@[p] as int, err));
            assert(!module_links(*g, order@[p] as int));
            Err(err)
        },
    }
}

} // verus!
