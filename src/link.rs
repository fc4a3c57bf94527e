use vstd::prelude::*;

use crate::error::HostError;
use crate::graph::{ModuleGraph, ENTRY};

verus! {

/// How many entries of `v` are still unmarked.
pub open spec fn unmarked(v: Seq<bool>) -> nat
    decreases v.len(),
{
    if v.len() == 0 {
        0
    } else {
        unmarked(v.drop_last()) + if v.last() { 0nat } else { 1nat }
    }
}

/// Marking more entries never adds unmarked ones, and marking a new one
/// removes at least one.
proof fn lemma_unmarked_shrinks(a: Seq<bool>, b: Seq<bool>, i: int)
    requires
        a.len() == b.len(),
        forall|j: int| 0 <= j < a.len() && #[trigger] a[j] ==> b[j],
    ensures
        unmarked(b) <= unmarked(a),
        0 <= i < a.len() && !a[i] && b[i] ==> unmarked(b) < unmarked(a),
    decreases a.len(),
{
    if a.len() > 0 {
        let n = a.len() - 1;
        assert forall|j: int| 0 <= j < n && #[trigger] a.drop_last()[j] implies b.drop_last()[j] by {
            assert(a[j]);
        };
        lemma_unmarked_shrinks(a.drop_last(), b.drop_last(), i);
    }
}

/// The post-order depth-first walk from `u`: mark `u`, walk its imports in
/// order, then list `u`.  `fuel` bounds the depth; the number of records is
/// always enough.  Returns the marks and the order after the walk.
pub open spec fn walk_from(g: ModuleGraph, fuel: nat, u: usize, marked: Seq<bool>, order: Seq<usize>) -> (Seq<bool>, Seq<usize>)
    decreases fuel, 0int, 0int,
{
    if fuel == 0 {
        (marked, order)
    } else {
        let r = walk_deps(g, (fuel - 1) as nat, u, 0, marked.update(u as int, true), order);
        (r.0, r.1.push(u))
    }
}

/// The walk over the imports of `u` from edge `k` on: each import not yet
/// marked is walked in turn, the first discovered edge first.
pub open spec fn walk_deps(g: ModuleGraph, fuel: nat, u: usize, k: int, marked: Seq<bool>, order: Seq<usize>) -> (Seq<bool>, Seq<usize>)
    decreases fuel, 1int, g.deps(u as int).len() - k,
{
    if k < 0 || k >= g.deps(u as int).len() {
        (marked, order)
    } else {
        let c = g.deps(u as int)[k];
        if marked[c as int] {
            walk_deps(g, fuel, u, k + 1, marked, order)
        } else {
            let r = walk_from(g, fuel, c, marked, order);
            walk_deps(g, fuel, u, k + 1, r.0, r.1)
        }
    }
}

/// The instantiation order of a graph: the walk from the entry, with
/// nothing marked at the start.
pub open spec fn post_order(g: ModuleGraph) -> Seq<usize> {
    walk_from(g, g.records@.len(), ENTRY, Seq::new(g.records@.len(), |i: int| false), Seq::empty()).1
}

/// There are never more unmarked entries than entries.
proof fn lemma_unmarked_bounded(v: Seq<bool>)
    ensures
        unmarked(v) <= v.len(),
    decreases v.len(),
{
    if v.len() > 0 {
        lemma_unmarked_bounded(v.drop_last());
    }
}

/// Whether `s` follows import edges, each element importing the next.
pub open spec fn is_walk(g: ModuleGraph, s: Seq<usize>) -> bool {
    forall|i: int| 0 <= i < s.len() - 1 ==> #[trigger] g.deps(s[i] as int).contains(s[i + 1])
}

/// Whether module `b` can be reached from module `a` along import edges.
pub open spec fn reaches(g: ModuleGraph, a: usize, b: usize) -> bool {
    exists|s: Seq<usize>| s.len() > 0 && s[0] == a && s.last() == b && #[trigger] is_walk(g, s)
}

/// Whether `d` appears in `order` before position `p`.
pub open spec fn listed_before(order: Seq<usize>, p: int, d: usize) -> bool {
    exists|q: int| 0 <= q < p && #[trigger] order[q] == d
}

/// Dependencies precede their dependents, except where a dependency lies on
/// an import cycle through the dependent.
pub open spec fn deps_first(g: ModuleGraph, order: Seq<usize>) -> bool {
    forall|p: int, k: int| 0 <= p < order.len() && 0 <= k < g.deps(order[p] as int).len()
        ==> listed_before(order, p, #[trigger] g.deps(#[trigger] order[p] as int)[k])
            || reaches(g, g.deps(order[p] as int)[k], order[p])
}

/// Depth-first bookkeeping that holds between visits: listed modules are
/// distinct, marked, and have all their dependencies marked; every marked
/// module is listed or still on the path being explored, and the path is
/// marked.
pub open spec fn dfs_inv(g: ModuleGraph, marked: Seq<bool>, order: Seq<usize>, path: Seq<usize>) -> bool {
    &&& marked.len() == g.records@.len()
    &&& order.no_duplicates()
    &&& forall|p: int| 0 <= p < order.len() ==> (#[trigger] order[p] as int) < g.records@.len()
        && marked[order[p] as int]
    &&& forall|p: int, k: int| 0 <= p < order.len() && 0 <= k < g.deps(order[p] as int).len()
        ==> marked[#[trigger] g.deps(#[trigger] order[p] as int)[k] as int]
    &&& forall|x: int| 0 <= x < marked.len() && #[trigger] marked[x]
        ==> order.contains(x as usize) || path.contains(x as usize)
    &&& forall|x: usize| #[trigger] path.contains(x) ==> (x as int) < marked.len() && marked[x as int]
    &&& is_walk(g, path)
    &&& path.len() > 0 ==> path[0] == ENTRY
    &&& forall|p: int| 0 <= p < order.len() ==> reaches(g, ENTRY, #[trigger] order[p])
    &&& deps_first(g, order)
}

/// Visits `u` and, first, every module reachable from it that is not yet
/// marked, appending each to `order` after its dependencies.
fn visit(g: &ModuleGraph, u: usize, marked: &mut Vec<bool>, order: &mut Vec<usize>, Ghost(path): Ghost<Seq<usize>>, Ghost(fuel): Ghost<nat>)
    requires
        fuel >= unmarked(old(marked)@),
        g.wf(),
        (u as int) < g.records@.len(),
        path.len() == 0 || g.deps(path.last() as int).contains(u),
        path.len() == 0 ==> u == ENTRY,
        !old(marked)@[u as int],
        dfs_inv(*g, old(marked)@, old(order)@, path),
    ensures
        dfs_inv(*g, final(marked)@, final(order)@, path),
        final(marked)@[u as int],
        final(order)@.len() > old(order)@.len(),
        final(order)@.last() == u,
        final(order)@.subrange(0, old(order)@.len() as int) == old(order)@,
        forall|j: int| 0 <= j < old(marked)@.len() && #[trigger] old(marked)@[j] ==> final(marked)@[j],
        forall|p: int| old(order)@.len() <= p < final(order)@.len()
            ==> !old(marked)@[#[trigger] final(order)@[p] as int],
        (final(marked)@, final(order)@) == walk_from(*g, fuel, u, old(marked)@, old(order)@),
    decreases unmarked(old(marked)@),
{
    let ghost entry_marked = marked@;
    let ghost entry_order = order@;
    marked.set(u, true);
    let ghost inner = path.push(u);
    proof {
        lemma_unmarked_shrinks(entry_marked, marked@, u as int);
        assert(fuel > 0);
        assert forall|x: int| 0 <= x < marked@.len() && #[trigger] marked@[x]
            implies order@.contains(x as usize) || inner.contains(x as usize) by {
            if x != u as int {
                assert(entry_marked[x]);
                if path.contains(x as usize) {
                    let i = choose|i: int| 0 <= i < path.len() && path[i] == x as usize;
                    assert(inner[i] == x as usize);
                }
            } else {
                assert(inner[path.len() as int] == u);
            }
        };
        assert forall|p: int| 0 <= p < order@.len() implies (#[trigger] order@[p] as int) < g.records@.len()
            && marked@[order@[p] as int] by {
            assert(entry_marked[order@[p] as int]);
        };
        assert forall|p: int, j: int| 0 <= p < order@.len() && 0 <= j < g.deps(order@[p] as int).len()
            implies marked@[#[trigger] g.deps(#[trigger] order@[p] as int)[j] as int] by {
            assert(g.record_ok(order@[p] as int));
            assert(entry_marked[g.deps(order@[p] as int)[j] as int]);
        };
        assert forall|x: usize| #[trigger] inner.contains(x) implies (x as int) < marked@.len() && marked@[x as int] by {
            if x != u {
                let i = choose|i: int| 0 <= i < inner.len() && inner[i] == x;
                assert(path[i] == x);
                assert(path.contains(x));
                assert(entry_marked[x as int]);
            }
        };
        assert forall|i: int| 0 <= i < inner.len() - 1 implies #[trigger] g.deps(inner[i] as int).contains(inner[i + 1]) by {
            if i < path.len() - 1 {
                assert(inner[i] == path[i] && inner[i + 1] == path[i + 1]);
            }
        };
        assert(!order@.contains(u)) by {
            if order@.contains(u) {
                let p = choose|p: int| 0 <= p < order@.len() && order@[p] == u;
                assert(entry_marked[order@[p] as int]);
            }
        };
    }
    let n = g.records[u].targets.len();
    let mut k: usize = 0;
    while k < n
        invariant
            g.wf(),
            (u as int) < g.records@.len(),
            n == g.deps(u as int).len(),
            k <= n,
            inner == path.push(u),
            dfs_inv(*g, marked@, order@, inner),
            marked@[u as int],
            !order@.contains(u),
            old(marked)@.len() == g.records@.len(),
            entry_order == old(order)@,
            entry_marked == old(marked)@,
            !old(marked)@[u as int],
            order@.subrange(0, old(order)@.len() as int) == old(order)@,
            old(order)@.len() <= order@.len(),
            forall|j: int| 0 <= j < old(marked)@.len() && #[trigger] old(marked)@[j] ==> marked@[j],
            forall|p: int| old(order)@.len() <= p < order@.len() ==> !old(marked)@[#[trigger] order@[p] as int],
            unmarked(marked@) < unmarked(old(marked)@),
            forall|j: int| 0 <= j < k ==> marked@[#[trigger] g.deps(u as int)[j] as int],
            fuel >= unmarked(old(marked)@),
            fuel > 0,
            walk_deps(*g, (fuel - 1) as nat, u, k as int, marked@, order@)
                == walk_deps(*g, (fuel - 1) as nat, u, 0, old(marked)@.update(u as int, true), old(order)@),
        decreases n - k,
    {
        assert(g.record_ok(u as int));
        let c = g.records[u].targets[k];
        if !marked[c] {
            let ghost mid_marked = marked@;
            let ghost mid_order = order@;
            assert(g.deps(inner.last() as int)[k as int] == c);
            visit(g, c, marked, order, Ghost(inner), Ghost((fuel - 1) as nat));
            proof {
                assert(mid_marked.len() == old(marked)@.len());
                assert forall|j: int| 0 <= j < old(marked)@.len() && #[trigger] old(marked)@[j] implies marked@[j] by {
                    assert(mid_marked[j]);
                    assert(mid_marked[j] ==> marked@[j]);
                };
                assert forall|p: int| old(order)@.len() <= p < order@.len()
                    implies !old(marked)@[#[trigger] order@[p] as int] by {
                    if p < mid_order.len() {
                        assert(order@.subrange(0, mid_order.len() as int)[p] == order@[p]);
                    } else {
                        assert((order@[p] as int) < old(marked)@.len());
                        assert(!mid_marked[order@[p] as int]);
                        assert(old(marked)@[order@[p] as int] ==> mid_marked[order@[p] as int]);
                    }
                };
                assert(order@.subrange(0, old(order)@.len() as int) =~= old(order)@) by {
                    assert(order@.subrange(0, mid_order.len() as int) == mid_order);
                    assert forall|p: int| 0 <= p < old(order)@.len() implies order@[p] == old(order)@[p] by {
                        assert(order@.subrange(0, mid_order.len() as int)[p] == order@[p]);
                        assert(mid_order.subrange(0, old(order)@.len() as int)[p] == mid_order[p]);
                    };
                };
                lemma_unmarked_shrinks(mid_marked, marked@, 0);
                assert(!order@.contains(u)) by {
                    if order@.contains(u) {
                        let p = choose|p: int| 0 <= p < order@.len() && order@[p] == u;
                        if p < mid_order.len() {
                            assert(order@.subrange(0, mid_order.len() as int)[p] == order@[p]);
                        } else {
                            assert(!mid_marked[order@[p] as int]);
                        }
                    }
                };
                assert forall|j: int| 0 <= j < k + 1 implies marked@[#[trigger] g.deps(u as int)[j] as int] by {
                    if j < k {
                        assert(mid_marked[g.deps(u as int)[j] as int]);
                    }
                };
            }
        }
        k = k + 1;
    }
    let ghost before = order@;
    proof {
        assert(walk_deps(*g, (fuel - 1) as nat, u, k as int, marked@, order@) == (marked@, order@));
    }
    order.push(u);
    proof {
        assert(order@.subrange(0, old(order)@.len() as int) =~= old(order)@) by {
            assert forall|p: int| 0 <= p < old(order)@.len() implies order@[p] == old(order)@[p] by {
                assert(before.subrange(0, old(order)@.len() as int)[p] == before[p]);
            };
        };
        assert forall|x: int| 0 <= x < marked@.len() && #[trigger] marked@[x]
            implies order@.contains(x as usize) || path.contains(x as usize) by {
            assert(before.contains(x as usize) || inner.contains(x as usize));
            if before.contains(x as usize) {
                let p = choose|p: int| 0 <= p < before.len() && before[p] == x as usize;
                assert(order@[p] == x as usize);
            } else if x == u as int {
                assert(order@[before.len() as int] == u);
            } else {
                assert(inner.contains(x as usize));
                assert(x < marked.len());
                assert((x as usize) as int == x);
                assert((x as usize) != u);
                assert(inner == path.push(u));
                let i = choose|i: int| 0 <= i < inner.len() && inner[i] == x as usize;
                assert(i < path.len());
                assert(path[i] == x as usize);
                assert(path.contains(x as usize));
            }
        };
        assert forall|p: int, j: int| 0 <= p < order@.len() && 0 <= j < g.deps(order@[p] as int).len()
            implies marked@[#[trigger] g.deps(#[trigger] order@[p] as int)[j] as int] by {
            if p < before.len() {
                assert(order@[p] == before[p]);
            }
        };
        assert forall|x: usize| #[trigger] path.contains(x) implies (x as int) < marked@.len() && marked@[x as int] by {
            let i = choose|i: int| 0 <= i < path.len() && path[i] == x;
            assert(inner[i] == x);
            assert(inner.contains(x));
        };
        assert forall|i: int| 0 <= i < path.len() - 1 implies #[trigger] g.deps(path[i] as int).contains(path[i + 1]) by {
            assert(inner[i] == path[i] && inner[i + 1] == path[i + 1]);
        };
        assert(inner[0] == ENTRY);
        assert(is_walk(*g, inner) && inner.last() == u);
        assert forall|p: int| 0 <= p < order@.len() implies reaches(*g, ENTRY, #[trigger] order@[p]) by {
            if p < before.len() {
                assert(order@[p] == before[p]);
            } else {
                assert(order@[p] == u);
            }
        };
        assert forall|p: int, j: int| 0 <= p < order@.len() && 0 <= j < g.deps(order@[p] as int).len()
            implies listed_before(order@, p, #[trigger] g.deps(#[trigger] order@[p] as int)[j])
                || reaches(*g, g.deps(order@[p] as int)[j], order@[p]) by {
            let d = g.deps(order@[p] as int)[j];
            if p < before.len() {
                assert(order@[p] == before[p]);
                if listed_before(before, p, d) {
                    let q = choose|q: int| 0 <= q < p && #[trigger] before[q] == d;
                    assert(order@[q] == d);
                }
            } else {
                assert(order@[p] == u);
                assert(g.record_ok(u as int));
                assert(marked@[d as int]);
                assert(before.contains(d) || inner.contains(d));
                if before.contains(d) {
                    let q = choose|q: int| 0 <= q < before.len() && before[q] == d;
                    assert(order@[q] == d);
                } else {
                    let i = choose|i: int| 0 <= i < inner.len() && inner[i] == d;
                    let w = inner.subrange(i, inner.len() as int);
                    assert forall|t: int| 0 <= t < w.len() - 1 implies #[trigger] g.deps(w[t] as int).contains(w[t + 1]) by {
                        assert(w[t] == inner[i + t] && w[t + 1] == inner[i + t + 1]);
                    };
                    assert(is_walk(*g, w));
                    assert(w[0] == d && w.last() == u);
                }
            }
        };
    }
}

/// A list closed under imports holds the end of every walk that starts in it.
proof fn lemma_walk_stays_listed(g: ModuleGraph, order: Seq<usize>, w: Seq<usize>)
    requires
        forall|p: int, k: int| 0 <= p < order.len() && 0 <= k < g.deps(order[p] as int).len()
            ==> order.contains(#[trigger] g.deps(#[trigger] order[p] as int)[k]),
        w.len() > 0,
        order.contains(w[0]),
        is_walk(g, w),
    ensures
        order.contains(w.last()),
    decreases w.len(),
{
    if w.len() > 1 {
        let v = w.drop_last();
        assert forall|i: int| 0 <= i < v.len() - 1 implies #[trigger] g.deps(v[i] as int).contains(v[i + 1]) by {
            assert(g.deps(w[i] as int).contains(w[i + 1]));
        };
        lemma_walk_stays_listed(g, order, v);
        let a = w[w.len() - 2];
        assert(v.last() == a);
        let i: int = w.len() - 2;
        assert(g.deps(w[i] as int).contains(w[i + 1]));
        assert(w[i + 1] == w.last());
        let k = choose|k: int| 0 <= k < g.deps(a as int).len() && g.deps(a as int)[k] == w.last();
        let p = choose|p: int| 0 <= p < order.len() && order[p] == a;
        assert(order.contains(g.deps(order[p] as int)[k]));
    }
}

/// The order in which modules are instantiated and evaluated: a post-order
/// depth-first walk from the entry along import edges, each module listed
/// once (the first visit wins, so cycles end), after the dependencies that
/// were not already on the walk's path.  Only modules reachable from the
/// entry are listed, and every import of a listed module is listed too.
pub fn instantiation_order(g: &ModuleGraph) -> (order: Vec<usize>)
    requires
        g.wf(),
    ensures
        order@.no_duplicates(),
        order@.len() > 0,
        order@.last() == ENTRY,
        forall|p: int| 0 <= p < order@.len() ==> (#[trigger] order@[p] as int) < g.records@.len(),
        forall|p: int, k: int| 0 <= p < order@.len() && 0 <= k < g.deps(order@[p] as int).len()
            ==> order@.contains(#[trigger] g.deps(#[trigger] order@[p] as int)[k]),
        deps_first(*g, order@),
        forall|p: int| 0 <= p < order@.len() ==> reaches(*g, ENTRY, #[trigger] order@[p]),
        forall|m: usize| reaches(*g, ENTRY, m) ==> #[trigger] order@.contains(m),
        order@ == post_order(*g),
{
    let n = g.records.len();
    let mut marked: Vec<bool> = Vec::new();
    let mut i: usize = 0;
    while i < n
        invariant
            i <= n,
            n == g.records@.len(),
            marked@.len() == i,
            forall|j: int| 0 <= j < i ==> !#[trigger] marked@[j],
        decreases n - i,
    {
        marked.push(false);
        i = i + 1;
    }
    let mut order: Vec<usize> = Vec::new();
    assert(order@.no_duplicates());
    proof {
        assert(marked@ =~= Seq::new(n as nat, |i: int| false));
        lemma_unmarked_bounded(marked@);
    }
    visit(g, ENTRY, &mut marked, &mut order, Ghost(Seq::empty()), Ghost(n as nat));
    proof {
        assert forall|p: int, k: int| 0 <= p < order@.len() && 0 <= k < g.deps(order@[p] as int).len()
            implies order@.contains(#[trigger] g.deps(#[trigger] order@[p] as int)[k]) by {
            let d = g.deps(order@[p] as int)[k];
            assert((d as int) < g.records@.len()) by {
                assert(g.record_ok(order@[p] as int));
            };
            assert(marked@[d as int]);
            assert(!Seq::<usize>::empty().contains(d));
        };
        assert forall|m: usize| reaches(*g, ENTRY, m) implies #[trigger] order@.contains(m) by {
            let w = choose|w: Seq<usize>| w.len() > 0 && w[0] == ENTRY && w.last() == m && #[trigger] is_walk(*g, w);
            assert(order@[order@.len() - 1] == ENTRY);
            lemma_walk_stays_listed(*g, order@, w);
        };
    }
    order
}

/// Whether `name` is among `exports`.
pub open spec fn exported(exports: Seq<String>, name: Seq<char>) -> bool {
    exists|e: int| 0 <= e < exports.len() && (#[trigger] exports[e])@ == name
}

/// Whether the `j`-th name of import `k` of module `m` is exported by the
/// module that import resolved to.
pub open spec fn binding_ok(g: ModuleGraph, m: int, k: int, j: int) -> bool {
    exported(g.records@[g.deps(m)[k] as int].exports@, g.records@[m].requests@[k].names@[j]@)
}

/// Whether every named import of module `m` finds its export.
pub open spec fn module_links(g: ModuleGraph, m: int) -> bool {
    forall|k: int, j: int| 0 <= k < g.records@[m].requests@.len() && 0 <= j < g.records@[m].requests@[k].names@.len()
        ==> #[trigger] binding_ok(g, m, k, j)
}

/// Whether `e` is the `LinkError` for module `m`: it names the module and
/// one of its imported names that the dependency does not export.
pub open spec fn link_failure(g: ModuleGraph, m: int, e: HostError) -> bool {
    exists|k: int, j: int| 0 <= k < g.records@[m].requests@.len()
        && 0 <= j < g.records@[m].requests@[k].names@.len()
        && !#[trigger] binding_ok(g, m, k, j)
        && (e matches HostError::LinkError { specifier, missing_export }
            && specifier@ == g.specs()[m]
            && missing_export@ == g.records@[m].requests@[k].names@[j]@)
}

fn find_export(exports: &Vec<String>, name: &String) -> (r: bool)
    ensures
        r == exported(exports@, name@),
{
    let mut e: usize = 0;
    while e < exports.len()
        invariant
            e <= exports@.len(),
            forall|i: int| 0 <= i < e ==> (#[trigger] exports@[i])@ != name@,
        decreases exports@.len() - e,
    {
        if exports[e] == *name {
            return true;
        }
        e = e + 1;
    }
    false
}

/// Binds the named imports of module `m` to its dependencies' exports,
/// failing with `LinkError` on the first name that is not exported.
fn link_module(g: &ModuleGraph, m: usize) -> (r: Result<(), HostError>)
    requires
        g.wf(),
        (m as int) < g.records@.len(),
    ensures
        r is Ok <==> module_links(*g, m as int),
        r is Err ==> link_failure(*g, m as int, r->Err_0),
{
    assert(g.record_ok(m as int));
    let rec = &g.records[m];
    let mut k: usize = 0;
    while k < rec.requests.len()
        invariant
            g.wf(),
            (m as int) < g.records@.len(),
            g.record_ok(m as int),
            *rec == g.records@[m as int],
            k <= rec.requests@.len(),
            forall|kk: int, j: int| 0 <= kk < k && 0 <= j < rec.requests@[kk].names@.len()
                ==> #[trigger] binding_ok(*g, m as int, kk, j),
        decreases rec.requests@.len() - k,
    {
        let target = &g.records[rec.targets[k]];
        let names = &rec.requests[k].names;
        let mut j: usize = 0;
        while j < names.len()
            invariant
                g.wf(),
                (m as int) < g.records@.len(),
                g.record_ok(m as int),
                *rec == g.records@[m as int],
                k < rec.requests@.len(),
                *target == g.records@[g.deps(m as int)[k as int] as int],
                *names == rec.requests@[k as int].names,
                j <= names@.len(),
                forall|kk: int, jj: int| 0 <= kk < k && 0 <= jj < rec.requests@[kk].names@.len()
                    ==> #[trigger] binding_ok(*g, m as int, kk, jj),
                forall|jj: int| 0 <= jj < j ==> #[trigger] binding_ok(*g, m as int, k as int, jj),
            decreases names@.len() - j,
        {
            if !find_export(&target.exports, &names[j]) {
                assert(!binding_ok(*g, m as int, k as int, j as int));
                assert(g.specs()[m as int] == rec.specifier@);
                return Err(HostError::LinkError {
                    specifier: rec.specifier.href.clone(),
                    missing_export: names[j].clone(),
                });
            }
            j = j + 1;
        }
        k = k + 1;
    }
    Ok(())
}

/// Links every module of `order` in turn, before anything is evaluated;
/// the first unresolved import fails the whole run with `LinkError`.
pub fn link(g: &ModuleGraph, order: &Vec<usize>) -> (r: Result<(), HostError>)
    requires
        g.wf(),
        forall|p: int| 0 <= p < order@.len() ==> (#[trigger] order@[p] as int) < g.records@.len(),
    ensures
        r is Ok <==> forall|p: int| 0 <= p < order@.len() ==> module_links(*g, #[trigger] order@[p] as int),
        r is Err ==> exists|p: int| 0 <= p < order@.len() && !module_links(*g, #[trigger] order@[p] as int)
            && link_failure(*g, order@[p] as int, r->Err_0),
{
    let mut p: usize = 0;
    while p < order.len()
        invariant
            g.wf(),
            forall|q: int| 0 <= q < order@.len() ==> (#[trigger] order@[q] as int) < g.records@.len(),
            p <= order@.len(),
            forall|q: int| 0 <= q < p ==> module_links(*g, #[trigger] order@[q] as int),
        decreases order@.len() - p,
    {
        let res = link_module(g, order[p]);
        if res.is_err() {
            return res;
        }
        p = p + 1;
    }
    Ok(())
}

} // verus!
