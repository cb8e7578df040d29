//! The shape of a graph: which node depends on which, whether the
//! dependencies run in a circle, and the layers in which the nodes can run.
//!
//! A graph of `n` nodes is given by the dependencies of each node: `deps[v]`
//! lists the nodes that `v` depends on.

use vstd::prelude::*;

verus! {

/// The dependencies of each node, as mathematical values.
pub open spec fn links(deps: Seq<Vec<usize>>) -> Seq<Seq<usize>> {
    Seq::new(deps.len(), |v: int| deps[v]@)
}

/// Whether every dependency is a node of the graph.
pub open spec fn valid_graph(deps: Seq<Seq<usize>>) -> bool {
    forall|v: int, j: int|
        0 <= v < deps.len() && 0 <= j < deps[v].len() ==> (#[trigger] deps[v][j]) < deps.len()
}

/// Whether `v` depends on `u`.
pub open spec fn depends_on(deps: Seq<Seq<usize>>, v: int, u: int) -> bool {
    0 <= v < deps.len() && exists|j: int| 0 <= j < deps[v].len() && #[trigger] deps[v][j] == u
}

/// Whether each node of `path` depends on the next, and the last on the
/// first.
pub open spec fn is_cycle(deps: Seq<Seq<usize>>, path: Seq<usize>) -> bool {
    &&& path.len() > 0
    &&& forall|i: int|
        0 <= i < path.len() ==> depends_on(
            deps,
            #[trigger] path[i] as int,
            path[if i + 1 < path.len() {
                i + 1
            } else {
                0
            }] as int,
        )
}

/// Whether no dependencies run in a circle.
pub open spec fn acyclic(deps: Seq<Seq<usize>>) -> bool {
    forall|path: Seq<usize>| !is_cycle(deps, path)
}

/// Whether `rank` gives every node a layer such that each node comes after
/// all that it depends on, and directly after one of them unless it depends
/// on none.
pub open spec fn ranked(deps: Seq<Seq<usize>>, rank: Seq<usize>) -> bool {
    &&& rank.len() == deps.len()
    &&& forall|v: int, j: int|
        0 <= v < deps.len() && 0 <= j < deps[v].len() ==> (#[trigger] deps[v][j]) < deps.len()
            && rank[deps[v][j] as int] < rank[v]
    &&& forall|v: int|
        0 <= v < deps.len() && #[trigger] rank[v] > 0 ==> exists|j: int|
            0 <= j < deps[v].len() && rank[#[trigger] deps[v][j] as int] + 1 == rank[v]
}

/// Whether `layers` lists the nodes by their rank: layer `k` holds the nodes
/// of rank `k`, in rising order, and no layer is empty.
pub open spec fn layered(layers: Seq<Vec<usize>>, rank: Seq<usize>) -> bool {
    &&& forall|k: int, j: int|
        0 <= k < layers.len() && 0 <= j < layers[k]@.len() ==> (#[trigger] layers[k]@[j])
            < rank.len() && rank[layers[k]@[j] as int] == k
    &&& forall|v: int|
        0 <= v < rank.len() ==> (#[trigger] rank[v]) < layers.len() && exists|j: int|
            0 <= j < layers[rank[v] as int]@.len() && #[trigger] layers[rank[v] as int]@[j] == v
    &&& forall|k: int, i: int, j: int|
        0 <= k < layers.len() && 0 <= i < j < layers[k]@.len() ==> (#[trigger] layers[k]@[i])
            < (#[trigger] layers[k]@[j])
    &&& forall|k: int| 0 <= k < layers.len() ==> (#[trigger] layers[k]@).len() > 0
}

/// Whether the placed node `v` comes after all that it depends on.
pub open spec fn after_deps(deps: Seq<Seq<usize>>, rank: Seq<Option<usize>>, v: int) -> bool {
    forall|j: int|
        0 <= j < deps[v].len() ==> {
            let u = #[trigger] deps[v][j];
            u < deps.len() && rank[u as int] is Some && rank[u as int]->Some_0 < rank[v]->Some_0
        }
}

/// Whether the placed node `v` comes directly after one that it depends on,
/// unless it stands in the first layer.
pub open spec fn tight(deps: Seq<Seq<usize>>, rank: Seq<Option<usize>>, v: int) -> bool {
    rank[v]->Some_0 > 0 ==> exists|j: int|
        0 <= j < deps[v].len() && rank[#[trigger] deps[v][j] as int] == Some(
            (rank[v]->Some_0 - 1) as usize,
        )
}

/// Whether the placed node `v` stands in the layer of its rank, at its slot.
pub open spec fn listed(
    layers: Seq<Vec<usize>>,
    rank: Seq<Option<usize>>,
    slot: Seq<usize>,
    v: int,
) -> bool {
    &&& rank[v]->Some_0 < layers.len()
    &&& slot[v] < layers[rank[v]->Some_0 as int]@.len()
    &&& layers[rank[v]->Some_0 as int]@[slot[v] as int] == v
}

/// Whether layer `k` holds nodes of rank `k` only, in rising order, and at
/// least one.
pub open spec fn layer_ok(layers: Seq<Vec<usize>>, rank: Seq<Option<usize>>, k: int) -> bool {
    &&& layers[k]@.len() > 0
    &&& forall|j: int|
        0 <= j < layers[k]@.len() ==> (#[trigger] layers[k]@[j]) < rank.len()
            && rank[layers[k]@[j] as int] == Some(k as usize)
    &&& forall|i: int, j: int|
        0 <= i < j < layers[k]@.len() ==> (#[trigger] layers[k]@[i]) < (#[trigger] layers[k]@[j])
}

/// Whether `rank` places some of the nodes well and `layers` lists the
/// placed nodes by their rank.
pub open spec fn peeled(
    deps: Seq<Seq<usize>>,
    layers: Seq<Vec<usize>>,
    rank: Seq<Option<usize>>,
    slot: Seq<usize>,
) -> bool {
    &&& rank.len() == deps.len()
    &&& slot.len() == deps.len()
    &&& forall|k: int| 0 <= k < layers.len() ==> #[trigger] layer_ok(layers, rank, k)
    &&& forall|v: int|
        0 <= v < deps.len() && (#[trigger] rank[v]) is Some ==> listed(layers, rank, slot, v)
            && after_deps(deps, rank, v) && tight(deps, rank, v)
}

/// Whether every dependency of `v` is placed.
pub open spec fn ready(deps: Seq<Seq<usize>>, rank: Seq<Option<usize>>, v: int) -> bool {
    forall|j: int| 0 <= j < deps[v].len() ==> rank[#[trigger] deps[v][j] as int] is Some
}

/// Whether `v` has a dependency that is not placed.
pub open spec fn waiting(deps: Seq<Seq<usize>>, rank: Seq<Option<usize>>, v: int) -> bool {
    exists|j: int| 0 <= j < deps[v].len() && rank[#[trigger] deps[v][j] as int] is None
}

/// Whether `v` has a dependency that is not placed or has the rank `k - 1`.
pub open spec fn held_back(deps: Seq<Seq<usize>>, rank: Seq<Option<usize>>, v: int, k: int) -> bool {
    exists|j: int|
        0 <= j < deps[v].len() && (rank[#[trigger] deps[v][j] as int] is None || rank[deps[v][j] as int]
            == Some((k - 1) as usize))
}

/// Whether every node that is not placed has a dependency that is not placed:
/// no further node can be placed.
pub open spec fn stuck(deps: Seq<Seq<usize>>, rank: Seq<Option<usize>>) -> bool {
    forall|v: int| 0 <= v < deps.len() && (#[trigger] rank[v]) is None ==> waiting(deps, rank, v)
}

/// The number of nodes among the first `n` that are not placed.
pub open spec fn unplaced(rank: Seq<Option<usize>>, n: int) -> int
    decreases n,
{
    if n <= 0 {
        0
    } else {
        unplaced(rank, n - 1) + if n <= rank.len() && rank[n - 1] is None {
            1int
        } else {
            0int
        }
    }
}

/// Placing a node that was not placed lowers the number of unplaced nodes by
/// one.
proof fn lemma_place(rank: Seq<Option<usize>>, v: int, k: usize, n: int)
    requires
        0 <= v < rank.len(),
        rank[v] is None,
        0 <= n <= rank.len(),
    ensures
        unplaced(rank.update(v, Some(k)), n) == unplaced(rank, n) - if v < n {
            1int
        } else {
            0int
        },
        unplaced(rank, n) >= if v < n {
            1int
        } else {
            0int
        },
    decreases n,
{
    if n > 0 {
        lemma_place(rank, v, k, n - 1);
    }
}

/// The number of unplaced nodes among the first `n` lies between 0 and `n`.
proof fn lemma_unplaced_bounds(rank: Seq<Option<usize>>, n: int)
    requires
        0 <= n,
    ensures
        0 <= unplaced(rank, n) <= n,
    decreases n,
{
    if n > 0 {
        lemma_unplaced_bounds(rank, n - 1);
    }
}

/// The number of unplaced nodes among the first `n` depends on those alone.
proof fn lemma_unplaced_same(a: Seq<Option<usize>>, b: Seq<Option<usize>>, n: int)
    requires
        n <= a.len(),
        n <= b.len(),
        forall|i: int| 0 <= i < n ==> a[i] == b[i],
    ensures
        unplaced(a, n) == unplaced(b, n),
    decreases n,
{
    if n > 0 {
        lemma_unplaced_same(a, b, n - 1);
    }
}

/// Whether `after` places what `before` places, in the same layers, and
/// besides only nodes in layer `k`.
pub open spec fn grown(before: Seq<Option<usize>>, after: Seq<Option<usize>>, k: usize) -> bool {
    &&& after.len() == before.len()
    &&& forall|w: int|
        0 <= w < before.len() ==> (#[trigger] after[w]) == before[w] || (before[w] is None
            && after[w] == Some(k))
}

/// A node that was placed well stays placed well when further nodes are
/// placed.
proof fn lemma_keeps_place(
    deps: Seq<Seq<usize>>,
    before: Seq<Option<usize>>,
    after: Seq<Option<usize>>,
    k: usize,
    v: int,
)
    requires
        before.len() == deps.len(),
        grown(before, after, k),
        0 <= v < deps.len(),
        before[v] is Some,
        after_deps(deps, before, v),
        tight(deps, before, v),
    ensures
        after_deps(deps, after, v),
        tight(deps, after, v),
{
    assert(after[v] == before[v]);
    assert forall|j: int| 0 <= j < deps[v].len() implies {
        let u = #[trigger] deps[v][j];
        u < deps.len() && after[u as int] is Some && after[u as int]->Some_0 < after[v]->Some_0
    } by {
        let u = deps[v][j];
        assert(before[u as int] is Some);
        assert(after[u as int] == before[u as int]);
    }
    if before[v]->Some_0 > 0 {
        let j = choose|j: int|
            0 <= j < deps[v].len() && before[#[trigger] deps[v][j] as int] == Some(
                (before[v]->Some_0 - 1) as usize,
            );
        let u = deps[v][j];
        assert(after[u as int] == before[u as int]);
    }
}

/// A node that was ready, and held back until the last round, is placed well
/// in layer `k`.
proof fn lemma_new_place(
    deps: Seq<Seq<usize>>,
    before: Seq<Option<usize>>,
    after: Seq<Option<usize>>,
    k: usize,
    v: int,
)
    requires
        valid_graph(deps),
        before.len() == deps.len(),
        grown(before, after, k),
        0 <= v < deps.len(),
        before[v] is None,
        after[v] == Some(k),
        ready(deps, before, v),
        k > 0 ==> held_back(deps, before, v, k as int),
        forall|w: int| 0 <= w < deps.len() && (#[trigger] before[w]) is Some ==> before[w]->Some_0 < k,
    ensures
        after_deps(deps, after, v),
        tight(deps, after, v),
{
    assert forall|j: int| 0 <= j < deps[v].len() implies {
        let u = #[trigger] deps[v][j];
        u < deps.len() && after[u as int] is Some && after[u as int]->Some_0 < after[v]->Some_0
    } by {
        let u = deps[v][j];
        assert(before[u as int] is Some);
        assert(after[u as int] == before[u as int]);
    }
    if k > 0 {
        let j = choose|j: int|
            0 <= j < deps[v].len() && (before[#[trigger] deps[v][j] as int] is None || before[deps[v][j] as int]
                == Some((k - 1) as usize));
        let u = deps[v][j];
        assert(before[u as int] is Some);
        assert(after[u as int] == before[u as int]);
    }
}

/// A node that was waiting is held back until this round.
proof fn lemma_still_waiting(
    deps: Seq<Seq<usize>>,
    before: Seq<Option<usize>>,
    after: Seq<Option<usize>>,
    k: usize,
    v: int,
)
    requires
        valid_graph(deps),
        before.len() == deps.len(),
        grown(before, after, k),
        0 <= v < deps.len(),
        !ready(deps, before, v),
        k < usize::MAX,
    ensures
        held_back(deps, after, v, k + 1),
{
    let j = choose|j: int|
        0 <= j < deps[v].len() && !(before[#[trigger] deps[v][j] as int] is Some);
    let u = deps[v][j];
    assert(after[u as int] == before[u as int] || after[u as int] == Some(k));
}

/// Whether every dependency of `v` is placed.
fn all_placed(deps: &Vec<Vec<usize>>, rank: &Vec<Option<usize>>, v: usize) -> (res: bool)
    requires
        valid_graph(links(deps@)),
        rank@.len() == links(deps@).len(),
        v < links(deps@).len(),
    ensures
        res == ready(links(deps@), rank@, v as int),
{
    let mut j: usize = 0;
    while j < deps[v].len()
        invariant
            j <= links(deps@)[v as int].len(),
            valid_graph(links(deps@)),
            rank@.len() == links(deps@).len(),
            v < links(deps@).len(),
            forall|i: int| 0 <= i < j ==> rank@[#[trigger] links(deps@)[v as int][i] as int] is Some,
        decreases links(deps@)[v as int].len() - j,
    {
        let u = deps[v][j];
        assert(u == links(deps@)[v as int][j as int]);
        if rank[u].is_none() {
            return false;
        }
        j = j + 1;
    }
    true
}

/// The placing of the nodes in layers.
pub struct Peeling {
    /// The nodes of each layer, in rising order.
    pub layers: Vec<Vec<usize>>,
    /// The layer of each node that is placed.
    pub rank: Vec<Option<usize>>,
    /// The place of each placed node in its layer.
    pub slot: Vec<usize>,
}

/// Places the nodes in layers, as far as it goes: first the nodes that
/// depend on none, then, layer by layer, the nodes all of whose dependencies
/// are placed. The nodes of a layer stand in rising order.
pub fn compute_layers(deps: &Vec<Vec<usize>>) -> (res: Peeling)
    requires
        valid_graph(links(deps@)),
    ensures
        peeled(links(deps@), res.layers@, res.rank@, res.slot@),
        stuck(links(deps@), res.rank@),
{
    let n = deps.len();
    let mut rank: Vec<Option<usize>> = Vec::new();
    let mut slot: Vec<usize> = Vec::new();
    let mut v: usize = 0;
    while v < n
        invariant
            v <= n,
            rank@.len() == v,
            slot@.len() == v,
            forall|w: int| 0 <= w < v ==> rank@[w] is None,
            unplaced(rank@, v as int) == v,
        decreases n - v,
    {
        let ghost before = rank@;
        rank.push(None);
        slot.push(0);
        v = v + 1;
        proof {
            lemma_unplaced_same(before, rank@, (v - 1) as int);
        }
    }
    let mut layers: Vec<Vec<usize>> = Vec::new();
    let mut left: usize = n;
    loop
        invariant
            n == links(deps@).len(),
            valid_graph(links(deps@)),
            peeled(links(deps@), layers@, rank@, slot@),
            left == unplaced(rank@, n as int),
            layers@.len() <= n - left,
            layers@.len() > 0 ==> forall|w: int|
                0 <= w < n && (#[trigger] rank@[w]) is None ==> held_back(
                    links(deps@),
                    rank@,
                    w,
                    layers@.len() as int,
                ),
            forall|w: int|
                0 <= w < n && (#[trigger] rank@[w]) is Some ==> rank@[w]->Some_0 < layers@.len(),
        ensures
            peeled(links(deps@), layers@, rank@, slot@),
            stuck(links(deps@), rank@),
        decreases left,
    {
        let k = layers.len();
        let ghost scanned = rank@;
        let ghost old_slot = slot@;
        let mut fresh: Vec<bool> = Vec::new();
        let mut v: usize = 0;
        while v < n
            invariant
                v <= n,
                n == links(deps@).len(),
                valid_graph(links(deps@)),
                rank@.len() == n,
                fresh@.len() == v,
                forall|w: int|
                    0 <= w < v ==> (#[trigger] fresh@[w]) == (rank@[w] is None && ready(
                        links(deps@),
                        rank@,
                        w,
                    )),
            decreases n - v,
        {
            let is_fresh = rank[v].is_none() && all_placed(deps, &rank, v);
            fresh.push(is_fresh);
            v = v + 1;
        }
        let mut current: Vec<usize> = Vec::new();
        let mut v: usize = 0;
        while v < n
            invariant
                v <= n,
                n == links(deps@).len(),
                rank@.len() == n,
                slot@.len() == n,
                scanned.len() == n,
                old_slot.len() == n,
                fresh@.len() == n,
                left == unplaced(rank@, n as int),
                left + current@.len() == unplaced(scanned, n as int),
                forall|w: int| 0 <= w < n && #[trigger] fresh@[w] ==> scanned[w] is None,
                forall|w: int|
                    0 <= w < v ==> (#[trigger] rank@[w]) == (if fresh@[w] {
                        Some(k)
                    } else {
                        scanned[w]
                    }),
                forall|w: int| v <= w < n ==> (#[trigger] rank@[w]) == scanned[w],
                forall|w: int|
                    0 <= w < n && !(w < v && fresh@[w]) ==> (#[trigger] slot@[w]) == old_slot[w],
                forall|w: int|
                    0 <= w < v && #[trigger] fresh@[w] ==> slot@[w] < current@.len()
                        && current@[slot@[w] as int] == w,
                forall|i: int|
                    0 <= i < current@.len() ==> (#[trigger] current@[i]) < v
                        && fresh@[current@[i] as int],
                forall|i: int, j: int|
                    0 <= i < j < current@.len() ==> (#[trigger] current@[i]) < (
                    #[trigger] current@[j]),
            decreases n - v,
        {
            if fresh[v] {
                proof {
                    lemma_place(rank@, v as int, k, n as int);
                }
                rank.set(v, Some(k));
                slot.set(v, current.len());
                current.push(v);
                left = left - 1;
            }
            v = v + 1;
        }
        if current.len() == 0 {
            proof {
                assert(rank@ =~= scanned);
                assert(slot@ =~= old_slot);
            }
            break ;
        }
        proof {
            assert(grown(scanned, rank@, k));
            assert forall|w: int| 0 <= w < n && (#[trigger] rank@[w]) is None implies held_back(
                links(deps@),
                rank@,
                w,
                k + 1,
            ) by {
                assert(!fresh@[w]);
                lemma_still_waiting(links(deps@), scanned, rank@, k, w);
            }
            assert forall|w: int| 0 <= w < n && (#[trigger] rank@[w]) is Some implies after_deps(
                links(deps@),
                rank@,
                w,
            ) && tight(links(deps@), rank@, w) by {
                if scanned[w] is Some {
                    lemma_keeps_place(links(deps@), scanned, rank@, k, w);
                } else {
                    assert(fresh@[w]);
                    lemma_new_place(links(deps@), scanned, rank@, k, w);
                }
            }
        }
        let ghost earlier = layers@;
        layers.push(current);
        proof {
            assert forall|kk: int| 0 <= kk < layers@.len() implies #[trigger] layer_ok(
                layers@,
                rank@,
                kk,
            ) by {
                if kk < k {
                    assert(layer_ok(earlier, scanned, kk));
                    assert(layers@[kk] == earlier[kk]);
                    assert forall|j: int| 0 <= j < layers@[kk]@.len() implies (
                    #[trigger] layers@[kk]@[j]) < rank@.len() && rank@[layers@[kk]@[j] as int]
                        == Some(kk as usize) by {
                        let w = earlier[kk]@[j];
                        assert(scanned[w as int] == Some(kk as usize));
                    }
                }
            }
            assert forall|w: int| 0 <= w < n && (#[trigger] rank@[w]) is Some implies listed(
                layers@,
                rank@,
                slot@,
                w,
            ) by {
                if scanned[w] is Some {
                    assert(listed(earlier, scanned, old_slot, w));
                    assert(!fresh@[w]);
                    assert(layers@[scanned[w]->Some_0 as int] == earlier[scanned[w]->Some_0 as int]);
                } else {
                    assert(fresh@[w]);
                }
            }
        }
    }
    Peeling { layers, rank, slot }
}

/// A dependency of `v` that is not placed.
fn unplaced_dep(deps: &Vec<Vec<usize>>, rank: &Vec<Option<usize>>, v: usize) -> (u: usize)
    requires
        valid_graph(links(deps@)),
        rank@.len() == links(deps@).len(),
        v < links(deps@).len(),
        waiting(links(deps@), rank@, v as int),
    ensures
        u < links(deps@).len(),
        rank@[u as int] is None,
        depends_on(links(deps@), v as int, u as int),
{
    let mut j: usize = 0;
    while j < deps[v].len()
        invariant
            j <= links(deps@)[v as int].len(),
            valid_graph(links(deps@)),
            rank@.len() == links(deps@).len(),
            v < links(deps@).len(),
            forall|i: int| 0 <= i < j ==> rank@[#[trigger] links(deps@)[v as int][i] as int] is Some,
        decreases links(deps@)[v as int].len() - j,
    {
        let u = deps[v][j];
        assert(u == links(deps@)[v as int][j as int]);
        if rank[u].is_none() {
            return u;
        }
        j = j + 1;
    }
    proof {
        let j = choose|j: int|
            0 <= j < links(deps@)[v as int].len() && rank@[#[trigger] links(deps@)[v as int][j] as int] is None;
        assert(rank@[links(deps@)[v as int][j] as int] is Some);
    }
    v
}

/// A circle among the nodes that cannot be placed. From `start`, the walk
/// goes from each node to a dependency of it that is not placed, until it
/// comes to a node where it has been: from there on it has gone in a circle.
pub fn walk_cycle(deps: &Vec<Vec<usize>>, rank: &Vec<Option<usize>>, start: usize) -> (path: Vec<usize>)
    requires
        valid_graph(links(deps@)),
        rank@.len() == links(deps@).len(),
        stuck(links(deps@), rank@),
        start < links(deps@).len(),
        rank@[start as int] is None,
    ensures
        is_cycle(links(deps@), path@),
{
    let n = deps.len();
    let mut seen: Vec<Option<usize>> = Vec::new();
    let mut v: usize = 0;
    while v < n
        invariant
            v <= n,
            seen@.len() == v,
            forall|w: int| 0 <= w < v ==> seen@[w] is None,
            unplaced(seen@, v as int) == v,
        decreases n - v,
    {
        let ghost before = seen@;
        seen.push(None);
        v = v + 1;
        proof {
            lemma_unplaced_same(before, seen@, (v - 1) as int);
        }
    }
    let mut walk: Vec<usize> = Vec::new();
    let mut cur: usize = start;
    let mut unseen: usize = n;
    loop
        invariant
            n == links(deps@).len(),
            valid_graph(links(deps@)),
            rank@.len() == n,
            stuck(links(deps@), rank@),
            seen@.len() == n,
            cur < n,
            rank@[cur as int] is None,
            unseen == unplaced(seen@, n as int),
            forall|i: int|
                0 <= i < walk@.len() ==> (#[trigger] walk@[i]) < n && seen@[walk@[i] as int]
                    == Some(i as usize),
            forall|w: int|
                0 <= w < n && (#[trigger] seen@[w]) is Some ==> seen@[w]->Some_0 < walk@.len()
                    && walk@[seen@[w]->Some_0 as int] == w,
            forall|i: int|
                0 <= i < walk@.len() - 1 ==> depends_on(
                    links(deps@),
                    (#[trigger] walk@[i]) as int,
                    walk@[i + 1] as int,
                ),
            walk@.len() > 0 ==> depends_on(links(deps@), walk@[walk@.len() - 1] as int, cur as int),
        decreases unseen,
    {
        match seen[cur] {
            Some(first) => {
                let mut path: Vec<usize> = Vec::new();
                let mut i: usize = first;
                while i < walk.len()
                    invariant
                        first <= i <= walk@.len(),
                        path@.len() == i - first,
                        forall|a: int| 0 <= a < path@.len() ==> path@[a] == walk@[first + a],
                    decreases walk@.len() - i,
                {
                    path.push(walk[i]);
                    i = i + 1;
                }
                proof {
                    assert(walk@[first as int] == cur);
                    assert forall|a: int| 0 <= a < path@.len() implies depends_on(
                        links(deps@),
                        #[trigger] path@[a] as int,
                        path@[if a + 1 < path@.len() {
                            a + 1
                        } else {
                            0
                        }] as int,
                    ) by {
                        assert(path@[a] == walk@[first + a]);
                        if a + 1 < path@.len() {
                            assert(path@[a + 1] == walk@[first + a + 1]);
                        } else {
                            assert(path@[0] == walk@[first + 0]);
                        }
                    }
                }
                return path;
            },
            None => {
                proof {
                    lemma_place(seen@, cur as int, walk@.len() as usize, n as int);
                }
                seen.set(cur, Some(walk.len()));
                walk.push(cur);
                unseen = unseen - 1;
                cur = unplaced_dep(deps, rank, cur);
            },
        }
    }
}

/// Whether `path` is the way on which a search stands: it holds the nodes that
/// are entered and not left, each at its place, and each depends on the
/// next.
pub open spec fn on_way(
    deps: Seq<Seq<usize>>,
    place: Seq<Option<usize>>,
    left: Seq<Option<usize>>,
    path: Seq<usize>,
) -> bool {
    &&& place.len() == deps.len()
    &&& left.len() == deps.len()
    &&& forall|w: int| 0 <= w < deps.len() && (#[trigger] place[w]) is None ==> left[w] is None
    &&& forall|i: int|
        0 <= i < path.len() ==> (#[trigger] path[i]) < deps.len() && place[path[i] as int] == Some(
            i as usize,
        ) && left[path[i] as int] is None
    &&& forall|w: int|
        0 <= w < deps.len() && (#[trigger] place[w]) is Some && left[w] is None ==> place[w]->Some_0
            < path.len() && path[place[w]->Some_0 as int] == w
    &&& forall|i: int|
        0 <= i < path.len() - 1 ==> depends_on(deps, (#[trigger] path[i]) as int, path[i + 1] as int)
}

/// Whether every node that is left was left after all that it depends on,
/// and before the time `now`.
pub open spec fn left_in_order(deps: Seq<Seq<usize>>, left: Seq<Option<usize>>, now: int) -> bool {
    &&& forall|w: int| 0 <= w < deps.len() && (#[trigger] left[w]) is Some ==> left[w]->Some_0 < now
    &&& forall|w: int, j: int|
        0 <= w < deps.len() && left[w] is Some && 0 <= j < deps[w].len() ==> {
            let u = #[trigger] deps[w][j];
            left[u as int] is Some && left[u as int]->Some_0 < left[w]->Some_0
        }
}

/// Whether `after` holds what `before` holds, and more.
pub open spec fn kept(before: Seq<Option<usize>>, after: Seq<Option<usize>>) -> bool {
    &&& after.len() == before.len()
    &&& forall|w: int| 0 <= w < before.len() && (#[trigger] before[w]) is Some ==> after[w] == before[w]
}

/// The part of the way from position `first` on.
fn way_from(path: &Vec<usize>, first: usize) -> (res: Vec<usize>)
    requires
        first <= path@.len(),
    ensures
        res@.len() == path@.len() - first,
        forall|a: int| 0 <= a < res@.len() ==> res@[a] == path@[first + a],
{
    let mut res: Vec<usize> = Vec::new();
    let mut i: usize = first;
    while i < path.len()
        invariant
            first <= i <= path@.len(),
            res@.len() == i - first,
            forall|a: int| 0 <= a < res@.len() ==> res@[a] == path@[first + a],
        decreases path@.len() - i,
    {
        res.push(path[i]);
        i = i + 1;
    }
    res
}

/// The marks of a search: for each node its place on the way, once it is
/// entered, and the time at which it was left, once it is left; and the
/// nodes that are left, in the order in which they were left.
struct Marks {
    place: Vec<Option<usize>>,
    left: Vec<Option<usize>>,
    order: Vec<usize>,
}

/// Searches from the node `v`, which was not entered before, depth first. A
/// node is entered, then the nodes that it depends on are searched, then it
/// is left. A dependency on a node that is entered and not left closes a
/// circle: the way from that node on.
fn visit(deps: &Vec<Vec<usize>>, v: usize, marks: &mut Marks, path: &mut Vec<usize>) -> (res: Option<
    Vec<usize>,
>)
    requires
        valid_graph(links(deps@)),
        v < deps@.len(),
        old(marks).place@.len() == deps@.len(),
        old(marks).place@[v as int] is None,
        on_way(links(deps@), old(marks).place@, old(marks).left@, old(path)@),
        left_in_order(links(deps@), old(marks).left@, old(marks).order@.len() as int),
        old(path)@.len() > 0 ==> depends_on(
            links(deps@),
            old(path)@[old(path)@.len() - 1] as int,
            v as int,
        ),
    ensures
        res matches Some(cycle) ==> is_cycle(links(deps@), cycle@),
        res is None ==> {
            &&& final(path)@ == old(path)@
            &&& on_way(links(deps@), final(marks).place@, final(marks).left@, final(path)@)
            &&& left_in_order(links(deps@), final(marks).left@, final(marks).order@.len() as int)
            &&& kept(old(marks).place@, final(marks).place@)
            &&& kept(old(marks).left@, final(marks).left@)
            &&& final(marks).left@[v as int] is Some
            &&& unplaced(final(marks).place@, deps@.len() as int) < unplaced(
                old(marks).place@,
                deps@.len() as int,
            )
        },
    decreases unplaced(old(marks).place@, deps@.len() as int),
{
    let n = deps.len();
    let ghost graph = links(deps@);
    let ghost way = path@;
    let at = path.len();
    proof {
        lemma_place(marks.place@, v as int, at, n as int);
    }
    marks.place.set(v, Some(at));
    path.push(v);
    assert(on_way(graph, marks.place@, marks.left@, path@)) by {
        assert forall|i: int| 0 <= i < path@.len() implies (#[trigger] path@[i]) < graph.len()
            && marks.place@[path@[i] as int] == Some(i as usize) && marks.left@[path@[i] as int] is None by {
            if i < way.len() {
                assert(path@[i] == way[i]);
                assert(old(marks).place@[way[i] as int] == Some(i as usize));
            }
        }
    }
    let mut j: usize = 0;
    while j < deps[v].len()
        invariant
            n == deps@.len(),
            graph == links(deps@),
            valid_graph(graph),
            v < n,
            j <= graph[v as int].len(),
            path@ == way.push(v),
            on_way(graph, marks.place@, marks.left@, path@),
            left_in_order(graph, marks.left@, marks.order@.len() as int),
            kept(old(marks).place@.update(v as int, Some(at)), marks.place@),
            kept(old(marks).left@, marks.left@),
            forall|i: int| 0 <= i < j ==> marks.left@[(#[trigger] graph[v as int][i]) as int] is Some,
            unplaced(marks.place@, n as int) < unplaced(old(marks).place@, n as int),
        decreases graph[v as int].len() - j,
    {
        assert(graph[v as int] == deps@[v as int]@);
        let u = deps[v][j];
        assert(u == graph[v as int][j as int]);
        assert(depends_on(graph, v as int, u as int));
        match marks.place[u] {
            None => {
                proof {
                    lemma_unplaced_bounds(marks.place@, n as int);
                }
                let ghost before = marks.left@;
                match visit(deps, u, marks, path) {
                    Some(cycle) => {
                        return Some(cycle);
                    },
                    None => {
                        assert forall|i: int| 0 <= i < j implies marks.left@[(
                        #[trigger] graph[v as int][i]) as int] is Some by {
                            assert(before[graph[v as int][i] as int] is Some);
                        }
                    },
                }
            },
            Some(first) => {
                if marks.left[u].is_none() {
                    let cycle = way_from(path, first);
                    proof {
                        assert(path@[first as int] == u);
                        assert forall|a: int| 0 <= a < cycle@.len() implies depends_on(
                            graph,
                            #[trigger] cycle@[a] as int,
                            cycle@[if a + 1 < cycle@.len() {
                                a + 1
                            } else {
                                0
                            }] as int,
                        ) by {
                            assert(cycle@[a] == path@[first + a]);
                            if a + 1 < cycle@.len() {
                                assert(cycle@[a + 1] == path@[first + a + 1]);
                            } else {
                                assert(cycle@[0] == path@[first + 0]);
                                assert(path@[first + a] == v);
                            }
                        }
                    }
                    return Some(cycle);
                }
            },
        }
        j = j + 1;
    }
    let ghost before = marks.left@;
    let now = marks.order.len();
    marks.left.set(v, Some(now));
    marks.order.push(v);
    path.pop();
    proof {
        assert(path@ =~= way);
        assert(before[v as int] is None);
        assert forall|w: int|
            0 <= w < graph.len() && (#[trigger] marks.place@[w]) is Some && marks.left@[w] is None implies marks.place@[w]->Some_0
            < path@.len() && path@[marks.place@[w]->Some_0 as int] == w by {
            assert(w != v);
            assert(before[w] is None);
            assert(way.push(v)[marks.place@[w]->Some_0 as int] == w);
        }
        assert forall|i: int| 0 <= i < path@.len() implies (#[trigger] path@[i]) < graph.len()
            && marks.place@[path@[i] as int] == Some(i as usize) && marks.left@[path@[i] as int] is None by {
            assert(way.push(v)[i] == way[i]);
            assert(path@[i] != v);
        }
        assert forall|i: int| 0 <= i < path@.len() - 1 implies depends_on(
            graph,
            (#[trigger] path@[i]) as int,
            path@[i + 1] as int,
        ) by {
            assert(way.push(v)[i] == way[i]);
            assert(way.push(v)[i + 1] == way[i + 1]);
        }
        assert forall|w: int, i: int|
            0 <= w < graph.len() && marks.left@[w] is Some && 0 <= i < graph[w].len() implies {
            let u = #[trigger] graph[w][i];
            marks.left@[u as int] is Some && marks.left@[u as int]->Some_0 < marks.left@[w]->Some_0
        } by {
            let u = graph[w][i];
            if w == v {
                assert(before[u as int] is Some);
                assert(u != v);
            } else {
                assert(before[w] is Some);
                assert(before[u as int] is Some);
                assert(u != v);
            }
        }
        assert forall|w: int|
            0 <= w < old(marks).place@.len() && (#[trigger] old(marks).place@[w]) is Some implies marks.place@[w]
            == old(marks).place@[w] by {
            assert(w != v);
            assert(old(marks).place@.update(v as int, Some(at))[w] == old(marks).place@[w]);
        }
    }
    None
}

/// Searches the graph for a circle, depth first, with three marks for a
/// node: not entered, entered, left. It finds a circle exactly where the
/// graph has one.
pub fn search_cycle(deps: &Vec<Vec<usize>>) -> (res: Option<Vec<usize>>)
    requires
        valid_graph(links(deps@)),
    ensures
        match res {
            Some(cycle) => is_cycle(links(deps@), cycle@),
            None => acyclic(links(deps@)),
        },
{
    let n = deps.len();
    let mut place: Vec<Option<usize>> = Vec::new();
    let mut left: Vec<Option<usize>> = Vec::new();
    let mut v: usize = 0;
    while v < n
        invariant
            v <= n,
            place@.len() == v,
            left@.len() == v,
            forall|w: int| 0 <= w < v ==> (#[trigger] place@[w]) is None,
            forall|w: int| 0 <= w < v ==> (#[trigger] left@[w]) is None,
        decreases n - v,
    {
        place.push(None);
        left.push(None);
        v = v + 1;
    }
    let mut marks = Marks { place, left, order: Vec::new() };
    let mut path: Vec<usize> = Vec::new();
    let mut v: usize = 0;
    while v < n
        invariant
            v <= n,
            n == deps@.len(),
            valid_graph(links(deps@)),
            path@.len() == 0,
            on_way(links(deps@), marks.place@, marks.left@, path@),
            left_in_order(links(deps@), marks.left@, marks.order@.len() as int),
            forall|w: int| 0 <= w < v ==> (#[trigger] marks.place@[w]) is Some,
        decreases n - v,
    {
        if marks.place[v].is_none() {
            let ghost before = marks.place@;
            match visit(deps, v, &mut marks, &mut path) {
                Some(cycle) => {
                    return Some(cycle);
                },
                None => {
                    assert forall|w: int| 0 <= w < v implies (#[trigger] marks.place@[w]) is Some by {
                        assert(before[w] is Some);
                    }
                    assert(marks.place@[v as int] is Some) by {
                        if marks.place@[v as int] is None {
                        }
                    }
                },
            }
        }
        v = v + 1;
    }
    proof {
        let graph = links(deps@);
        let rank = Seq::new(n as nat, |w: int| marks.left@[w]->Some_0);
        assert forall|w: int| 0 <= w < n implies (#[trigger] marks.left@[w]) is Some by {
            assert(marks.place@[w] is Some);
        }
        assert forall|w: int, j: int| 0 <= w < graph.len() && 0 <= j < graph[w].len() implies (
        #[trigger] graph[w][j]) < graph.len() && rank[graph[w][j] as int] < rank[w] by {
            assert(marks.left@[w] is Some);
        }
        lemma_falling_acyclic(graph, rank);
    }
    None
}

/// The layers of a graph without circles.
pub struct Layering {
    /// The nodes of each layer, in rising order.
    pub layers: Vec<Vec<usize>>,
    /// The layer of each node.
    pub rank: Vec<usize>,
}

/// The first node that is not placed.
fn first_unplaced(rank: &Vec<Option<usize>>) -> (res: Option<usize>)
    ensures
        match res {
            Some(v) => v < rank@.len() && rank@[v as int] is None,
            None => forall|w: int| 0 <= w < rank@.len() ==> (#[trigger] rank@[w]) is Some,
        },
{
    let mut v: usize = 0;
    while v < rank.len()
        invariant
            v <= rank@.len(),
            forall|w: int| 0 <= w < v ==> (#[trigger] rank@[w]) is Some,
        decreases rank@.len() - v,
    {
        if rank[v].is_none() {
            return Some(v);
        }
        v = v + 1;
    }
    None
}

/// The layers of the graph, or a circle in it. There are layers exactly when
/// the graph has no circle. The graph is searched for a circle first, depth
/// first; then the nodes are placed in layers. Should a node not find its
/// place then, the nodes without a place hold a circle, and that is handed
/// back. Layer 0 holds the nodes that depend on none, each
/// further layer the nodes all of whose dependencies stand in earlier layers
/// and one of them in the layer before.
pub fn analyze(deps: &Vec<Vec<usize>>) -> (res: Result<Layering, Vec<usize>>)
    requires
        valid_graph(links(deps@)),
    ensures
        match res {
            Ok(found) => ranked(links(deps@), found.rank@) && layered(found.layers@, found.rank@),
            Err(path) => is_cycle(links(deps@), path@),
        },
        res is Ok <==> acyclic(links(deps@)),
{
    match search_cycle(deps) {
        Some(path) => {
            return Err(path);
        },
        None => {},
    }
    let peeling = compute_layers(deps);
    match first_unplaced(&peeling.rank) {
        Some(v) => {
            let path = walk_cycle(deps, &peeling.rank, v);
            Err(path)
        },
        None => {
            let n = deps.len();
            let mut rank: Vec<usize> = Vec::new();
            let mut v: usize = 0;
            while v < n
                invariant
                    v <= n,
                    n == peeling.rank@.len(),
                    rank@.len() == v,
                    forall|w: int| 0 <= w < n ==> (#[trigger] peeling.rank@[w]) is Some,
                    forall|w: int| 0 <= w < v ==> peeling.rank@[w] == Some(#[trigger] rank@[w]),
                decreases n - v,
            {
                match peeling.rank[v] {
                    Some(k) => {
                        rank.push(k);
                    },
                    None => {
                        assert(false);
                    },
                }
                v = v + 1;
            }
            let count = peeling.layers.len();
            proof {
                assert(peeling.layers@.len() == count);
                lemma_placed_ranked(links(deps@), peeling.layers@, peeling.rank@, peeling.slot@, rank@);
                lemma_ranked_acyclic(links(deps@), rank@);
            }
            Ok(Layering { layers: peeling.layers, rank })
        },
    }
}

/// Where every node is placed, the graph is ranked and layered.
proof fn lemma_placed_ranked(
    deps: Seq<Seq<usize>>,
    layers: Seq<Vec<usize>>,
    placed: Seq<Option<usize>>,
    slot: Seq<usize>,
    rank: Seq<usize>,
)
    requires
        peeled(deps, layers, placed, slot),
        layers.len() <= usize::MAX,
        rank.len() == deps.len(),
        forall|w: int| 0 <= w < deps.len() ==> (#[trigger] placed[w]) == Some(rank[w]),
    ensures
        ranked(deps, rank),
        layered(layers, rank),
{
    assert forall|v: int, j: int| 0 <= v < deps.len() && 0 <= j < deps[v].len() implies (
    #[trigger] deps[v][j]) < deps.len() && rank[deps[v][j] as int] < rank[v] by {
        assert(placed[v] is Some);
        assert(after_deps(deps, placed, v));
        let u = deps[v][j];
        assert(placed[u as int] == Some(rank[u as int]));
    }
    assert forall|v: int| 0 <= v < deps.len() && #[trigger] rank[v] > 0 implies exists|j: int|
        0 <= j < deps[v].len() && rank[#[trigger] deps[v][j] as int] + 1 == rank[v] by {
        assert(placed[v] is Some);
        assert(tight(deps, placed, v));
        let j = choose|j: int|
            0 <= j < deps[v].len() && placed[#[trigger] deps[v][j] as int] == Some(
                (placed[v]->Some_0 - 1) as usize,
            );
        assert(after_deps(deps, placed, v));
        let u = deps[v][j];
        assert(placed[u as int] == Some(rank[u as int]));
    }
    assert forall|k: int, j: int| 0 <= k < layers.len() && 0 <= j < layers[k]@.len() implies (
    #[trigger] layers[k]@[j]) < rank.len() && rank[layers[k]@[j] as int] == k by {
        assert(layer_ok(layers, placed, k));
        let w = layers[k]@[j];
        assert(placed[w as int] == Some(rank[w as int]));
    }
    assert forall|v: int| 0 <= v < rank.len() implies (#[trigger] rank[v]) < layers.len()
        && exists|j: int|
        0 <= j < layers[rank[v] as int]@.len() && #[trigger] layers[rank[v] as int]@[j] == v by {
        assert(placed[v] is Some);
        assert(listed(layers, placed, slot, v));
        assert(layers[rank[v] as int]@[slot[v] as int] == v);
    }
    assert forall|k: int, i: int, j: int|
        0 <= k < layers.len() && 0 <= i < j < layers[k]@.len() implies (#[trigger] layers[k]@[i])
        < (#[trigger] layers[k]@[j]) by {
        assert(layer_ok(layers, placed, k));
    }
    assert forall|k: int| 0 <= k < layers.len() implies (#[trigger] layers[k]@).len() > 0 by {
        assert(layer_ok(layers, placed, k));
    }
}

/// In a ranked and layered graph, a node stands in a strictly later layer
/// than every node that it depends on: where `v` depends on `u`, `u` stands
/// in layer `ku` and `v` in layer `kv`, `ku` is below `kv`.
pub proof fn lemma_edges_go_forward(
    deps: Seq<Seq<usize>>,
    layers: Seq<Vec<usize>>,
    rank: Seq<usize>,
    v: int,
    u: int,
    kv: int,
    iv: int,
    ku: int,
    iu: int,
)
    requires
        ranked(deps, rank),
        layered(layers, rank),
        depends_on(deps, v, u),
        0 <= kv < layers.len() && 0 <= iv < layers[kv]@.len() && layers[kv]@[iv] == v,
        0 <= ku < layers.len() && 0 <= iu < layers[ku]@.len() && layers[ku]@[iu] == u,
    ensures
        ku < kv,
{
    let j = choose|j: int| 0 <= j < deps[v].len() && #[trigger] deps[v][j] == u;
    assert(rank[deps[v][j] as int] < rank[v]);
    assert(rank[layers[kv]@[iv] as int] == kv);
    assert(rank[layers[ku]@[iu] as int] == ku);
}

/// The ranks of a graph are what they are: two ways of ranking the nodes of
/// a graph are the same way.
pub proof fn lemma_ranks_are_one(deps: Seq<Seq<usize>>, a: Seq<usize>, b: Seq<usize>)
    requires
        ranked(deps, a),
        ranked(deps, b),
    ensures
        a == b,
{
    assert forall|v: int| 0 <= v < deps.len() implies a[v] == b[v] by {
        lemma_rank_at_most(deps, a, b, v, a[v] as int);
        lemma_rank_at_most(deps, b, a, v, b[v] as int);
    }
    assert(a =~= b);
}

/// A node whose rank in one ranking is `k` has at least that rank in any
/// other.
proof fn lemma_rank_at_most(deps: Seq<Seq<usize>>, a: Seq<usize>, b: Seq<usize>, v: int, k: int)
    requires
        ranked(deps, a),
        ranked(deps, b),
        0 <= v < deps.len(),
        a[v] == k,
    ensures
        a[v] <= b[v],
    decreases k,
{
    if a[v] > 0 {
        let j = choose|j: int| 0 <= j < deps[v].len() && a[#[trigger] deps[v][j] as int] + 1 == a[v];
        let u = deps[v][j];
        lemma_rank_at_most(deps, a, b, u as int, k - 1);
        assert(b[deps[v][j] as int] < b[v]);
    }
}

/// The layers of a ranking are what they are: two ways of listing the nodes
/// by their rank are the same way.
pub proof fn lemma_layers_are_one(a: Seq<Vec<usize>>, b: Seq<Vec<usize>>, rank: Seq<usize>)
    requires
        layered(a, rank),
        layered(b, rank),
    ensures
        links(a) == links(b),
{
    lemma_layers_no_more(a, b, rank);
    lemma_layers_no_more(b, a, rank);
    assert forall|k: int| 0 <= k < a.len() implies (#[trigger] links(a)[k]) == links(b)[k] by {
        lemma_layer_same_up_to(a, b, rank, k, a[k]@.len() as int);
        lemma_layer_same_up_to(b, a, rank, k, b[k]@.len() as int);
        assert(a[k]@ =~= b[k]@);
    }
    assert(links(a) =~= links(b));
}

/// Of two ways of listing the nodes by their rank, the first has no more
/// layers than the second.
proof fn lemma_layers_no_more(a: Seq<Vec<usize>>, b: Seq<Vec<usize>>, rank: Seq<usize>)
    requires
        layered(a, rank),
        layered(b, rank),
    ensures
        a.len() <= b.len(),
{
    if a.len() > 0 {
        let k = a.len() - 1;
        assert(a[k]@.len() > 0);
        let v = a[k]@[0];
        assert(rank[v as int] == k);
        assert(rank[v as int] < b.len());
    }
}

/// Two ways of listing the nodes by their rank have the same nodes in layer
/// `k`, up to position `n` of the first.
proof fn lemma_layer_same_up_to(
    a: Seq<Vec<usize>>,
    b: Seq<Vec<usize>>,
    rank: Seq<usize>,
    k: int,
    n: int,
)
    requires
        layered(a, rank),
        layered(b, rank),
        0 <= k < a.len(),
        k < b.len(),
        0 <= n <= a[k]@.len(),
    ensures
        n <= b[k]@.len(),
        forall|i: int| 0 <= i < n ==> a[k]@[i] == b[k]@[i],
    decreases n,
{
    if n > 0 {
        lemma_layer_same_up_to(a, b, rank, k, n - 1);
        let i = n - 1;
        let x = a[k]@[i];
        // Where the node at position i of the one layer stands in the other.
        assert(rank[x as int] == k);
        let j = choose|j: int| 0 <= j < b[rank[x as int] as int]@.len() && #[trigger] b[rank[x as int] as int]@[j] == x;
        assert(b[k]@[j] == x);
        if j < i {
            assert(a[k]@[j] == b[k]@[j]);
            assert(a[k]@[j] < a[k]@[i]);
        }
        assert(j >= i);
        // And the other way round.
        let y = b[k]@[i];
        assert(rank[y as int] == k);
        let l = choose|l: int| 0 <= l < a[rank[y as int] as int]@.len() && #[trigger] a[rank[y as int] as int]@[l] == y;
        assert(a[k]@[l] == y);
        if l < i {
            assert(a[k]@[l] == b[k]@[l]);
            assert(b[k]@[l] < b[k]@[i]);
        }
        assert(l >= i);
        if j > i {
            assert(b[k]@[i] < b[k]@[j]);
            if l > i {
                assert(a[k]@[i] < a[k]@[l]);
            }
        }
    }
}

/// Whether each node has a higher rank than every node that it depends on.
pub open spec fn falling(deps: Seq<Seq<usize>>, rank: Seq<usize>) -> bool {
    &&& rank.len() == deps.len()
    &&& forall|v: int, j: int|
        0 <= v < deps.len() && 0 <= j < deps[v].len() ==> (#[trigger] deps[v][j]) < deps.len()
            && rank[deps[v][j] as int] < rank[v]
}

/// A ranked graph has no circle.
pub proof fn lemma_ranked_acyclic(deps: Seq<Seq<usize>>, rank: Seq<usize>)
    requires
        ranked(deps, rank),
    ensures
        acyclic(deps),
{
    lemma_falling_acyclic(deps, rank);
}

/// Along a circle the ranks would fall without end: a graph in which each
/// node has a higher rank than every node that it depends on has none.
pub proof fn lemma_falling_acyclic(deps: Seq<Seq<usize>>, rank: Seq<usize>)
    requires
        falling(deps, rank),
    ensures
        acyclic(deps),
{
    assert forall|path: Seq<usize>| !is_cycle(deps, path) by {
        if is_cycle(deps, path) {
            lemma_cycle_ranks(deps, rank, path, path.len() - 1);
            let last = path.len() - 1;
            assert(depends_on(deps, path[last] as int, path[0] as int));
        }
    }
}

/// On a circle in a ranked graph, the rank falls from the first node to the
/// node at position `i` by at least `i`.
proof fn lemma_cycle_ranks(deps: Seq<Seq<usize>>, rank: Seq<usize>, path: Seq<usize>, i: int)
    requires
        falling(deps, rank),
        is_cycle(deps, path),
        0 <= i < path.len(),
    ensures
        0 <= path[i] < deps.len(),
        rank[path[i] as int] + i <= rank[path[0] as int],
    decreases i,
{
    assert(depends_on(deps, path[i] as int, path[if i + 1 < path.len() {
        i + 1
    } else {
        0
    }] as int));
    if i > 0 {
        lemma_cycle_ranks(deps, rank, path, i - 1);
        assert(depends_on(deps, path[i - 1] as int, path[i] as int));
    }
}

} // verus!
