//! The path solver: a best-first relaxation over a min-priority queue with
//! lazy deletion of stale entries, followed by parent-pointer reconstruction
//! of the cheapest path.

use vstd::prelude::*;

use crate::graph::Edge;
use crate::graph::Graph;

verus! {

/// A pending queue entry: a tentative cost for one vertex.
#[derive(Clone, Copy, PartialEq, Eq, Structural, Debug)]
pub struct State {
    pub cost: usize,
    pub position: usize,
}

/// Entry `a` is popped no later than `b`: smaller cost first, ties broken by
/// smaller position.
pub open spec fn state_le(a: State, b: State) -> bool {
    a.cost < b.cost || (a.cost == b.cost && a.position <= b.position)
}

/// A reconstructed minimum-cost path.  `path` lists the vertex indices from
/// source to target inclusive, and `distance[i]` is the cumulative cost from
/// the source to `path[i]`; `cost` is the total, equal to `distance.last()`.
#[derive(Debug)]
pub struct Path {
    pub path: Vec<usize>,
    pub distance: Vec<usize>,
    pub cost: usize,
}

/// The mathematical cost of a walk: the sum of its step costs.
pub open spec fn walk_cost(cs: Seq<usize>) -> int
    decreases cs.len(),
{
    if cs.len() == 0 {
        0
    } else {
        cs[0] + walk_cost(cs.drop_first())
    }
}

/// Some walk leads from `s` to `t` and costs exactly `c`.
pub open spec fn has_walk_from(g: Graph, s: usize, t: usize, c: int) -> bool {
    exists|vs: Seq<usize>, cs: Seq<usize>|
        #![trigger g.is_walk(vs, cs)]
        g.is_walk(vs, cs) && vs[0] == s && vs.last() == t && walk_cost(cs) == c
}

impl Path {
    /// The path is a well-formed answer for source `s` and target `t` in
    /// `g`: it starts at `s` with distance 0, ends at `t` with the total
    /// cost, never steps from a vertex to itself, and each step follows an
    /// edge whose cost is exactly the distance increment.
    pub open spec fn valid(self, g: Graph, s: usize, t: usize) -> bool {
        &&& self.path@.len() >= 1
        &&& self.distance@.len() == self.path@.len()
        &&& self.path@[0] == s
        &&& self.path@.last() == t
        &&& self.distance@[0] == 0
        &&& self.distance@.last() == self.cost
        &&& forall|i: int| 0 <= i < self.path@.len() ==> (#[trigger] self.path@[i]) < g.vertex_count()
        &&& forall|i: int|
            0 <= i < self.path@.len() - 1 ==> #[trigger] self.distance@[i] <= self.distance@[i + 1]
        &&& forall|i: int|
            #![trigger self.path@[i]]
            0 <= i < self.path@.len() - 1
                ==> self.path@[i] != self.path@[i + 1] && g.edge_between(
                self.path@[i] as int,
                self.path@[i + 1] as int,
                self.distance@[i + 1] - self.distance@[i],
            )
    }
}

pub proof fn lemma_walk_cost_nonneg(cs: Seq<usize>)
    ensures
        walk_cost(cs) >= 0,
    decreases cs.len(),
{
    if cs.len() > 0 {
        lemma_walk_cost_nonneg(cs.drop_first());
    }
}

pub proof fn lemma_walk_cost_drop_last(cs: Seq<usize>)
    requires
        cs.len() > 0,
    ensures
        walk_cost(cs) == walk_cost(cs.drop_last()) + cs.last(),
    decreases cs.len(),
{
    if cs.len() == 1 {
        assert(cs.drop_last() =~= Seq::<usize>::empty());
        assert(cs.drop_first() =~= Seq::<usize>::empty());
    } else {
        lemma_walk_cost_drop_last(cs.drop_first());
        assert(cs.drop_first().drop_last() =~= cs.drop_last().drop_first());
        assert(cs.drop_last()[0] == cs[0]);
    }
}

proof fn lemma_walk_cost_push(cs: Seq<usize>, w: usize)
    ensures
        walk_cost(cs.push(w)) == walk_cost(cs) + w,
{
    lemma_walk_cost_drop_last(cs.push(w));
    assert(cs.push(w).drop_last() =~= cs);
}

/// Every returned path is itself a walk from source to target of cost
/// `p.cost`, so together with the solver's bound the returned cost is the
/// exact minimum over all source-to-target walks.
pub proof fn lemma_path_is_walk(g: Graph, s: usize, t: usize, p: Path)
    requires
        g.wf(),
        p.valid(g, s, t),
    ensures
        has_walk_from(g, s, t, p.cost as int),
{
    let vs = p.path@;
    let cs = Seq::<usize>::new(
        (p.path@.len() - 1) as nat,
        |i: int| (p.distance@[i + 1] - p.distance@[i]) as usize,
    );
    assert forall|i: int| 0 <= i < cs.len() implies #[trigger] g.edge_between(
        vs[i] as int,
        vs[i + 1] as int,
        cs[i] as int,
    ) by {
        assert(p.distance@[i] <= p.distance@[i + 1]);
        assert(cs[i] as int == p.distance@[i + 1] - p.distance@[i]);
    }
    assert(g.is_walk(vs, cs));
    lemma_delta_costs(p.distance@);
    assert(walk_cost(cs) == p.cost) by {
        assert(cs =~= Seq::<usize>::new(
            (p.distance@.len() - 1) as nat,
            |i: int| (p.distance@[i + 1] - p.distance@[i]) as usize,
        ));
    }
}

proof fn lemma_delta_costs(d: Seq<usize>)
    requires
        d.len() >= 1,
        forall|i: int| 0 <= i < d.len() - 1 ==> #[trigger] d[i] <= d[i + 1],
    ensures
        walk_cost(Seq::<usize>::new((d.len() - 1) as nat, |i: int| (d[i + 1] - d[i]) as usize))
            == d.last() - d[0],
    decreases d.len(),
{
    let cs = Seq::<usize>::new((d.len() - 1) as nat, |i: int| (d[i + 1] - d[i]) as usize);
    if d.len() == 1 {
        assert(cs =~= Seq::<usize>::empty());
    } else {
        let d2 = d.drop_last();
        let cs2 = Seq::<usize>::new((d2.len() - 1) as nat, |i: int| (d2[i + 1] - d2[i]) as usize);
        lemma_delta_costs(d2);
        lemma_walk_cost_drop_last(cs);
        assert(cs.drop_last() =~= cs2);
        assert(cs.last() == d.last() - d[d.len() - 2]);
    }
}

/// When every edge cost is positive, the distance sequence of a valid path
/// increases strictly.
#[verifier::rlimit(50)]
pub proof fn lemma_distances_strictly_increase(g: Graph, s: usize, t: usize, p: Path)
    requires
        g.wf(),
        p.valid(g, s, t),
        forall|u: int, k: int|
            0 <= u < g.adj().len() && 0 <= k < g.adj()[u].len()
                ==> (#[trigger] g.adj()[u][k]).cost >= 1,
    ensures
        forall|i: int|
            0 <= i < p.distance@.len() - 1 ==> #[trigger] p.distance@[i] < p.distance@[i + 1],
{
    assert forall|i: int| 0 <= i < p.distance@.len() - 1 implies #[trigger] p.distance@[i]
        < p.distance@[i + 1] by {
        let u = p.path@[i] as int;
        let v = p.path@[i + 1] as int;
        let c = p.distance@[i + 1] - p.distance@[i];
        assert(g.edge_between(u, v, c));
        let k = choose|k: int|
            0 <= k < g.adj()[u].len() && (#[trigger] g.adj()[u][k]).node == v
                && g.adj()[u][k].cost == c;
        assert(0 <= u < g.adj().len());
        assert(g.adj()[u][k].cost >= 1);
    }
}

// ---------------------------------------------------------------------------
// Ghost bookkeeping for the relaxation loop.
// ---------------------------------------------------------------------------

/// The weight of one tentative-distance slot, with "unknown" counted as
/// strictly heavier than any known cost; the relaxation loop strictly shrinks
/// the queue length plus the total weight, which bounds its running time.
pub open spec fn slot_weight(d: Option<usize>) -> nat {
    match d {
        Some(x) => x as nat,
        None => usize::MAX as nat + 1,
    }
}

/// The total weight of the tentative-distance table.
pub open spec fn dsum(dv: Seq<Option<usize>>) -> nat
    decreases dv.len(),
{
    if dv.len() == 0 {
        0
    } else {
        slot_weight(dv[0]) + dsum(dv.drop_first())
    }
}

proof fn lemma_dsum_update(dv: Seq<Option<usize>>, i: int, x: Option<usize>)
    requires
        0 <= i < dv.len(),
    ensures
        dsum(dv.update(i, x)) + slot_weight(dv[i]) == dsum(dv) + slot_weight(x),
    decreases dv.len(),
{
    if i == 0 {
        assert(dv.update(0, x).drop_first() =~= dv.drop_first());
        assert(dv.update(0, x)[0] == x);
    } else {
        assert(dv.update(i, x)[0] == dv[0]);
        assert(dv.update(i, x).drop_first() =~= dv.drop_first().update(i - 1, x));
        lemma_dsum_update(dv.drop_first(), i - 1, x);
    }
}

/// Edge `k` out of `u` needs no further relaxation: either following it
/// cannot be recorded (the sum leaves the machine range), or its target
/// already has a recorded distance at most `distance[u]` plus the edge cost.
spec fn edge_settled(g: Graph, dv: Seq<Option<usize>>, u: int, k: int) -> bool {
    let e = g.adj()[u][k];
    let du = dv[u].unwrap() as int;
    du + e.cost > usize::MAX || (dv[e.node as int] is Some && dv[e.node as int].unwrap() <= du
        + e.cost)
}

spec fn vertex_settled(g: Graph, dv: Seq<Option<usize>>, u: int) -> bool {
    forall|k: int| 0 <= k < g.adj()[u].len() ==> #[trigger] edge_settled(g, dv, u, k)
}

/// Every vertex with a recorded distance has all of its edges relaxed.
spec fn closed(g: Graph, dv: Seq<Option<usize>>) -> bool {
    forall|u: int| 0 <= u < dv.len() && #[trigger] dv[u] is Some ==> vertex_settled(g, dv, u)
}

/// The queue entry that vouches for vertex `v`: its currently recorded
/// distance, at `v`.
spec fn witness_state(dv: Seq<Option<usize>>, v: int) -> State {
    State { cost: dv[v].unwrap(), position: v as usize }
}

spec fn pending_or_settled(g: Graph, dv: Seq<Option<usize>>, qs: Seq<State>, v: int) -> bool {
    qs.contains(witness_state(dv, v)) || vertex_settled(g, dv, v)
}

spec fn all_pending_or_settled(g: Graph, dv: Seq<Option<usize>>, qs: Seq<State>) -> bool {
    forall|v: int|
        0 <= v < dv.len() && #[trigger] dv[v] is Some ==> pending_or_settled(g, dv, qs, v)
}

spec fn queue_entry_ok(dv: Seq<Option<usize>>, e: State) -> bool {
    e.position < dv.len() && dv[e.position as int] is Some && dv[e.position as int].unwrap()
        <= e.cost
}

/// `u` became `v`'s parent when relaxation recorded `distance[u]` plus some
/// edge cost as `v`'s distance; since then `distance[u]` can only have
/// dropped, so the inequality persists.  The rank pair proves the parent
/// chain acyclic even across zero-cost edges: a parent either has a strictly
/// smaller distance or was stamped strictly earlier.
spec fn parent_edge_ok(g: Graph, dv: Seq<Option<usize>>, rk: Seq<nat>, v: int, u: int) -> bool {
    &&& 0 <= u < g.vertex_count()
    &&& u != v
    &&& dv[u] is Some
    &&& dv[v] is Some
    &&& exists|k: int|
        0 <= k < g.adj()[u].len() && (#[trigger] g.adj()[u][k]).node == v && dv[u].unwrap()
            + g.adj()[u][k].cost <= dv[v].unwrap()
    &&& (dv[u].unwrap() < dv[v].unwrap() || (dv[u].unwrap() == dv[v].unwrap() && rk[u] < rk[v]))
}

/// Everything the relaxation loop keeps true about the tentative distances,
/// the parents, the queue and the ghost ranks.
spec fn solver_inv(
    g: Graph,
    s: usize,
    dv: Seq<Option<usize>>,
    pv: Seq<Option<usize>>,
    qs: Seq<State>,
    rk: Seq<nat>,
    stamp: nat,
) -> bool {
    &&& dv.len() == g.vertex_count()
    &&& pv.len() == g.vertex_count()
    &&& rk.len() == g.vertex_count()
    &&& s < g.vertex_count()
    &&& dv[s as int] == Some(0usize)
    &&& pv[s as int] is None
    &&& forall|j: int| 0 <= j < qs.len() ==> queue_entry_ok(dv, #[trigger] qs[j])
    &&& forall|v: int|
        0 <= v < dv.len() && #[trigger] dv[v] is Some ==> has_walk_from(
            g,
            s,
            v as usize,
            dv[v].unwrap() as int,
        )
    &&& forall|v: int|
        0 <= v < pv.len() ==> ((#[trigger] pv[v]) is Some <==> (dv[v] is Some && v != s))
    &&& forall|v: int|
        0 <= v < pv.len() && (#[trigger] pv[v]) is Some ==> parent_edge_ok(
            g,
            dv,
            rk,
            v,
            pv[v].unwrap() as int,
        )
    &&& forall|v: int| 0 <= v < rk.len() ==> (#[trigger] rk[v]) < stamp
}

/// What the relaxation phase hands to the reconstruction phase.
spec fn settled_state(
    g: Graph,
    s: usize,
    dv: Seq<Option<usize>>,
    pv: Seq<Option<usize>>,
    rk: Seq<nat>,
) -> bool {
    &&& dv.len() == g.vertex_count()
    &&& pv.len() == g.vertex_count()
    &&& rk.len() == g.vertex_count()
    &&& dv[s as int] == Some(0usize)
    &&& pv[s as int] is None
    &&& closed(g, dv)
    &&& forall|v: int|
        0 <= v < dv.len() && #[trigger] dv[v] is Some ==> has_walk_from(
            g,
            s,
            v as usize,
            dv[v].unwrap() as int,
        )
    &&& forall|v: int|
        0 <= v < pv.len() ==> ((#[trigger] pv[v]) is Some <==> (dv[v] is Some && v != s))
    &&& forall|v: int|
        0 <= v < pv.len() && (#[trigger] pv[v]) is Some ==> parent_edge_ok(
            g,
            dv,
            rk,
            v,
            pv[v].unwrap() as int,
        )
}

proof fn lemma_remove_keeps_contains(s: Seq<State>, i: int, w: State)
    requires
        0 <= i < s.len(),
        s.contains(w),
        w != s[i],
    ensures
        s.remove(i).contains(w),
{
    let idx = choose|idx: int| 0 <= idx < s.len() && s[idx] == w;
    s.remove_ensures(i);
    if idx < i {
        assert(s.remove(i)[idx] == w);
    } else {
        assert(s.remove(i)[idx - 1] == w);
    }
}

/// Once every recorded vertex is fully relaxed, a recorded distance
/// undercuts every representable walk from the source: induction over the
/// walk, stepping through its last edge with the relaxation closure.
proof fn lemma_closed_bounds_walks(
    g: Graph,
    s: usize,
    dv: Seq<Option<usize>>,
    vs: Seq<usize>,
    cs: Seq<usize>,
)
    requires
        g.wf(),
        dv.len() == g.vertex_count(),
        s < g.vertex_count(),
        dv[s as int] == Some(0usize),
        closed(g, dv),
        g.is_walk(vs, cs),
        vs[0] == s,
        walk_cost(cs) <= usize::MAX,
    ensures
        dv[vs.last() as int] is Some,
        dv[vs.last() as int].unwrap() <= walk_cost(cs),
    decreases vs.len(),
{
    lemma_walk_cost_nonneg(cs);
    if vs.len() == 1 {
        assert(vs.last() == s);
    } else {
        let vs2 = vs.drop_last();
        let cs2 = cs.drop_last();
        lemma_walk_cost_drop_last(cs);
        lemma_walk_cost_nonneg(cs2);
        assert(g.is_walk(vs2, cs2)) by {
            assert forall|i: int| 0 <= i < cs2.len() implies #[trigger] g.edge_between(
                vs2[i] as int,
                vs2[i + 1] as int,
                cs2[i] as int,
            ) by {
                assert(g.edge_between(vs[i] as int, vs[i + 1] as int, cs[i] as int));
            }
        }
        lemma_closed_bounds_walks(g, s, dv, vs2, cs2);
        let li = cs.len() - 1;
        assert(g.edge_between(vs[li] as int, vs[li + 1] as int, cs[li] as int));
        let u = vs[li] as int;
        let t = vs[li + 1] as int;
        let w = cs[li];
        let k = choose|k: int|
            0 <= k < g.adj()[u].len() && (#[trigger] g.adj()[u][k]).node == t && g.adj()[u][k].cost
                == w as int;
        assert(vs2.last() == vs[li]);
        assert(dv[u] is Some && dv[u].unwrap() <= walk_cost(cs2));
        assert(vertex_settled(g, dv, u));
        assert(edge_settled(g, dv, u, k));
        assert(dv[u].unwrap() + w <= walk_cost(cs2) + w);
    }
}

/// A fully relaxed vertex stays fully relaxed when another vertex's recorded
/// distance improves.
proof fn lemma_settled_after_improve(
    g: Graph,
    dv: Seq<Option<usize>>,
    x: int,
    nc: usize,
    v: int,
)
    requires
        g.wf(),
        dv.len() == g.vertex_count(),
        0 <= x < dv.len(),
        0 <= v < dv.len(),
        v != x,
        dv[x] is Some ==> nc < dv[x].unwrap(),
        vertex_settled(g, dv, v),
    ensures
        vertex_settled(g, dv.update(x, Some(nc)), v),
{
    let dv2 = dv.update(x, Some(nc));
    assert forall|k: int| 0 <= k < g.adj()[v].len() implies #[trigger] edge_settled(
        g,
        dv2,
        v,
        k,
    ) by {
        assert(edge_settled(g, dv, v, k));
        assert((g.adj()[v][k]).node < g.vertex_count());
    }
}

/// Removing one entry from the queue keeps every invariant; the popped
/// vertex stays vouched for unless the popped entry was its witness, and a
/// stale entry (cost above the recorded distance) is never the witness.
proof fn lemma_pop_step(
    g: Graph,
    s: usize,
    dv: Seq<Option<usize>>,
    pv: Seq<Option<usize>>,
    rk: Seq<nat>,
    stamp: nat,
    qpre: Seq<State>,
    i0: int,
    st: State,
)
    requires
        solver_inv(g, s, dv, pv, qpre, rk, stamp),
        all_pending_or_settled(g, dv, qpre),
        dv.len() <= usize::MAX,
        0 <= i0 < qpre.len(),
        qpre[i0] == st,
    ensures
        queue_entry_ok(dv, st),
        solver_inv(g, s, dv, pv, qpre.remove(i0), rk, stamp),
        forall|v: int|
            0 <= v < dv.len() && #[trigger] dv[v] is Some && v != st.position as int
                ==> pending_or_settled(g, dv, qpre.remove(i0), v),
        st.cost > dv[st.position as int].unwrap() ==> pending_or_settled(
            g,
            dv,
            qpre.remove(i0),
            st.position as int,
        ),
{
    let q2 = qpre.remove(i0);
    qpre.remove_ensures(i0);
    assert forall|j: int| 0 <= j < q2.len() implies queue_entry_ok(dv, #[trigger] q2[j]) by {
        if j < i0 {
            assert(q2[j] == qpre[j]);
        } else {
            assert(q2[j] == qpre[j + 1]);
        }
    }
    assert forall|v: int|
        0 <= v < dv.len() && #[trigger] dv[v] is Some && v != st.position as int
        implies pending_or_settled(g, dv, q2, v) by {
        assert(pending_or_settled(g, dv, qpre, v));
        if qpre.contains(witness_state(dv, v)) {
            assert(0 <= v <= usize::MAX);
            assert(witness_state(dv, v).position == v as usize);
            assert(witness_state(dv, v).position != st.position);
            lemma_remove_keeps_contains(qpre, i0, witness_state(dv, v));
        }
    }
    if st.cost > dv[st.position as int].unwrap() {
        let w = witness_state(dv, st.position as int);
        assert(pending_or_settled(g, dv, qpre, st.position as int));
        if qpre.contains(w) {
            assert(w.cost != st.cost);
            lemma_remove_keeps_contains(qpre, i0, w);
        }
    }
}

/// One successful relaxation: recording `nc` as the target's distance,
/// re-parenting it to `u`, stamping it, and queueing the fresh entry keeps
/// every invariant and strictly shrinks the distance weight.
proof fn lemma_improve_step(
    g: Graph,
    s: usize,
    u: usize,
    k: int,
    c: usize,
    nc: usize,
    dv1: Seq<Option<usize>>,
    pv1: Seq<Option<usize>>,
    q1: Seq<State>,
    rk1: Seq<nat>,
    stamp1: nat,
)
    requires
        g.wf(),
        solver_inv(g, s, dv1, pv1, q1, rk1, stamp1),
        u < g.vertex_count(),
        0 <= k < g.adj()[u as int].len(),
        dv1[u as int] == Some(c),
        nc == c + g.adj()[u as int][k].cost,
        dv1[g.adj()[u as int][k].node as int] is Some ==> nc < dv1[g.adj()[u as int][k].node
            as int].unwrap(),
        forall|v: int|
            0 <= v < dv1.len() && #[trigger] dv1[v] is Some && v != u as int
                ==> pending_or_settled(g, dv1, q1, v),
        forall|kk: int| 0 <= kk < k ==> #[trigger] edge_settled(g, dv1, u as int, kk),
    ensures
        ({
            let xu = g.adj()[u as int][k].node;
            let x = xu as int;
            let dv2 = dv1.update(x, Some(nc));
            let pv2 = pv1.update(x, Some(u));
            let q2 = q1.push(State { cost: nc, position: xu });
            let rk2 = rk1.update(x, stamp1);
            &&& solver_inv(g, s, dv2, pv2, q2, rk2, stamp1 + 1)
            &&& forall|v: int|
                0 <= v < dv2.len() && #[trigger] dv2[v] is Some && v != u as int
                    ==> pending_or_settled(g, dv2, q2, v)
            &&& forall|kk: int| 0 <= kk < k + 1 ==> #[trigger] edge_settled(g, dv2, u as int, kk)
            &&& dsum(dv2) + 1 <= dsum(dv1)
            &&& dv2[u as int] == Some(c)
        }),
{
    let xu = g.adj()[u as int][k].node;
    let x = xu as int;
    let w = g.adj()[u as int][k].cost;
    assert(xu < g.vertex_count());
    assert(x != u as int) by {
        if x == u as int {
            assert(dv1[x].unwrap() == c);
        }
    }
    assert(x != s as int) by {
        if x == s as int {
            assert(dv1[s as int] == Some(0usize));
        }
    }
    let dv2 = dv1.update(x, Some(nc));
    let pv2 = pv1.update(x, Some(u));
    let q2 = q1.push(State { cost: nc, position: xu });
    let rk2 = rk1.update(x, stamp1);
    lemma_dsum_update(dv1, x, Some(nc));
    assert(slot_weight(dv1[x]) >= nc + 1);
    assert(dsum(dv2) + 1 <= dsum(dv1));

    // a walk reaching u at cost c extends through this edge to reach x at nc
    let (vs0, cs0) = choose|vs0: Seq<usize>, cs0: Seq<usize>|
        #![trigger g.is_walk(vs0, cs0)]
        g.is_walk(vs0, cs0) && vs0[0] == s && vs0.last() == u && walk_cost(cs0) == c;
    let vs1 = vs0.push(xu);
    let cs1 = cs0.push(g.adj()[u as int][k].cost);
    lemma_walk_cost_push(cs0, g.adj()[u as int][k].cost);
    assert(g.is_walk(vs1, cs1)) by {
        assert forall|t: int| 0 <= t < cs1.len() implies #[trigger] g.edge_between(
            vs1[t] as int,
            vs1[t + 1] as int,
            cs1[t] as int,
        ) by {
            if t < cs0.len() {
                assert(g.edge_between(vs0[t] as int, vs0[t + 1] as int, cs0[t] as int));
                assert(vs1[t] == vs0[t] && vs1[t + 1] == vs0[t + 1]);
            } else {
                assert(vs1[t] == u && vs1[t + 1] == xu);
                assert(g.adj()[u as int][k].node == xu);
            }
        }
    }
    assert(vs1[0] == s && vs1.last() == xu);
    assert(walk_cost(cs1) == nc);
    assert(has_walk_from(g, s, xu, nc as int));

    // the fresh entry vouches for x; pushed or untouched entries keep
    // vouching for every other recorded vertex
    assert(q2[q2.len() - 1] == State { cost: nc, position: xu });
    assert(q2.contains(witness_state(dv2, x)));
    assert forall|v: int| 0 <= v < dv2.len() && #[trigger] dv2[v] is Some && v != u as int
        implies pending_or_settled(g, dv2, q2, v) by {
        if v != x {
            assert(dv2[v] == dv1[v]);
            assert(pending_or_settled(g, dv1, q1, v));
            if q1.contains(witness_state(dv1, v)) {
                let wi = choose|wi: int| 0 <= wi < q1.len() && q1[wi] == witness_state(dv1, v);
                assert(q2[wi] == witness_state(dv2, v));
                assert(q2.contains(witness_state(dv2, v)));
            } else {
                lemma_settled_after_improve(g, dv1, x, nc, v);
            }
        }
    }

    // edges of u already relaxed stay relaxed, and edge k now is
    assert forall|kk: int| 0 <= kk < k + 1 implies #[trigger] edge_settled(g, dv2, u as int, kk)
        by {
        if kk < k {
            assert(edge_settled(g, dv1, u as int, kk));
            assert((g.adj()[u as int][kk]).node < g.vertex_count());
        } else {
            assert(dv2[x].unwrap() == nc);
        }
    }

    // queue entries still point at recorded, no-larger distances
    assert forall|j: int| 0 <= j < q2.len() implies queue_entry_ok(dv2, #[trigger] q2[j]) by {
        if j < q2.len() - 1 {
            assert(q2[j] == q1[j]);
            assert(queue_entry_ok(dv1, q1[j]));
        }
    }

    // parent facts survive the improvement
    assert forall|v: int| 0 <= v < pv2.len() && (#[trigger] pv2[v]) is Some
        implies parent_edge_ok(g, dv2, rk2, v, pv2[v].unwrap() as int) by {
        let pu = pv2[v].unwrap() as int;
        if v == x {
            assert(pu == u as int);
            assert(g.adj()[u as int][k].node == x && dv2[u as int].unwrap() + g.adj()[u as
                int][k].cost <= dv2[x].unwrap());
            assert(rk2[u as int] == rk1[u as int] && rk1[u as int] < stamp1);
            assert(rk2[x] == stamp1);
        } else {
            assert(pv1[v] is Some && parent_edge_ok(g, dv1, rk1, v, pu));
            if pu == x {
                let kk = choose|kk: int|
                    0 <= kk < g.adj()[x].len() && (#[trigger] g.adj()[x][kk]).node == v
                        && dv1[x].unwrap() + g.adj()[x][kk].cost <= dv1[v].unwrap();
                assert(g.adj()[x][kk].node == v && dv2[x].unwrap() + g.adj()[x][kk].cost
                    <= dv2[v].unwrap());
                assert(dv2[x].unwrap() < dv2[v].unwrap());
            }
        }
    }
}

/// After the relaxation closes, every source-to-target walk either costs
/// more than the machine word holds or at least the recorded distance.
proof fn lemma_no_better_walk(g: Graph, s: usize, t: usize, dv: Seq<Option<usize>>)
    requires
        g.wf(),
        dv.len() == g.vertex_count(),
        s < g.vertex_count(),
        dv[s as int] == Some(0usize),
        closed(g, dv),
    ensures
        forall|vs: Seq<usize>, cs: Seq<usize>|
            #![trigger g.is_walk(vs, cs)]
            g.is_walk(vs, cs) && vs[0] == s && vs.last() == t ==> walk_cost(cs) > usize::MAX || (
            dv[t as int] is Some && dv[t as int].unwrap() <= walk_cost(cs)),
{
    assert forall|vs: Seq<usize>, cs: Seq<usize>|
        g.is_walk(vs, cs) && vs[0] == s && vs.last() == t implies walk_cost(cs) > usize::MAX || (
    dv[t as int] is Some && dv[t as int].unwrap() <= walk_cost(cs)) by {
        lemma_walk_cost_nonneg(cs);
        if walk_cost(cs) <= usize::MAX {
            lemma_closed_bounds_walks(g, s, dv, vs, cs);
        }
    }
}

/// Reversing a backward parent chain yields a valid forward path: the chain
/// facts about adjacent entries carry over index-for-index.
proof fn lemma_reverse_valid(
    g: Graph,
    s: usize,
    t: usize,
    total: usize,
    rp: Seq<usize>,
    rd: Seq<usize>,
    p: Seq<usize>,
    d: Seq<usize>,
)
    requires
        rp.len() == rd.len(),
        rp.len() >= 1,
        rp[0] == t,
        rd[0] == total,
        rp.last() == s,
        rd.last() == 0,
        forall|j: int| 0 <= j < rp.len() ==> (#[trigger] rp[j]) < g.vertex_count(),
        forall|j: int|
            #![trigger rp[j]]
            0 <= j < rp.len() - 1 ==> rp[j + 1] != rp[j] && rd[j + 1] <= rd[j] && g.edge_between(
                rp[j + 1] as int,
                rp[j] as int,
                rd[j] - rd[j + 1],
            ),
        p.len() == rp.len(),
        d.len() == rd.len(),
        forall|j: int| 0 <= j < p.len() ==> #[trigger] p[j] == rp[rp.len() - 1 - j],
        forall|j: int| 0 <= j < d.len() ==> #[trigger] d[j] == rd[rd.len() - 1 - j],
    ensures
        p[0] == s,
        p.last() == t,
        d[0] == 0,
        d.last() == total,
        forall|i: int| 0 <= i < p.len() ==> (#[trigger] p[i]) < g.vertex_count(),
        forall|i: int| 0 <= i < p.len() - 1 ==> #[trigger] d[i] <= d[i + 1],
        forall|i: int|
            #![trigger p[i]]
            0 <= i < p.len() - 1 ==> p[i] != p[i + 1] && g.edge_between(
                p[i] as int,
                p[i + 1] as int,
                d[i + 1] - d[i],
            ),
{
    let m = rp.len() as int;
    assert(p[0] == rp[m - 1]);
    assert(p.last() == rp[0]);
    assert(d[0] == rd[m - 1]);
    assert(d.last() == rd[0]);
    assert forall|i: int| 0 <= i < p.len() implies (#[trigger] p[i]) < g.vertex_count() by {
        assert(p[i] == rp[m - 1 - i]);
    }
    assert forall|i: int| 0 <= i < p.len() - 1 implies #[trigger] d[i] <= d[i + 1] by {
        let j = m - 2 - i;
        assert(d[i] == rd[j + 1]);
        assert(d[i + 1] == rd[j]);
        assert(rp[j] < g.vertex_count());
    }
    assert forall|i: int|
        #![trigger p[i]]
        0 <= i < p.len() - 1 implies p[i] != p[i + 1] && g.edge_between(
        p[i] as int,
        p[i + 1] as int,
        d[i + 1] - d[i],
    ) by {
        let j = m - 2 - i;
        assert(p[i] == rp[m - 1 - i]);
        assert(p[i + 1] == rp[m - 2 - i]);
        assert(d[i] == rd[m - 1 - i]);
        assert(d[i + 1] == rd[m - 2 - i]);
        assert(rp[j] < g.vertex_count());
        assert(rp[j + 1] != rp[j] && g.edge_between(
            rp[j + 1] as int,
            rp[j] as int,
            rd[j] - rd[j + 1],
        ));
    }
}

/// Removes and returns the least pending entry: smallest cost, ties broken
/// by smallest position.
#[verifier::loop_isolation(false)]
fn pop_min(q: &mut Vec<State>) -> (r: State)
    requires
        old(q)@.len() > 0,
    ensures
        exists|i: int| 0 <= i < old(q)@.len() && old(q)@[i] == r && final(q)@ == old(q)@.remove(i),
        forall|j: int| 0 <= j < old(q)@.len() ==> state_le(r, #[trigger] old(q)@[j]),
{
    let mut best: usize = 0;
    let mut j: usize = 1;
    while j < q.len()
        invariant
            1 <= j <= q@.len(),
            best < j,
            forall|t: int| 0 <= t < j ==> state_le(q@[best as int], #[trigger] q@[t]),
        decreases q@.len() - j,
    {
        if q[j].cost < q[best].cost || (q[j].cost == q[best].cost && q[j].position
            < q[best].position) {
            best = j;
        }
        j += 1;
    }
    let r = q.remove(best);
    proof {
        assert(old(q)@[best as int] == r && q@ == old(q)@.remove(best as int));
    }
    r
}

/// `v` reversed.
#[verifier::loop_isolation(false)]
fn reversed(v: &Vec<usize>) -> (r: Vec<usize>)
    ensures
        r@.len() == v@.len(),
        forall|j: int| 0 <= j < v@.len() ==> #[trigger] r@[j] == v@[v@.len() - 1 - j],
{
    let mut r: Vec<usize> = Vec::new();
    let mut i: usize = v.len();
    while i > 0
        invariant
            i <= v@.len(),
            r@.len() == v@.len() - i,
            forall|j: int| 0 <= j < r@.len() ==> #[trigger] r@[j] == v@[v@.len() - 1 - j],
        decreases i,
    {
        i -= 1;
        r.push(v[i]);
    }
    r
}

/// Runs the relaxation to exhaustion: seeds the queue with the source at
/// cost 0, repeatedly pops the least entry, drops it when stale, and
/// otherwise relaxes every edge out of its vertex, pushing a fresh entry for
/// each strict improvement.  Returns the tentative-distance and parent
/// tables, fully relaxed, together with the ghost stamp ranks that order the
/// parent chains.
#[verifier::loop_isolation(false)]
fn run_relaxation(graph: &Graph, start: usize) -> (r: (
    Vec<Option<usize>>,
    Vec<Option<usize>>,
    Ghost<Seq<nat>>,
))
    requires
        graph.wf(),
        start < graph.vertex_count(),
    ensures
        settled_state(*graph, start, r.0@, r.1@, r.2@),
{
    let n = graph.list.len();
    proof {
        assert(n == graph.vertex_count());
    }
    let mut distance: Vec<Option<usize>> = Vec::new();
    let mut parent: Vec<Option<usize>> = Vec::new();
    let mut i: usize = 0;
    while i < n
        invariant
            i <= n,
            distance@.len() == i,
            parent@.len() == i,
            forall|v: int| 0 <= v < i ==> (#[trigger] distance@[v]) is None,
            forall|v: int| 0 <= v < i ==> (#[trigger] parent@[v]) is None,
        decreases n - i,
    {
        distance.push(None);
        parent.push(None);
        i += 1;
    }

    let mut q: Vec<State> = Vec::new();
    distance[start] = Some(0);
    q.push(State { cost: 0, position: start });

    let ghost mut rk: Seq<nat> = Seq::new(graph.vertex_count(), |v: int| 0);
    let ghost mut stamp: nat = 1;

    proof {
        assert(graph.is_walk(seq![start], Seq::<usize>::empty()));
        assert(seq![start][0] == start && seq![start].last() == start);
        assert(has_walk_from(*graph, start, start, 0));
        assert(q@[0] == State { cost: 0, position: start });
        assert(q@.contains(witness_state(distance@, start as int)));
    }

    while q.len() > 0
        invariant
            solver_inv(*graph, start, distance@, parent@, q@, rk, stamp),
            all_pending_or_settled(*graph, distance@, q@),
        decreases q@.len() + dsum(distance@),
    {
        let ghost qpre = q@;
        let ghost measure0 = q@.len() + dsum(distance@);
        let st = pop_min(&mut q);
        let u = st.position;
        let c = st.cost;
        proof {
            let i0 = choose|i0: int|
                0 <= i0 < qpre.len() && qpre[i0] == st && q@ == qpre.remove(i0);
            assert(distance.len() == distance@.len());
            lemma_pop_step(*graph, start, distance@, parent@, rk, stamp, qpre, i0, st);
            assert(q@.len() == qpre.len() - 1);
        }
        let du = distance[u].unwrap();
        if c <= du {
            proof {
                assert(c == du);
            }
            let deg = graph.list[u].len();
            proof {
                assert(graph.adj()[u as int].len() == deg);
            }
            let mut k: usize = 0;
            while k < deg
                invariant
                    k <= deg,
                    distance@[u as int] == Some(c),
                    solver_inv(*graph, start, distance@, parent@, q@, rk, stamp),
                    forall|v: int|
                        0 <= v < distance@.len() && #[trigger] distance@[v] is Some && v != u as int
                            ==> pending_or_settled(*graph, distance@, q@, v),
                    forall|kk: int|
                        0 <= kk < k ==> #[trigger] edge_settled(*graph, distance@, u as int, kk),
                    q@.len() + dsum(distance@) < measure0,
                decreases deg - k,
            {
                let e = graph.list[u][k];
                proof {
                    assert(e == graph.adj()[u as int][k as int]);
                    assert(e.node < graph.vertex_count());
                }
                match c.checked_add(e.cost) {
                    Some(nc) => {
                        let improves = match distance[e.node] {
                            None => true,
                            Some(dx) => nc < dx,
                        };
                        if improves {
                            let ghost dv1 = distance@;
                            let ghost pv1 = parent@;
                            let ghost rk1 = rk;
                            let ghost stamp1 = stamp;
                            proof {
                                lemma_improve_step(
                                    *graph,
                                    start,
                                    u,
                                    k as int,
                                    c,
                                    nc,
                                    dv1,
                                    pv1,
                                    q@,
                                    rk1,
                                    stamp1,
                                );
                            }
                            distance[e.node] = Some(nc);
                            parent[e.node] = Some(u);
                            q.push(State { cost: nc, position: e.node });
                            proof {
                                rk = rk1.update(e.node as int, stamp1);
                                stamp = stamp1 + 1;
                                assert(distance@ == dv1.update(e.node as int, Some(nc)));
                                assert(parent@ == pv1.update(e.node as int, Some(u)));
                            }
                        } else {
                            proof {
                                assert(edge_settled(*graph, distance@, u as int, k as int));
                            }
                        }
                    },
                    None => {
                        proof {
                            assert(c + e.cost > usize::MAX);
                            assert(edge_settled(*graph, distance@, u as int, k as int));
                        }
                    },
                }
                k += 1;
            }
            proof {
                assert(vertex_settled(*graph, distance@, u as int));
                assert forall|v: int|
                    0 <= v < distance@.len() && #[trigger] distance@[v] is Some
                    implies pending_or_settled(*graph, distance@, q@, v) by {
                    if v != u as int {
                        assert(pending_or_settled(*graph, distance@, q@, v));
                    }
                }
            }
        } else {
            proof {
                assert(pending_or_settled(*graph, distance@, q@, u as int));
            }
        }
    }

    proof {
        assert forall|v: int| 0 <= v < distance@.len() && #[trigger] distance@[v] is Some
            implies vertex_settled(*graph, distance@, v) by {
            assert(pending_or_settled(*graph, distance@, q@, v));
            if q@.contains(witness_state(distance@, v)) {
                let wi = choose|wi: int| 0 <= wi < q@.len() && q@[wi] == witness_state(distance@, v);
                assert(false);
            }
        }
        assert(closed(*graph, distance@));
    }
    (distance, parent, Ghost(rk))
}

/// Computes a minimum-cost path from `start` to `end`.
///
/// Returns a path exactly when some walk from `start` to `end` has a cost
/// that fits the machine word; the returned path then starts at `start` with
/// cumulative distance 0, ends at `end`, follows one edge per step with the
/// distance increment equal to that edge's cost, and its total cost bounds
/// from below — hence, being itself a walk, equals the minimum of — the cost
/// of every walk between the endpoints.  When `start == end` the result is
/// the single-vertex path of cost 0.
#[verifier::loop_isolation(false)]
#[verifier::rlimit(50)]
pub fn find_shortest_path(graph: &Graph, start: usize, end: usize) -> (r: Option<Path>)
    requires
        graph.wf(),
        start < graph.vertex_count(),
        end < graph.vertex_count(),
    ensures
        match r {
            Some(p) => {
                &&& p.valid(*graph, start, end)
                &&& forall|vs: Seq<usize>, cs: Seq<usize>|
                    #![trigger graph.is_walk(vs, cs)]
                    graph.is_walk(vs, cs) && vs[0] == start && vs.last() == end ==> p.cost
                        <= walk_cost(cs)
                &&& (start == end ==> p.path@ =~= seq![start] && p.distance@ =~= seq![0usize]
                    && p.cost == 0)
            },
            None => {
                &&& start != end
                &&& forall|vs: Seq<usize>, cs: Seq<usize>|
                    #![trigger graph.is_walk(vs, cs)]
                    graph.is_walk(vs, cs) && vs[0] == start && vs.last() == end ==> walk_cost(cs)
                        > usize::MAX
            },
        },
{
    if start == end {
        let mut path: Vec<usize> = Vec::new();
        let mut dist: Vec<usize> = Vec::new();
        path.push(start);
        dist.push(0);
        proof {
            assert forall|vs: Seq<usize>, cs: Seq<usize>|
                graph.is_walk(vs, cs) && vs[0] == start && vs.last() == end implies 0
                <= walk_cost(cs) by {
                lemma_walk_cost_nonneg(cs);
            }
        }
        return Some(Path { path, distance: dist, cost: 0 });
    }

    let (distance, parent, rk_ghost) = run_relaxation(graph, start);
    let ghost rk = rk_ghost@;

    proof {
        lemma_no_better_walk(*graph, start, end, distance@);
    }
    match distance[end] {
        None => {
            None
        },
        Some(total) => {
            let mut rpath: Vec<usize> = Vec::new();
            let mut rdist: Vec<usize> = Vec::new();
            let mut cur = end;
            rpath.push(end);
            rdist.push(total);
            while parent[cur].is_some()
                invariant
                    cur < graph.vertex_count(),
                    distance@[cur as int] is Some,
                    rpath@.len() == rdist@.len(),
                    rpath@.len() >= 1,
                    rpath@[0] == end,
                    rdist@[0] == total,
                    rpath@.last() == cur,
                    rdist@.last() == distance@[cur as int].unwrap(),
                    forall|j: int|
                        0 <= j < rpath@.len() ==> (#[trigger] rpath@[j]) < graph.vertex_count(),
                    forall|j: int|
                        #![trigger rpath@[j]]
                        0 <= j < rpath@.len() ==> distance@[rpath@[j] as int] is Some && rdist@[j]
                            == distance@[rpath@[j] as int].unwrap(),
                    forall|j: int|
                        #![trigger rpath@[j]]
                        0 <= j < rpath@.len() - 1 ==> rpath@[j + 1] != rpath@[j] && rdist@[j + 1]
                            <= rdist@[j] && graph.edge_between(
                            rpath@[j + 1] as int,
                            rpath@[j] as int,
                            rdist@[j] - rdist@[j + 1],
                        ),
                decreases distance@[cur as int].unwrap(), rk[cur as int],
            {
                let p = parent[cur].unwrap();
                proof {
                    assert(parent_edge_ok(*graph, distance@, rk, cur as int, p as int));
                    let k = choose|k: int|
                        0 <= k < graph.adj()[p as int].len() && (#[trigger] graph.adj()[p as
                            int][k]).node == cur as int && distance@[p as int].unwrap()
                            + graph.adj()[p as int][k].cost <= distance@[cur as int].unwrap();
                    assert(vertex_settled(*graph, distance@, p as int));
                    assert(edge_settled(*graph, distance@, p as int, k));
                    assert(distance@[cur as int].unwrap() == distance@[p as int].unwrap()
                        + graph.adj()[p as int][k].cost);
                    assert(graph.edge_between(
                        p as int,
                        cur as int,
                        distance@[cur as int].unwrap() - distance@[p as int].unwrap(),
                    ));
                }
                cur = p;
                rpath.push(cur);
                rdist.push(distance[cur].unwrap());
            }
            proof {
                assert(cur == start);
                assert(rdist@.last() == 0);
            }
            let path = reversed(&rpath);
            let dist = reversed(&rdist);
            let result = Path { path, distance: dist, cost: total };
            proof {
                lemma_reverse_valid(
                    *graph,
                    start,
                    end,
                    total,
                    rpath@,
                    rdist@,
                    result.path@,
                    result.distance@,
                );
                assert(result.valid(*graph, start, end));
            }
            Some(result)
        },
    }
}

} // verus!
