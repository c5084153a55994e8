//! The graph store: vertex names in first-seen order, one adjacency list per
//! vertex, and an undirected edge kept as two directed entries.

use vstd::prelude::*;

verus! {

/// One directed adjacency entry: the neighbor's index and the cost of the
/// step to it.
#[derive(Clone, Copy, PartialEq, Eq, Structural, Debug)]
pub struct Edge {
    pub node: usize,
    pub cost: usize,
}

/// An undirected weighted graph.  `nodes[i]` is the display name of vertex
/// `i`; `list[i]` holds the directed entries leaving vertex `i`.  Adding an
/// undirected edge appends one entry to each endpoint's list.
#[derive(Debug)]
pub struct Graph {
    pub nodes: Vec<String>,
    pub list: Vec<Vec<Edge>>,
}

impl Graph {
    /// The number of vertices.
    pub open spec fn vertex_count(self) -> nat {
        self.nodes@.len()
    }

    /// The vertex names as character sequences, in index order.
    pub open spec fn names(self) -> Seq<Seq<char>> {
        self.nodes@.map_values(|s: String| s@)
    }

    /// The adjacency lists as sequences.
    pub open spec fn adj(self) -> Seq<Seq<Edge>> {
        self.list@.map_values(|v: Vec<Edge>| v@)
    }

    /// Well-formed: the name and adjacency sequences are aligned, every
    /// neighbor index is in range, and no name appears twice.
    pub open spec fn wf(self) -> bool {
        &&& self.list@.len() == self.nodes@.len()
        &&& forall|u: int, k: int|
            0 <= u < self.adj().len() && 0 <= k < self.adj()[u].len()
                ==> (#[trigger] self.adj()[u][k]).node < self.vertex_count()
        &&& forall|i: int, j: int|
            #![trigger self.names()[i], self.names()[j]]
            0 <= i < j < self.names().len() ==> self.names()[i] != self.names()[j]
    }

    /// Some adjacency entry of `u` points at `v` and costs `c`.
    pub open spec fn edge_between(self, u: int, v: int, c: int) -> bool {
        exists|k: int|
            0 <= k < self.adj()[u].len() && (#[trigger] self.adj()[u][k]).node == v
                && self.adj()[u][k].cost == c
    }

    /// `vs` lists the vertices of a walk and `cs` the cost of each step, so
    /// step `i` goes from `vs[i]` to `vs[i + 1]` along an edge of cost
    /// `cs[i]`.
    pub open spec fn is_walk(self, vs: Seq<usize>, cs: Seq<usize>) -> bool {
        &&& vs.len() >= 1
        &&& cs.len() == vs.len() - 1
        &&& forall|i: int| 0 <= i < vs.len() ==> (#[trigger] vs[i]) < self.vertex_count()
        &&& forall|i: int|
            0 <= i < cs.len()
                ==> #[trigger] self.edge_between(vs[i] as int, vs[i + 1] as int, cs[i] as int)
    }

    /// An empty graph.
    pub fn new() -> (g: Graph)
        ensures
            g.wf(),
            g.vertex_count() == 0,
            g.names() =~= Seq::<Seq<char>>::empty(),
            g.adj() =~= Seq::<Seq<Edge>>::empty(),
    {
        Graph { nodes: Vec::new(), list: Vec::new() }
    }

    /// The display name of vertex `i`, or nothing when `i` is out of range.
    pub fn get_node_name(&self, i: usize) -> (r: Option<&str>)
        ensures
            match r {
                Some(name) => i < self.vertex_count() && name@ == self.names()[i as int],
                None => i >= self.vertex_count(),
            },
    {
        if i < self.nodes.len() {
            Some(self.nodes[i].as_str())
        } else {
            None
        }
    }

    /// The index of the vertex named `name`, or nothing when no vertex
    /// carries that name.  The scan runs in first-seen order, so the least
    /// matching index is returned.
    #[verifier::loop_isolation(false)]
    pub fn get_node(&mut self, name: &str) -> (r: Option<usize>)
        ensures
            final(self).nodes@ == old(self).nodes@,
            final(self).list@ == old(self).list@,
            match r {
                Some(i) => {
                    &&& i < final(self).vertex_count()
                    &&& final(self).names()[i as int] == name@
                    &&& forall|j: int| 0 <= j < i ==> final(self).names()[j] != name@
                },
                None => forall|j: int|
                    0 <= j < final(self).names().len() ==> final(self).names()[j] != name@,
            },
    {
        let target: String = name.to_owned();
        let mut j: usize = 0;
        while j < self.nodes.len()
            invariant
                j <= self.nodes@.len(),
                forall|t: int| 0 <= t < j ==> self.names()[t] != name@,
            decreases self.nodes@.len() - j,
        {
            if self.nodes[j] == target {
                assert(self.names()[j as int] == name@);
                return Some(j);
            }
            assert(self.names()[j as int] != name@);
            j += 1;
        }
        None
    }

    /// The index of the vertex named `name`; when the name is new, a vertex
    /// with that name and an empty adjacency list is appended and its index
    /// returned.
    pub fn get_or_insert_node(&mut self, name: &str) -> (i: usize)
        requires
            old(self).wf(),
        ensures
            final(self).wf(),
            i < final(self).vertex_count(),
            final(self).names()[i as int] == name@,
            old(self).names().contains(name@) ==> {
                &&& final(self).nodes@ == old(self).nodes@
                &&& final(self).list@ == old(self).list@
                &&& i < old(self).vertex_count()
            },
            !old(self).names().contains(name@) ==> {
                &&& i == old(self).vertex_count()
                &&& final(self).names() =~= old(self).names().push(name@)
                &&& final(self).adj() =~= old(self).adj().push(Seq::<Edge>::empty())
            },
    {
        match self.get_node(name) {
            Some(n) => {
                proof {
                    assert(old(self).names()[n as int] == name@);
                    assert(old(self).names().contains(name@));
                }
                n
            },
            None => {
                let ret = self.nodes.len();
                proof {
                    assert(self.names() == old(self).names());
                    if old(self).names().contains(name@) {
                        let j = choose|j: int|
                            0 <= j < old(self).names().len() && old(self).names()[j] == name@;
                        assert(self.names()[j] != name@);
                        assert(false);
                    }
                }
                self.nodes.push(name.to_owned());
                self.list.push(Vec::new());
                proof {
                    assert(self.names() =~= old(self).names().push(name@));
                    assert(self.adj() =~= old(self).adj().push(Seq::<Edge>::empty()));
                }
                ret
            },
        }
    }

    /// Appends the entry `(dest, cost)` to `src`'s list and `(src, cost)` to
    /// `dest`'s list.  Nothing is deduplicated; `src == dest` is tolerated
    /// and then appends both entries to the one list.
    pub fn add_bidirectional_edge(&mut self, src: usize, dest: usize, cost: usize)
        requires
            old(self).wf(),
            src < old(self).vertex_count(),
            dest < old(self).vertex_count(),
        ensures
            final(self).wf(),
            final(self).nodes@ == old(self).nodes@,
            final(self).adj() =~= {
                let half = old(self).adj().update(
                    src as int,
                    old(self).adj()[src as int].push(Edge { node: dest, cost }),
                );
                half.update(dest as int, half[dest as int].push(Edge { node: src, cost }))
            },
    {
        self.list[src].push(Edge { node: dest, cost });
        self.list[dest].push(Edge { node: src, cost });
        proof {
            let gold = old(self).adj();
            let half = gold.update(
                src as int,
                gold[src as int].push(Edge { node: dest, cost }),
            );
            let full = half.update(
                dest as int,
                half[dest as int].push(Edge { node: src, cost }),
            );
            assert(self.adj() =~= full);
            assert(self.names() == old(self).names());
            assert forall|u: int, k: int|
                0 <= u < self.adj().len() && 0 <= k < self.adj()[u].len()
                implies (#[trigger] self.adj()[u][k]).node < self.vertex_count() by {
                let e = self.adj()[u][k];
                if u == dest as int && k == self.adj()[u].len() - 1 {
                    assert(e == Edge { node: src, cost });
                } else if u == src as int && src != dest && k == self.adj()[u].len() - 1 {
                    assert(e == Edge { node: dest, cost });
                } else if u == src as int && src == dest && k == self.adj()[u].len() - 2 {
                    assert(e == Edge { node: dest, cost });
                } else {
                    assert(e == old(self).adj()[u][k]);
                    assert(e.node < old(self).vertex_count());
                }
            }
        }
    }
}

} // verus!
