//! The immutable game board: a finite undirected graph given by its
//! adjacency lists. Vertices are identified by the indices `0..vertex_count()`.

use vstd::prelude::*;
use vstd::string::StringExecFns;

use crate::util::lemma_distinct_bounded_len;

verus! {

pub struct Graph {
    pub name: String,
    pub adjacency_list: Vec<Vec<usize>>,
}

impl Graph {
    /// Number of vertices.
    pub open spec fn vertex_count(&self) -> int {
        self.adjacency_list@.len() as int
    }

    /// The neighbour list of vertex `v`.
    pub open spec fn nbrs(&self, v: int) -> Seq<usize> {
        self.adjacency_list@[v]@
    }

    /// `v` names a vertex of this graph.
    pub open spec fn valid_vertex(&self, v: int) -> bool {
        0 <= v < self.vertex_count()
    }

    /// Well-formed: at least one vertex (and few enough that a move list of
    /// "stay plus all neighbours" can be counted in a `usize`); every
    /// neighbour entry names a vertex; each neighbour list holds distinct
    /// entries; adjacency is symmetric.
    pub open spec fn wf(&self) -> bool {
        &&& 1 <= self.vertex_count() < usize::MAX
        &&& forall|v: int, k: int|
            0 <= v < self.vertex_count() && 0 <= k < self.nbrs(v).len() ==> (#[trigger] self.nbrs(
                v,
            )[k]) < self.vertex_count()
        &&& forall|v: int, k: int, l: int|
            #![trigger self.nbrs(v)[k], self.nbrs(v)[l]]
            0 <= v < self.vertex_count() && 0 <= k < self.nbrs(v).len() && 0 <= l < self.nbrs(
                v,
            ).len() && k != l ==> self.nbrs(v)[k] != self.nbrs(v)[l]
        &&& forall|v: int, k: int|
            0 <= v < self.vertex_count() && 0 <= k < self.nbrs(v).len() ==> self.nbrs(
                (#[trigger] self.nbrs(v)[k]) as int,
            ).contains(v as usize)
    }

    /// In a well-formed graph a vertex has at most `vertex_count()`
    /// neighbours, since its neighbour list holds distinct vertices.
    pub proof fn lemma_degree_bounded(&self, v: int)
        requires
            self.wf(),
            self.valid_vertex(v),
        ensures
            self.nbrs(v).len() <= self.vertex_count(),
    {
        lemma_distinct_bounded_len(self.nbrs(v), self.vertex_count());
    }

    /// Decides well-formedness, so that unverified callers can test a graph
    /// before starting a game on it.
    pub fn check_valid(&self) -> (r: bool)
        ensures
            r == self.wf(),
    {
        let n = self.adjacency_list.len();
        if n == 0 || n == usize::MAX {
            return false;
        }
        let mut v: usize = 0;
        while v < n
            invariant
                n == self.vertex_count(),
                v <= n,
                forall|v0: int, k: int|
                    0 <= v0 < v && 0 <= k < self.nbrs(v0).len() ==> (#[trigger] self.nbrs(v0)[k])
                        < n,
                forall|v0: int, k: int, l: int|
                    #![trigger self.nbrs(v0)[k], self.nbrs(v0)[l]]
                    0 <= v0 < v && 0 <= k < self.nbrs(v0).len() && 0 <= l < self.nbrs(v0).len() && k
                        != l ==> self.nbrs(v0)[k] != self.nbrs(v0)[l],
                forall|v0: int, k: int|
                    0 <= v0 < v && 0 <= k < self.nbrs(v0).len() ==> self.nbrs(
                        (#[trigger] self.nbrs(v0)[k]) as int,
                    ).contains(v0 as usize),
            decreases n - v,
        {
            let row = &self.adjacency_list[v];
            let d = row.len();
            let mut k: usize = 0;
            while k < d
                invariant
                    n == self.vertex_count(),
                    v < n,
                    d == self.nbrs(v as int).len(),
                    row@ == self.nbrs(v as int),
                    k <= d,
                    forall|k0: int|
                        0 <= k0 < k ==> (#[trigger] self.nbrs(v as int)[k0]) < n,
                    forall|k0: int, l: int|
                        #![trigger self.nbrs(v as int)[k0], self.nbrs(v as int)[l]]
                        0 <= k0 < k && k0 < l < d ==> self.nbrs(v as int)[k0] != self.nbrs(
                            v as int,
                        )[l],
                    forall|k0: int|
                        0 <= k0 < k ==> self.nbrs(
                            (#[trigger] self.nbrs(v as int)[k0]) as int,
                        ).contains(v),
                decreases d - k,
            {
                let w = row[k];
                if w >= n {
                    return false;
                }
                let mut l: usize = k + 1;
                while l < d
                    invariant
                        n == self.vertex_count(),
                        v < n,
                        d == self.nbrs(v as int).len(),
                        row@ == self.nbrs(v as int),
                        k < l,
                        l <= d,
                        w == self.nbrs(v as int)[k as int],
                        forall|l0: int|
                            k < l0 < l ==> self.nbrs(v as int)[l0] != w,
                    decreases d - l,
                {
                    if row[l] == w {
                        proof {
                            assert(self.nbrs(v as int)[k as int] == self.nbrs(v as int)[l as int]);
                        }
                        return false;
                    }
                    l = l + 1;
                }
                if !crate::util::vec_contains_usize(&self.adjacency_list[w], v) {
                    return false;
                }
                k = k + 1;
            }
            proof {
                assert forall|k0: int, l: int|
                    #![trigger self.nbrs(v as int)[k0], self.nbrs(v as int)[l]]
                    0 <= k0 < d && 0 <= l < d && k0 != l implies self.nbrs(v as int)[k0]
                    != self.nbrs(v as int)[l] by {
                    if k0 < l {
                        assert(self.nbrs(v as int)[k0] != self.nbrs(v as int)[l]);
                    } else {
                        assert(self.nbrs(v as int)[l] != self.nbrs(v as int)[k0]);
                    }
                }
            }
            v = v + 1;
        }
        true
    }
}

/// The two-vertex path graph.
fn path2() -> (g: Graph)
    ensures
        g.wf(),
        g.name@ == "Path2"@,
        g.vertex_count() == 2,
        g.nbrs(0) == seq![1usize],
        g.nbrs(1) == seq![0usize],
{
    let g = Graph { name: String::from_str("Path2"), adjacency_list: vec![vec![1], vec![0]] };
    proof {
        assert(g.nbrs(0) =~= seq![1usize]);
        assert(g.nbrs(1) =~= seq![0usize]);
        assert forall|v: int, k: int|
            0 <= v < g.vertex_count() && 0 <= k < g.nbrs(v).len() implies g.nbrs(
            (#[trigger] g.nbrs(v)[k]) as int,
        ).contains(v as usize) by {
            if v == 0 {
                assert(g.nbrs(1)[0] == 0usize);
            } else {
                assert(g.nbrs(0)[0] == 1usize);
            }
        }
    }
    g
}

/// The five-vertex path graph.
fn path5() -> (g: Graph)
    ensures
        g.wf(),
        g.name@ == "Path5"@,
        g.vertex_count() == 5,
        g.nbrs(0) == seq![1usize],
        g.nbrs(1) == seq![0usize, 2usize],
        g.nbrs(2) == seq![1usize, 3usize],
        g.nbrs(3) == seq![2usize, 4usize],
        g.nbrs(4) == seq![3usize],
{
    let g = Graph {
        name: String::from_str("Path5"),
        adjacency_list: vec![vec![1], vec![0, 2], vec![1, 3], vec![2, 4], vec![3]],
    };
    proof {
        assert(g.nbrs(0) =~= seq![1usize]);
        assert(g.nbrs(1) =~= seq![0usize, 2usize]);
        assert(g.nbrs(2) =~= seq![1usize, 3usize]);
        assert(g.nbrs(3) =~= seq![2usize, 4usize]);
        assert(g.nbrs(4) =~= seq![3usize]);
        assert forall|v: int, k: int|
            0 <= v < g.vertex_count() && 0 <= k < g.nbrs(v).len() implies g.nbrs(
            (#[trigger] g.nbrs(v)[k]) as int,
        ).contains(v as usize) by {
            assert(g.nbrs(0)[0] == 1usize);
            assert(g.nbrs(1)[0] == 0usize);
            assert(g.nbrs(1)[1] == 2usize);
            assert(g.nbrs(2)[0] == 1usize);
            assert(g.nbrs(2)[1] == 3usize);
            assert(g.nbrs(3)[0] == 2usize);
            assert(g.nbrs(3)[1] == 4usize);
            assert(g.nbrs(4)[0] == 3usize);
        }
    }
    g
}

/// The six-vertex cycle graph.
fn hexagon() -> (g: Graph)
    ensures
        g.wf(),
        g.name@ == "Hexagon"@,
        g.vertex_count() == 6,
        g.nbrs(0) == seq![5usize, 1usize],
        g.nbrs(1) == seq![0usize, 2usize],
        g.nbrs(2) == seq![1usize, 3usize],
        g.nbrs(3) == seq![2usize, 4usize],
        g.nbrs(4) == seq![3usize, 5usize],
        g.nbrs(5) == seq![4usize, 0usize],
{
    let g = Graph {
        name: String::from_str("Hexagon"),
        adjacency_list: vec![
            vec![5, 1],
            vec![0, 2],
            vec![1, 3],
            vec![2, 4],
            vec![3, 5],
            vec![4, 0],
        ],
    };
    proof {
        assert(g.nbrs(0) =~= seq![5usize, 1usize]);
        assert(g.nbrs(1) =~= seq![0usize, 2usize]);
        assert(g.nbrs(2) =~= seq![1usize, 3usize]);
        assert(g.nbrs(3) =~= seq![2usize, 4usize]);
        assert(g.nbrs(4) =~= seq![3usize, 5usize]);
        assert(g.nbrs(5) =~= seq![4usize, 0usize]);
        assert forall|v: int, k: int|
            0 <= v < g.vertex_count() && 0 <= k < g.nbrs(v).len() implies g.nbrs(
            (#[trigger] g.nbrs(v)[k]) as int,
        ).contains(v as usize) by {
            assert(g.nbrs(0)[0] == 5usize && g.nbrs(0)[1] == 1usize);
            assert(g.nbrs(1)[0] == 0usize && g.nbrs(1)[1] == 2usize);
            assert(g.nbrs(2)[0] == 1usize && g.nbrs(2)[1] == 3usize);
            assert(g.nbrs(3)[0] == 2usize && g.nbrs(3)[1] == 4usize);
            assert(g.nbrs(4)[0] == 3usize && g.nbrs(4)[1] == 5usize);
            assert(g.nbrs(5)[0] == 4usize && g.nbrs(5)[1] == 0usize);
        }
    }
    g
}

/// The built-in boards a front end offers: a two-vertex path, a five-vertex
/// path, and a six-vertex cycle.
pub fn template_graphs() -> (r: Vec<Graph>)
    ensures
        r@.len() == 3,
        r@[0].wf() && r@[1].wf() && r@[2].wf(),
        r@[0].name@ == "Path2"@ && r@[0].vertex_count() == 2,
        r@[0].nbrs(0) == seq![1usize] && r@[0].nbrs(1) == seq![0usize],
        r@[1].name@ == "Path5"@ && r@[1].vertex_count() == 5,
        r@[1].nbrs(0) == seq![1usize] && r@[1].nbrs(1) == seq![0usize, 2usize],
        r@[1].nbrs(2) == seq![1usize, 3usize] && r@[1].nbrs(3) == seq![2usize, 4usize],
        r@[1].nbrs(4) == seq![3usize],
        r@[2].name@ == "Hexagon"@ && r@[2].vertex_count() == 6,
        r@[2].nbrs(0) == seq![5usize, 1usize] && r@[2].nbrs(1) == seq![0usize, 2usize],
        r@[2].nbrs(2) == seq![1usize, 3usize] && r@[2].nbrs(3) == seq![2usize, 4usize],
        r@[2].nbrs(4) == seq![3usize, 5usize] && r@[2].nbrs(5) == seq![4usize, 0usize],
{
    let mut r: Vec<Graph> = Vec::new();
    r.push(path2());
    r.push(path5());
    r.push(hexagon());
    r
}

} // verus!
