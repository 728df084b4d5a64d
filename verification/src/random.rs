//! The uniform-random strategies: every placement is drawn uniformly over
//! the vertices, and every move is drawn uniformly over "stay here" and the
//! current vertex's neighbours. Random players never learn.

use vstd::prelude::*;

use crate::graph::Graph;
use crate::rng::{random_below, uniform_vertex};

verus! {

/// A cop player that moves at random.
pub struct RandomCop {
    number_of_cops: u8,
}

impl RandomCop {
    /// How many cop tokens this player controls.
    pub closed spec fn cop_count(&self) -> u8 {
        self.number_of_cops
    }

    pub fn new(number_of_cops: u8) -> (c: RandomCop)
        ensures
            c.cop_count() == number_of_cops,
    {
        RandomCop { number_of_cops }
    }

    /// Places every cop on a uniformly drawn vertex.
    pub fn start(&mut self, graph: &Graph) -> (positions: Vec<usize>)
        requires
            graph.wf(),
        ensures
            *final(self) == *old(self),
            positions@.len() == old(self).cop_count(),
            forall|i: int|
                0 <= i < positions@.len() ==> graph.valid_vertex(#[trigger] positions@[i] as int),
    {
        let n = graph.adjacency_list.len();
        let mut positions: Vec<usize> = Vec::new();
        let count = self.number_of_cops;
        let mut c: u8 = 0;
        while c < count
            invariant
                n == graph.vertex_count(),
                n >= 1,
                c <= count,
                positions@.len() == c,
                forall|i: int|
                    0 <= i < positions@.len() ==> graph.valid_vertex(
                        #[trigger] positions@[i] as int,
                    ),
            decreases count - c,
        {
            positions.push(uniform_vertex(n));
            c = c + 1;
        }
        positions
    }

    /// Moves every cop to a uniformly drawn choice among staying put and the
    /// cop's neighbours.
    pub fn step(
        &mut self,
        graph: &Graph,
        cop_positions: &Vec<usize>,
        _robber_position: usize,
    ) -> (positions: Vec<usize>)
        requires
            graph.wf(),
            forall|i: int|
                0 <= i < cop_positions@.len() ==> graph.valid_vertex(
                    #[trigger] cop_positions@[i] as int,
                ),
        ensures
            *final(self) == *old(self),
            positions@.len() == cop_positions@.len(),
            forall|i: int|
                0 <= i < positions@.len() ==> #[trigger] positions@[i] == cop_positions@[i]
                    || graph.nbrs(cop_positions@[i] as int).contains(positions@[i]),
            forall|i: int|
                0 <= i < positions@.len() ==> graph.valid_vertex(#[trigger] positions@[i] as int),
    {
        let mut positions: Vec<usize> = Vec::new();
        let mut i: usize = 0;
        while i < cop_positions.len()
            invariant
                graph.wf(),
                forall|k: int|
                    0 <= k < cop_positions@.len() ==> graph.valid_vertex(
                        #[trigger] cop_positions@[k] as int,
                    ),
                i <= cop_positions@.len(),
                positions@.len() == i,
                forall|k: int|
                    0 <= k < i ==> #[trigger] positions@[k] == cop_positions@[k] || graph.nbrs(
                        cop_positions@[k] as int,
                    ).contains(positions@[k]),
                forall|k: int|
                    0 <= k < i ==> graph.valid_vertex(#[trigger] positions@[k] as int),
            decreases cop_positions@.len() - i,
        {
            let cop_position = cop_positions[i];
            let neighbours = &graph.adjacency_list[cop_position];
            proof {
                graph.lemma_degree_bounded(cop_position as int);
            }
            // Drawing the neighbour count itself means "stay"; any smaller
            // value names the neighbour to move to.
            let new_position = random_below(neighbours.len() + 1);
            if new_position == neighbours.len() {
                positions.push(cop_position);
            } else {
                positions.push(neighbours[new_position]);
            }
            i = i + 1;
        }
        positions
    }
}

/// A robber player that moves at random.
pub struct RandomRobber {}

impl RandomRobber {
    pub fn new() -> (r: RandomRobber) {
        RandomRobber {  }
    }

    /// Places the robber on a uniformly drawn vertex.
    pub fn start(&mut self, graph: &Graph, _cop_positions: &Vec<usize>) -> (position: usize)
        requires
            graph.wf(),
        ensures
            *final(self) == *old(self),
            graph.valid_vertex(position as int),
    {
        let n = graph.adjacency_list.len();
        random_below(n)
    }

    /// Moves the robber to a uniformly drawn choice among staying put and
    /// the current vertex's neighbours.
    pub fn step(
        &mut self,
        graph: &Graph,
        _cop_positions: &Vec<usize>,
        robber_position: usize,
    ) -> (position: usize)
        requires
            graph.wf(),
            graph.valid_vertex(robber_position as int),
        ensures
            *final(self) == *old(self),
            position == robber_position || graph.nbrs(robber_position as int).contains(position),
            graph.valid_vertex(position as int),
    {
        let neighbours = &graph.adjacency_list[robber_position];
        proof {
            graph.lemma_degree_bounded(robber_position as int);
        }
        let new_position = random_below(neighbours.len() + 1);
        if new_position == neighbours.len() {
            robber_position
        } else {
            neighbours[new_position]
        }
    }
}

} // verus!
