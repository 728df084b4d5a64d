//! The two player roles, each a closed choice between the uniform-random
//! player and the MENACE learner. The game's state machine drives either
//! through the same start / step / end shape.

use vstd::prelude::*;

use crate::bag::MAX_BAG_SIZE;
use crate::graph::Graph;
use crate::menace::{spec_apply_log, MenaceCop, MenaceRobber};
use crate::random::{RandomCop, RandomRobber};
use crate::util::{lemma_pow_monotonic_base, spec_pow};

verus! {

/// Which player a role uses.
#[derive(Debug, PartialEq, Eq, Clone, Copy, Structural)]
pub enum Algorithm {
    Random,
    Menace,
}

/// A cop player.
pub enum Cop {
    Random(RandomCop),
    Menace(MenaceCop),
}

/// A robber player.
pub enum Robber {
    Random(RandomRobber),
    Menace(MenaceRobber),
}

impl Cop {
    /// How many cop tokens this player controls.
    pub open spec fn cop_count(&self) -> u8 {
        match self {
            Cop::Random(c) => c.cop_count(),
            Cop::Menace(c) => c.cop_count(),
        }
    }

    pub open spec fn wf(&self) -> bool {
        match self {
            Cop::Random(_) => true,
            Cop::Menace(c) => c.wf(),
        }
    }

    /// The graph is small enough for this player's largest bag.
    pub open spec fn fits(&self, g: Graph) -> bool {
        match self {
            Cop::Random(_) => true,
            Cop::Menace(c) => spec_pow((g.vertex_count() + 1) as nat, c.cop_count() as nat)
                <= MAX_BAG_SIZE,
        }
    }

    pub fn new(algorithm: Algorithm, number_of_cops: u8) -> (c: Cop)
        ensures
            c.wf(),
            c.cop_count() == number_of_cops,
            (c is Random) <==> algorithm == Algorithm::Random,
            c matches Cop::Menace(m) ==> m.table() == Map::<
                Option<(Seq<usize>, usize)>,
                Seq<u32>,
            >::empty() && m.log() == Seq::<(Option<(Seq<usize>, usize)>, int)>::empty(),
    {
        match algorithm {
            Algorithm::Random => Cop::Random(RandomCop::new(number_of_cops)),
            Algorithm::Menace => Cop::Menace(MenaceCop::new(number_of_cops)),
        }
    }

    /// Chooses the cops' starting vertices.
    pub fn start(&mut self, graph: &Graph) -> (positions: Vec<usize>)
        requires
            old(self).wf(),
            graph.wf(),
            old(self).fits(*graph),
        ensures
            final(self).wf(),
            final(self).cop_count() == old(self).cop_count(),
            ((*final(self)) is Random) == ((*old(self)) is Random),
            (*old(self)) matches Cop::Menace(m) ==> ((*final(self)) matches Cop::Menace(m2)
                && m2.log().len() == m.log().len() + 1 && m2.log().drop_last() == m.log()),
            positions@.len() == old(self).cop_count(),
            forall|i: int|
                0 <= i < positions@.len() ==> graph.valid_vertex(#[trigger] positions@[i] as int),
    {
        match self {
            Cop::Random(c) => c.start(graph),
            Cop::Menace(c) => {
                proof {
                    lemma_pow_monotonic_base(
                        graph.vertex_count() as nat,
                        (graph.vertex_count() + 1) as nat,
                        c.cop_count() as nat,
                    );
                }
                c.start(graph)
            },
        }
    }

    /// Chooses the cops' next vertices: each cop stays put or moves to one
    /// of its neighbours.
    pub fn step(
        &mut self,
        graph: &Graph,
        cop_positions: &Vec<usize>,
        robber_position: usize,
    ) -> (positions: Vec<usize>)
        requires
            old(self).wf(),
            graph.wf(),
            old(self).fits(*graph),
            forall|i: int|
                0 <= i < cop_positions@.len() ==> graph.valid_vertex(
                    #[trigger] cop_positions@[i] as int,
                ),
            cop_positions@.len() == old(self).cop_count(),
        ensures
            final(self).wf(),
            final(self).cop_count() == old(self).cop_count(),
            ((*final(self)) is Random) == ((*old(self)) is Random),
            (*old(self)) matches Cop::Menace(m) ==> ((*final(self)) matches Cop::Menace(m2)
                && m2.log().len() == m.log().len() + 1 && m2.log().drop_last() == m.log()),
            positions@.len() == cop_positions@.len(),
            forall|i: int|
                0 <= i < positions@.len() ==> #[trigger] positions@[i] == cop_positions@[i]
                    || graph.nbrs(cop_positions@[i] as int).contains(positions@[i]),
            forall|i: int|
                0 <= i < positions@.len() ==> graph.valid_vertex(#[trigger] positions@[i] as int),
    {
        match self {
            Cop::Random(c) => c.step(graph, cop_positions, robber_position),
            Cop::Menace(c) => c.step(graph, cop_positions, robber_position),
        }
    }

    /// Tells the player the game is over. A random cop ignores it; a
    /// learner rewards its logged moves if the cops won — the robber's
    /// final vertex is one of theirs — and penalizes them otherwise, then
    /// clears its log.
    pub fn end(&mut self, graph: &Graph, cop_positions: &Vec<usize>, robber_position: usize)
        requires
            old(self).wf(),
        ensures
            final(self).wf(),
            final(self).cop_count() == old(self).cop_count(),
            ((*final(self)) is Random) == ((*old(self)) is Random),
            (*old(self)) is Random ==> *final(self) == *old(self),
            (*old(self)) matches Cop::Menace(m) ==> (*final(self)) matches Cop::Menace(m2)
                && m2.table() == spec_apply_log(
                m.table(),
                m.log(),
                cop_positions@.contains(robber_position),
            ) && m2.log().len() == 0,
    {
        match self {
            Cop::Random(_) => {
            },
            Cop::Menace(c) => c.end(graph, cop_positions, robber_position),
        }
    }
}

impl Robber {
    pub open spec fn wf(&self) -> bool {
        match self {
            Robber::Random(_) => true,
            Robber::Menace(r) => r.wf(),
        }
    }

    /// The graph is small enough for this player's largest bag.
    pub open spec fn fits(&self, g: Graph) -> bool {
        match self {
            Robber::Random(_) => true,
            Robber::Menace(_) => g.vertex_count() < MAX_BAG_SIZE,
        }
    }

    /// A learner's bags are sized to the graph the game is played on.
    pub open spec fn sized_for(&self, g: Graph) -> bool {
        match self {
            Robber::Random(_) => true,
            Robber::Menace(r) => r.sized_for(g),
        }
    }

    pub fn new(algorithm: Algorithm) -> (r: Robber)
        ensures
            r.wf(),
            (r is Random) <==> algorithm == Algorithm::Random,
            forall|g: Graph| #[trigger] r.sized_for(g),
            r matches Robber::Menace(m) ==> m.table() == Map::<
                (Seq<usize>, Option<usize>),
                Seq<u32>,
            >::empty() && m.log() == Seq::<((Seq<usize>, Option<usize>), int)>::empty(),
    {
        match algorithm {
            Algorithm::Random => Robber::Random(RandomRobber::new()),
            Algorithm::Menace => Robber::Menace(MenaceRobber::new()),
        }
    }

    /// Chooses the robber's starting vertex.
    pub fn start(&mut self, graph: &Graph, cop_positions: &Vec<usize>) -> (position: usize)
        requires
            old(self).wf(),
            graph.wf(),
            old(self).fits(*graph),
            old(self).sized_for(*graph),
        ensures
            final(self).wf(),
            ((*final(self)) is Random) == ((*old(self)) is Random),
            (*old(self)) matches Robber::Menace(m) ==> ((*final(self)) matches Robber::Menace(m2)
                && m2.log().len() == m.log().len() + 1 && m2.log().drop_last() == m.log()),
            final(self).sized_for(*graph),
            graph.valid_vertex(position as int),
    {
        match self {
            Robber::Random(r) => r.start(graph, cop_positions),
            Robber::Menace(r) => r.start(graph, cop_positions),
        }
    }

    /// Chooses the robber's next vertex: it stays put or moves to a
    /// neighbour.
    pub fn step(
        &mut self,
        graph: &Graph,
        cop_positions: &Vec<usize>,
        robber_position: usize,
    ) -> (position: usize)
        requires
            old(self).wf(),
            graph.wf(),
            old(self).fits(*graph),
            old(self).sized_for(*graph),
            graph.valid_vertex(robber_position as int),
        ensures
            final(self).wf(),
            ((*final(self)) is Random) == ((*old(self)) is Random),
            (*old(self)) matches Robber::Menace(m) ==> ((*final(self)) matches Robber::Menace(m2)
                && m2.log().len() == m.log().len() + 1 && m2.log().drop_last() == m.log()),
            final(self).sized_for(*graph),
            position == robber_position || graph.nbrs(robber_position as int).contains(position),
            graph.valid_vertex(position as int),
    {
        match self {
            Robber::Random(r) => r.step(graph, cop_positions, robber_position),
            Robber::Menace(r) => r.step(graph, cop_positions, robber_position),
        }
    }

    /// Tells the player the game is over. A random robber ignores it; a
    /// learner rewards its logged moves if the robber won — its final
    /// vertex is on no cop's — and penalizes them otherwise, then clears
    /// its log.
    pub fn end(&mut self, graph: &Graph, cop_positions: &Vec<usize>, robber_position: usize)
        requires
            old(self).wf(),
        ensures
            final(self).wf(),
            ((*final(self)) is Random) == ((*old(self)) is Random),
            (*old(self)) is Random ==> *final(self) == *old(self),
            (*old(self)) matches Robber::Menace(m) ==> (*final(self)) matches Robber::Menace(m2)
                && m2.table() == spec_apply_log(
                m.table(),
                m.log(),
                !cop_positions@.contains(robber_position),
            ) && m2.log().len() == 0,
            forall|g: Graph| old(self).sized_for(g) ==> #[trigger] final(self).sized_for(g),
    {
        match self {
            Robber::Random(_) => {
            },
            Robber::Menace(r) => r.end(graph, cop_positions, robber_position),
        }
    }
}

} // verus!
