//! The turn state machine: one `Game` owns the board, the two players and
//! the running score, and plays an unbounded sequence of pursuit games,
//! one half-turn per `update` call.

use vstd::prelude::*;

use crate::bag::MAX_BAG_SIZE;
use crate::graph::Graph;
use crate::menace::menace_cop_fits;
use crate::strategy::{Algorithm, Cop, Robber};
use crate::util::{spec_pow, vec_contains_usize};

verus! {

/// Whose half-turn comes next, or that the current game has ended.
#[derive(Debug, PartialEq, Eq, Clone, Copy, Structural)]
pub enum Turn {
    Cop,
    Robber,
    Over,
}

/// The running tally over all games played so far.
#[derive(Debug, PartialEq, Eq, Clone, Copy, Structural)]
pub struct Score {
    pub cop: u32,
    pub robber: u32,
}

pub struct Game {
    pub graph: Graph,
    pub number_of_steps: u8,
    pub cop: Cop,
    pub robber: Robber,
    pub score: Score,
    pub cop_positions: Option<Vec<usize>>,
    pub robber_position: Option<usize>,
    pub steps_left: u8,
    pub turn: Turn,
}

impl Game {
    /// Well-formed: the board and both players are well-formed and sized to
    /// each other, all placed tokens stand on vertices, and the phase flags
    /// agree with which tokens are placed.
    pub open spec fn wf(&self) -> bool {
        &&& self.graph.wf()
        &&& self.cop.wf()
        &&& self.robber.wf()
        &&& self.cop.fits(self.graph)
        &&& self.robber.fits(self.graph)
        &&& self.robber.sized_for(self.graph)
        &&& match self.cop_positions {
            Some(v) => v@.len() == self.cop.cop_count() && forall|i: int|
                0 <= i < v@.len() ==> self.graph.valid_vertex(#[trigger] v@[i] as int),
            None => true,
        }
        &&& match self.robber_position {
            Some(p) => self.graph.valid_vertex(p as int),
            None => true,
        }
        &&& self.turn == Turn::Robber ==> self.cop_positions is Some
        &&& (self.turn == Turn::Cop && self.cop_positions is Some) ==> self.robber_position
            is Some
        &&& self.cop_positions is None ==> self.robber_position is None
        &&& (self.turn != Turn::Over && self.robber_position is Some) ==> self.steps_left >= 1
        &&& self.steps_left <= self.number_of_steps
    }

    /// A ranking of the game's states: it is zero exactly at `Over`, and
    /// every `update` call from any other state strictly decreases it, so a
    /// game always ends.
    pub open spec fn measure(&self) -> int {
        if self.turn == Turn::Over {
            0
        } else if self.turn == Turn::Cop && self.cop_positions is None {
            2 * self.steps_left + 3
        } else if self.turn == Turn::Robber && self.robber_position is None {
            2 * self.steps_left + 2
        } else if self.turn == Turn::Cop {
            2 * self.steps_left + 1
        } else {
            2 * self.steps_left
        }
    }

    /// Whether a board is small enough for the chosen players' bag tables.
    /// Unverified callers test this before `new`.
    pub fn config_supported(
        graph: &Graph,
        number_of_cops: u8,
        cop: Algorithm,
        robber: Algorithm,
    ) -> (r: bool)
        requires
            graph.wf(),
        ensures
            r == ({
                &&& (cop == Algorithm::Menace ==> spec_pow(
                    (graph.vertex_count() + 1) as nat,
                    number_of_cops as nat,
                ) <= MAX_BAG_SIZE)
                &&& (robber == Algorithm::Menace ==> graph.vertex_count() < MAX_BAG_SIZE)
            }),
    {
        let cop_ok = match cop {
            Algorithm::Random => true,
            Algorithm::Menace => menace_cop_fits(graph, number_of_cops),
        };
        let robber_ok = match robber {
            Algorithm::Random => true,
            Algorithm::Menace => graph.adjacency_list.len() < MAX_BAG_SIZE,
        };
        cop_ok && robber_ok
    }

    /// A fresh game: no tokens placed, full step budget, cops to move,
    /// score zero, and both players newly built from their algorithms.
    pub fn new(
        graph: Graph,
        number_of_cops: u8,
        number_of_steps: u8,
        cop: Algorithm,
        robber: Algorithm,
    ) -> (game: Game)
        requires
            graph.wf(),
            cop == Algorithm::Menace ==> spec_pow(
                (graph.vertex_count() + 1) as nat,
                number_of_cops as nat,
            ) <= MAX_BAG_SIZE,
            robber == Algorithm::Menace ==> graph.vertex_count() < MAX_BAG_SIZE,
        ensures
            game.wf(),
            game.graph == graph,
            game.number_of_steps == number_of_steps,
            game.cop.cop_count() == number_of_cops,
            (game.cop is Random) <==> cop == Algorithm::Random,
            (game.robber is Random) <==> robber == Algorithm::Random,
            game.score == (Score { cop: 0, robber: 0 }),
            game.cop_positions is None,
            game.robber_position is None,
            game.steps_left == number_of_steps,
            game.turn == Turn::Cop,
    {
        Game {
            graph,
            number_of_steps,
            cop: Cop::new(cop, number_of_cops),
            robber: Robber::new(robber),
            score: Score { cop: 0, robber: 0 },
            cop_positions: None,
            robber_position: None,
            steps_left: number_of_steps,
            turn: Turn::Cop,
        }
    }

    /// One half-turn of the state machine.
    ///
    /// From `Cop` with no cops placed, the cop player places its tokens;
    /// from `Cop` mid-game it moves them, and catches the robber if one of
    /// them reaches its vertex. From `Robber` the robber places or moves;
    /// it is caught if it lands on a cop, and wins the game if it has
    /// survived its full step budget. From `Over` the board is cleared for
    /// the next game, the score and the learners untouched.
    pub fn update(&mut self)
        requires
            old(self).wf(),
            old(self).score.cop < u32::MAX,
            old(self).score.robber < u32::MAX,
        ensures
            final(self).wf(),
            final(self).graph == old(self).graph,
            final(self).number_of_steps == old(self).number_of_steps,
            final(self).cop.cop_count() == old(self).cop.cop_count(),
            (final(self).cop is Random) == (old(self).cop is Random),
            (final(self).robber is Random) == (old(self).robber is Random),
            old(self).turn != Turn::Over ==> final(self).measure() < old(self).measure(),
            old(self).turn == Turn::Over ==> final(self).turn == Turn::Cop && final(self).cop_positions is None && final(self).robber_position is None && final(self).steps_left == old(self).number_of_steps && final(self).score == old(self).score
                && final(self).cop == old(self).cop && final(self).robber == old(self).robber,
            (old(self).turn != Turn::Over && final(self).turn == Turn::Over) ==> ({
                ||| (final(self).score.cop == old(self).score.cop + 1 && final(self).score.robber
                    == old(self).score.robber)
                ||| (final(self).score.robber == old(self).score.robber + 1 && final(self).score.cop == old(self).score.cop)
            }),
            final(self).turn != Turn::Over ==> final(self).score == old(self).score,
            (old(self).turn == Turn::Cop && old(self).cop_positions is None) ==> final(self).turn
                == Turn::Robber && final(self).cop_positions is Some && final(self).robber_position is None && final(self).steps_left == old(self).steps_left,
            (old(self).turn == Turn::Cop && old(self).cop_positions is Some) ==> final(self).cop_positions is Some && final(self).robber_position == old(self).robber_position
                && final(self).steps_left == old(self).steps_left && (final(self).turn
                == Turn::Over <==> final(self).cop_positions->0@.contains(
                old(self).robber_position->0,
            )) && (final(self).turn == Turn::Over || final(self).turn == Turn::Robber),
            old(self).turn == Turn::Robber ==> final(self).robber_position is Some && final(self).cop_positions == old(self).cop_positions && (old(self).robber_position is Some
                ==> final(self).steps_left == old(self).steps_left - 1) && (old(self).robber_position is None ==> final(self).steps_left == old(self).steps_left) && (
            final(self).turn == Turn::Over <==> (old(self).cop_positions->0@.contains(
                final(self).robber_position->0,
            ) || final(self).steps_left == 0)) && (old(self).cop_positions->0@.contains(
                final(self).robber_position->0,
            ) ==> final(self).score.cop == old(self).score.cop + 1) && ((!old(self).cop_positions->0@.contains(final(self).robber_position->0) && final(self).steps_left
                == 0) ==> final(self).score.robber == old(self).score.robber + 1) && (final(self).turn == Turn::Over || final(self).turn == Turn::Cop),
    {
        match self.turn {
            Turn::Cop => {
                if self.cop_positions.is_some() {
                    // Mid-game: the robber is placed, or this state could
                    // not have been reached.
                    let robber_position = self.robber_position.unwrap();
                    let new_cop_positions = match &self.cop_positions {
                        Some(cp) => self.cop.step(&self.graph, cp, robber_position),
                        None => Vec::new(),
                    };
                    if vec_contains_usize(&new_cop_positions, robber_position) {
                        self.cop.end(&self.graph, &new_cop_positions, robber_position);
                        self.robber.end(&self.graph, &new_cop_positions, robber_position);
                        self.score.cop = self.score.cop + 1;
                        self.turn = Turn::Over;
                    } else {
                        self.turn = Turn::Robber;
                    }
                    self.cop_positions = Some(new_cop_positions);
                } else {
                    let placed = self.cop.start(&self.graph);
                    self.cop_positions = Some(placed);
                    self.turn = Turn::Robber;
                }
            },
            Turn::Robber => {
                let new_robber_position = if let Some(robber_position) = self.robber_position {
                    // The robber moved, which uses up one step.
                    self.steps_left = self.steps_left - 1;
                    match &self.cop_positions {
                        Some(cp) => self.robber.step(&self.graph, cp, robber_position),
                        None => 0,
                    }
                } else {
                    // Placement does not use a step.
                    match &self.cop_positions {
                        Some(cp) => self.robber.start(&self.graph, cp),
                        None => 0,
                    }
                };
                let caught = match &self.cop_positions {
                    Some(cp) => vec_contains_usize(cp, new_robber_position),
                    None => false,
                };
                if caught {
                    match &self.cop_positions {
                        Some(cp) => {
                            self.cop.end(&self.graph, cp, new_robber_position);
                            self.robber.end(&self.graph, cp, new_robber_position);
                        },
                        None => {
                        },
                    }
                    self.score.cop = self.score.cop + 1;
                    self.turn = Turn::Over;
                } else if self.steps_left == 0 {
                    match &self.cop_positions {
                        Some(cp) => {
                            self.cop.end(&self.graph, cp, new_robber_position);
                            self.robber.end(&self.graph, cp, new_robber_position);
                        },
                        None => {
                        },
                    }
                    self.score.robber = self.score.robber + 1;
                    self.turn = Turn::Over;
                } else {
                    self.turn = Turn::Cop;
                }
                self.robber_position = Some(new_robber_position);
            },
            Turn::Over => {
                self.cop_positions = None;
                self.robber_position = None;
                self.steps_left = self.number_of_steps;
                self.turn = Turn::Cop;
            },
        }
    }

    /// Law: no game runs forever. Repeated `update` calls always reach
    /// `Over` — the loop below terminates because `measure` strictly
    /// decreases — and when a game that was under way ends, exactly one
    /// side's score has grown by one.
    pub fn finish_game(&mut self)
        requires
            old(self).wf(),
            old(self).score.cop < u32::MAX,
            old(self).score.robber < u32::MAX,
        ensures
            final(self).wf(),
            final(self).turn == Turn::Over,
            final(self).graph == old(self).graph,
            final(self).number_of_steps == old(self).number_of_steps,
            final(self).cop.cop_count() == old(self).cop.cop_count(),
            (final(self).cop is Random) == (old(self).cop is Random),
            (final(self).robber is Random) == (old(self).robber is Random),
            old(self).turn == Turn::Over ==> *final(self) == *old(self),
            old(self).turn != Turn::Over ==> ({
                ||| (final(self).score.cop == old(self).score.cop + 1 && final(self).score.robber
                    == old(self).score.robber)
                ||| (final(self).score.robber == old(self).score.robber + 1 && final(self).score.cop == old(self).score.cop)
            }),
    {
        while self.turn != Turn::Over
            invariant
                self.wf(),
                self.graph == old(self).graph,
                self.number_of_steps == old(self).number_of_steps,
                self.cop.cop_count() == old(self).cop.cop_count(),
                (self.cop is Random) == (old(self).cop is Random),
                (self.robber is Random) == (old(self).robber is Random),
                old(self).score.cop < u32::MAX,
                old(self).score.robber < u32::MAX,
                self.turn != Turn::Over ==> self.score == old(self).score,
                old(self).turn == Turn::Over ==> *self == *old(self),
                self.turn == Turn::Over && old(self).turn != Turn::Over ==> ({
                    ||| (self.score.cop == old(self).score.cop + 1 && self.score.robber == old(self).score.robber)
                    ||| (self.score.robber == old(self).score.robber + 1 && self.score.cop == old(self).score.cop)
                }),
            decreases self.measure(),
        {
            self.update();
        }
    }

    /// Runs complete games back to back, as a worker's batch path does:
    /// `update` is called until `games` games have reached `Over` — each
    /// `Over` counts one — and then once more, leaving the board cleared
    /// for the next game. The score total grows by exactly the number of
    /// games completed.
    pub fn run_games(&mut self, games: u32)
        requires
            old(self).wf(),
            old(self).score.cop + old(self).score.robber + games < u32::MAX,
        ensures
            final(self).wf(),
            final(self).graph == old(self).graph,
            final(self).number_of_steps == old(self).number_of_steps,
            final(self).cop.cop_count() == old(self).cop.cop_count(),
            (final(self).cop is Random) == (old(self).cop is Random),
            (final(self).robber is Random) == (old(self).robber is Random),
            games > 0 ==> final(self).score.cop + final(self).score.robber == old(self).score.cop
                + old(self).score.robber + games,
            games > 0 ==> final(self).turn == Turn::Cop && final(self).cop_positions is None
                && final(self).robber_position is None && final(self).steps_left == old(self).number_of_steps,
            final(self).score.cop >= old(self).score.cop,
            final(self).score.robber >= old(self).score.robber,
            final(self).score.cop + final(self).score.robber <= old(self).score.cop + old(self).score.robber + games + 1,
    {
        let ghost old_sum = old(self).score.cop + old(self).score.robber;
        let mut games_till_now: u32 = 0;
        while games_till_now < games
            invariant
                self.wf(),
                self.graph == old(self).graph,
                self.number_of_steps == old(self).number_of_steps,
                self.cop.cop_count() == old(self).cop.cop_count(),
                (self.cop is Random) == (old(self).cop is Random),
                (self.robber is Random) == (old(self).robber is Random),
                games_till_now <= games,
                old_sum == old(self).score.cop + old(self).score.robber,
                old_sum + games < u32::MAX,
                self.score.cop + self.score.robber == old_sum + games_till_now,
                self.score.cop >= old(self).score.cop,
                self.score.robber >= old(self).score.robber,
                games_till_now > 0 && games_till_now == games ==> self.turn == Turn::Over,
            decreases
                    games - games_till_now,
                    (if self.turn == Turn::Over {
                        1int
                    } else {
                        0int
                    }),
                    self.measure(),
        {
            self.update();
            if self.turn == Turn::Over {
                games_till_now = games_till_now + 1;
            }
        }
        self.update();
    }
}

} // verus!
