//! A pursuit game on a finite undirected graph between cop tokens and a
//! robber token: the board, the uniform-random and MENACE-style learning
//! players, the turn state machine that plays games to completion and
//! tallies wins, and the pure decision logic of the background runner that
//! drives it.

pub mod bag;
pub mod editor;
pub mod game;
pub mod graph;
pub mod menace;
pub mod random;
pub(crate) mod rng;
pub mod runner;
pub mod strategy;
pub mod util;
