use cops_and_robbers::game::{Game, Turn};
use cops_and_robbers::graph::template_graphs;
use cops_and_robbers::strategy::Algorithm;

/// On the hexagon, a MENACE cop trained over a large batch of games catches
/// a random robber more often than a cop that never learns. This is a
/// directional check of the whole reinforcement loop, not an exact value.
#[test]
fn menace_cop_beats_the_random_baseline() {
    let mut graphs = template_graphs();
    let hexagon = graphs.pop().unwrap();
    let mut graphs_again = template_graphs();
    let hexagon_again = graphs_again.pop().unwrap();

    let mut learner = Game::new(hexagon, 1, 2, Algorithm::Menace, Algorithm::Random);
    learner.run_games(10000);
    assert_eq!(learner.score.cop + learner.score.robber, 10000);
    assert!(learner.turn == Turn::Cop);

    let mut baseline = Game::new(hexagon_again, 1, 2, Algorithm::Random, Algorithm::Random);
    baseline.run_games(10000);
    assert_eq!(baseline.score.cop + baseline.score.robber, 10000);

    assert!(
        learner.score.cop > baseline.score.cop,
        "trained cop won {} of 10000, random cop won {}",
        learner.score.cop,
        baseline.score.cop
    );
}
