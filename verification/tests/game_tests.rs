use cops_and_robbers::game::{Game, Turn};
use cops_and_robbers::graph::template_graphs;
use cops_and_robbers::strategy::{Algorithm, Cop};

fn take_graph(index: usize) -> cops_and_robbers::graph::Graph {
    let mut graphs = template_graphs();
    graphs.remove(index)
}

#[test]
fn a_fresh_game_awaits_the_cops() {
    let game = Game::new(take_graph(1), 2, 7, Algorithm::Random, Algorithm::Random);
    assert!(game.turn == Turn::Cop);
    assert!(game.cop_positions.is_none());
    assert!(game.robber_position.is_none());
    assert_eq!(game.steps_left, 7);
    assert_eq!(game.score.cop, 0);
    assert_eq!(game.score.robber, 0);
}

#[test]
fn every_game_ends_and_scores_exactly_one_side() {
    let mut game = Game::new(take_graph(1), 1, 3, Algorithm::Random, Algorithm::Random);
    let mut updates = 0;
    while game.turn != Turn::Over {
        game.update();
        updates += 1;
        // The measure starts at 2 * 3 + 3 and strictly decreases.
        assert!(updates <= 9);
    }
    assert_eq!(game.score.cop + game.score.robber, 1);
}

#[test]
fn finish_game_reaches_over() {
    let mut game = Game::new(take_graph(2), 1, 4, Algorithm::Menace, Algorithm::Menace);
    game.finish_game();
    assert!(game.turn == Turn::Over);
    assert_eq!(game.score.cop + game.score.robber, 1);
    // From `Over`, finishing again does nothing.
    game.finish_game();
    assert_eq!(game.score.cop + game.score.robber, 1);
}

#[test]
fn over_resets_the_board_and_keeps_the_score() {
    let mut game = Game::new(take_graph(0), 1, 2, Algorithm::Random, Algorithm::Random);
    game.finish_game();
    let score = game.score;
    game.update();
    assert!(game.turn == Turn::Cop);
    assert!(game.cop_positions.is_none());
    assert!(game.robber_position.is_none());
    assert_eq!(game.steps_left, 2);
    assert_eq!(game.score, score);
}

#[test]
fn two_vertex_path_single_step_scenario() {
    let mut game = Game::new(take_graph(0), 1, 1, Algorithm::Random, Algorithm::Random);
    game.update();
    game.update();
    // After two half-turns both sides are placed.
    let cops = game.cop_positions.clone().expect("cops placed");
    assert_eq!(cops.len(), 1);
    let robber = game.robber_position.expect("robber placed");
    assert!(cops[0] < 2 && robber < 2);
    if game.turn == Turn::Over {
        // Both landed on the same vertex: immediate capture.
        assert_eq!(cops[0], robber);
        assert_eq!(game.score.cop, 1);
        assert_eq!(game.score.robber, 0);
    } else {
        // Otherwise the single step budget resolves the game within two
        // more half-turns: the cop's move may capture, and the robber's
        // move exhausts its budget if it survives.
        assert!(game.turn == Turn::Cop);
        game.update();
        if game.turn != Turn::Over {
            game.update();
            assert!(game.turn == Turn::Over);
        }
        assert_eq!(game.score.cop + game.score.robber, 1);
    }
}

#[test]
fn a_zero_step_budget_ends_at_robber_placement() {
    // With no steps to survive, the robber wins the moment it places
    // safely; only placing onto a cop loses.
    let mut game = Game::new(take_graph(0), 1, 0, Algorithm::Random, Algorithm::Random);
    game.update();
    game.update();
    assert!(game.turn == Turn::Over);
    assert_eq!(game.score.cop + game.score.robber, 1);
    let cop = game.cop_positions.clone().unwrap()[0];
    let robber = game.robber_position.unwrap();
    if cop == robber {
        assert_eq!(game.score.cop, 1);
    } else {
        assert_eq!(game.score.robber, 1);
    }
}

#[test]
fn with_no_cops_the_robber_always_wins() {
    let mut game = Game::new(take_graph(0), 0, 3, Algorithm::Random, Algorithm::Random);
    game.finish_game();
    assert_eq!(game.score.robber, 1);
    assert_eq!(game.score.cop, 0);
    assert_eq!(game.cop_positions.clone().unwrap().len(), 0);
}

#[test]
fn run_games_counts_complete_games() {
    let mut game = Game::new(take_graph(1), 1, 2, Algorithm::Random, Algorithm::Random);
    game.run_games(5);
    assert_eq!(game.score.cop + game.score.robber, 5);
    // The trailing update left the board cleared for the next game.
    assert!(game.turn == Turn::Cop);
    assert!(game.cop_positions.is_none());
    assert!(game.robber_position.is_none());

    game.run_games(7);
    assert_eq!(game.score.cop + game.score.robber, 12);
}

#[test]
fn learners_accumulate_state_across_games() {
    let mut game = Game::new(take_graph(2), 1, 2, Algorithm::Menace, Algorithm::Random);
    game.run_games(20);
    match &game.cop {
        Cop::Menace(m) => {
            let bag = m.get_bag(&None).expect("placement state visited every game");
            assert_eq!(bag.counts().len(), 6);
            // The placement bag was rewarded on every won game and
            // penalized on every lost one, so its total moved from the
            // uniform 6 * 50 by exactly 3 per win and -1 per loss (twenty
            // games cannot starve a bag, so no reset interferes).
            let total: u64 = bag.counts().iter().map(|&c| c as u64).sum();
            let expected = 300 + 3 * (game.score.cop as u64) - (game.score.robber as u64);
            assert_eq!(total, expected);
        },
        Cop::Random(_) => panic!("the cop was configured to learn"),
    }
}

#[test]
fn config_supported_matches_the_board() {
    let graphs = template_graphs();
    assert!(Game::config_supported(&graphs[2], 1, Algorithm::Menace, Algorithm::Menace));
    assert!(Game::config_supported(&graphs[2], 8, Algorithm::Menace, Algorithm::Random));
    // 7 to the 11th power is past the bag-size cap.
    assert!(!Game::config_supported(&graphs[2], 11, Algorithm::Menace, Algorithm::Random));
    assert!(Game::config_supported(&graphs[2], 11, Algorithm::Random, Algorithm::Random));
}
