use cops_and_robbers::runner::{
    is_perfect_square, next_worker_step, remaining_batch, request_more_games, WorkerStep,
};

#[test]
fn a_missing_game_always_finishes_the_worker() {
    assert_eq!(next_worker_step(false, None, false), WorkerStep::Finish);
    assert_eq!(next_worker_step(false, None, true), WorkerStep::Finish);
    assert_eq!(next_worker_step(false, Some(500), false), WorkerStep::Finish);
}

#[test]
fn pending_batches_run_before_anything_else() {
    assert_eq!(next_worker_step(true, Some(1000), false), WorkerStep::RunBatch(1000));
    assert_eq!(next_worker_step(true, Some(1), true), WorkerStep::RunBatch(1));
}

#[test]
fn a_tick_that_ran_a_batch_rests() {
    assert_eq!(next_worker_step(true, None, true), WorkerStep::Rest);
}

#[test]
fn an_idle_tick_advances_one_half_turn() {
    assert_eq!(next_worker_step(true, None, false), WorkerStep::SingleStep);
}

#[test]
fn the_batch_counter_keeps_what_is_left() {
    assert_eq!(remaining_batch(1000, 400), Some(600));
    assert_eq!(remaining_batch(1000, 1000), None);
}

#[test]
fn batch_requests_are_additive() {
    assert_eq!(request_more_games(None, 1000), Some(1000));
    assert_eq!(request_more_games(Some(1000), 1000), Some(2000));
    assert_eq!(request_more_games(Some(3), 0), Some(3));
}

#[test]
fn score_history_samples_at_square_game_counts() {
    let recorded: Vec<u32> = (0..30).filter(|&g| is_perfect_square(g)).collect();
    assert_eq!(recorded, vec![0, 1, 4, 9, 16, 25]);
}
