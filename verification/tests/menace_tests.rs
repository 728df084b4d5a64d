use cops_and_robbers::graph::template_graphs;
use cops_and_robbers::menace::{MenaceCop, MenaceRobber};

#[test]
fn cop_placement_choice_decodes_in_base_vertex_count() {
    let graphs = template_graphs();
    let hex = &graphs[2];
    let mut cop = MenaceCop::new(2);
    // 13 = 1 + 2 * 6: the first cop takes vertex 1, the second vertex 2.
    let placed = cop.start_with_choice(hex, 13);
    assert_eq!(placed, vec![1, 2]);
}

#[test]
fn cop_move_choice_decodes_in_mixed_radix() {
    let graphs = template_graphs();
    let hex = &graphs[2];
    let mut cop = MenaceCop::new(2);
    let placed = cop.start_with_choice(hex, 13);
    // Both cops have two neighbours, so both digits are in base three and
    // the digit two means "stay". 5 = 2 + 1 * 3: the cop on vertex 1 stays,
    // the cop on vertex 2 moves to its second neighbour, vertex 3.
    let moved = cop.step_with_choice(hex, &placed, 4, 5);
    assert_eq!(moved, vec![1, 3]);
}

#[test]
fn cop_win_reinforces_every_logged_move() {
    let graphs = template_graphs();
    let hex = &graphs[2];
    let mut cop = MenaceCop::new(1);
    let placed = cop.start_with_choice(hex, 2);
    assert_eq!(placed, vec![2]);
    // Neighbours of 2 are [1, 3]; choice 1 moves onto vertex 3.
    let moved = cop.step_with_choice(hex, &placed, 3, 1);
    assert_eq!(moved, vec![3]);
    // The robber's final vertex is the cop's: the cop won.
    cop.end(hex, &moved, 3);

    let start_bag = cop.get_bag(&None).expect("placement state was visited");
    assert_eq!(start_bag.counts().len(), 6);
    assert_eq!(start_bag.counts()[2], 53);
    assert_eq!(start_bag.counts()[0], 50);

    let step_bag = cop.get_bag(&Some((vec![2], 3))).expect("step state was visited");
    assert_eq!(step_bag.counts().len(), 3);
    assert_eq!(step_bag.counts()[1], 53);
    assert_eq!(step_bag.counts()[0], 50);
    assert_eq!(step_bag.counts()[2], 50);
}

#[test]
fn cop_loss_penalizes_every_logged_move() {
    let graphs = template_graphs();
    let hex = &graphs[2];
    let mut cop = MenaceCop::new(1);
    let placed = cop.start_with_choice(hex, 2);
    let moved = cop.step_with_choice(hex, &placed, 5, 1);
    assert_eq!(moved, vec![3]);
    // The robber's final vertex is not the cop's: the cop lost.
    cop.end(hex, &moved, 5);

    let start_bag = cop.get_bag(&None).expect("placement state was visited");
    assert_eq!(start_bag.counts()[2], 49);
    assert_eq!(start_bag.counts()[0], 50);

    let step_bag = cop.get_bag(&Some((vec![2], 5))).expect("step state was visited");
    assert_eq!(step_bag.counts()[1], 49);
    assert_eq!(step_bag.counts()[0], 50);
}

#[test]
fn end_with_an_empty_log_changes_nothing() {
    let graphs = template_graphs();
    let hex = &graphs[2];
    let mut cop = MenaceCop::new(1);
    let placed = cop.start_with_choice(hex, 2);
    cop.end(hex, &placed, 2);
    assert_eq!(cop.get_bag(&None).unwrap().counts()[2], 53);
    // The first end drained the log: a second outcome report leaves every
    // count as it was.
    cop.end(hex, &placed, 5);
    assert_eq!(cop.get_bag(&None).unwrap().counts()[2], 53);
}

#[test]
fn unvisited_states_have_no_bag() {
    let graphs = template_graphs();
    let hex = &graphs[2];
    let mut cop = MenaceCop::new(1);
    assert!(cop.get_bag(&None).is_none());
    cop.start_with_choice(hex, 0);
    assert!(cop.get_bag(&None).is_some());
    assert!(cop.get_bag(&Some((vec![0], 3))).is_none());

    let robber = MenaceRobber::new();
    assert!(robber.get_bag(&(vec![0], None)).is_none());
}

#[test]
fn robber_win_reinforces_and_loss_penalizes() {
    let graphs = template_graphs();
    let hex = &graphs[2];

    let mut robber = MenaceRobber::new();
    let placed = robber.start_with_choice(hex, &vec![0], 4);
    assert_eq!(placed, 4);
    // Neighbours of 4 are [3, 5]; choice 0 moves to vertex 3.
    let moved = robber.step_with_choice(hex, &vec![0], 4, 0);
    assert_eq!(moved, 3);
    // The robber's final vertex is on no cop: the robber won.
    robber.end(hex, &vec![0], moved);
    let start_bag = robber.get_bag(&(vec![0], None)).expect("placement state was visited");
    assert_eq!(start_bag.counts().len(), 6);
    assert_eq!(start_bag.counts()[4], 53);
    let step_bag = robber.get_bag(&(vec![0], Some(4))).expect("step state was visited");
    assert_eq!(step_bag.counts().len(), 3);
    assert_eq!(step_bag.counts()[0], 53);

    let mut caught = MenaceRobber::new();
    caught.start_with_choice(hex, &vec![0], 4);
    // The robber's final vertex is a cop's: the robber lost.
    caught.end(hex, &vec![4], 4);
    let bag = caught.get_bag(&(vec![0], None)).expect("placement state was visited");
    assert_eq!(bag.counts()[4], 49);
    assert_eq!(bag.counts()[0], 50);
}

#[test]
fn robber_stay_choice_keeps_the_vertex() {
    let graphs = template_graphs();
    let hex = &graphs[2];
    let mut robber = MenaceRobber::new();
    let placed = robber.start_with_choice(hex, &vec![0], 4);
    // Vertex 4 has two neighbours, so choice 2 means "stay".
    let moved = robber.step_with_choice(hex, &vec![0], placed, 2);
    assert_eq!(moved, 4);
}
