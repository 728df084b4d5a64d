use cops_and_robbers::graph::{template_graphs, Graph};
use cops_and_robbers::runner::is_perfect_square;

#[test]
fn template_graphs_have_expected_shapes() {
    let graphs = template_graphs();
    assert_eq!(graphs.len(), 3);

    assert_eq!(graphs[0].name, "Path2");
    assert_eq!(graphs[0].adjacency_list, vec![vec![1], vec![0]]);

    assert_eq!(graphs[1].name, "Path5");
    assert_eq!(
        graphs[1].adjacency_list,
        vec![vec![1], vec![0, 2], vec![1, 3], vec![2, 4], vec![3]]
    );

    assert_eq!(graphs[2].name, "Hexagon");
    assert_eq!(
        graphs[2].adjacency_list,
        vec![
            vec![5, 1],
            vec![0, 2],
            vec![1, 3],
            vec![2, 4],
            vec![3, 5],
            vec![4, 0],
        ]
    );
}

#[test]
fn check_valid_accepts_the_templates() {
    for g in template_graphs() {
        assert!(g.check_valid());
    }
}

#[test]
fn check_valid_rejects_bad_graphs() {
    let empty = Graph { name: String::from("empty"), adjacency_list: vec![] };
    assert!(!empty.check_valid());

    let asymmetric = Graph {
        name: String::from("asymmetric"),
        adjacency_list: vec![vec![1], vec![]],
    };
    assert!(!asymmetric.check_valid());

    let out_of_range = Graph {
        name: String::from("out_of_range"),
        adjacency_list: vec![vec![2], vec![0]],
    };
    assert!(!out_of_range.check_valid());

    let duplicated = Graph {
        name: String::from("duplicated"),
        adjacency_list: vec![vec![1, 1], vec![0]],
    };
    assert!(!duplicated.check_valid());
}

#[test]
fn check_valid_accepts_a_self_loop_listed_once() {
    let looped = Graph {
        name: String::from("looped"),
        adjacency_list: vec![vec![0, 1], vec![0]],
    };
    assert!(looped.check_valid());
}

#[test]
fn perfect_squares_are_recognized() {
    for n in [0u32, 1, 4, 9, 16, 25, 10000] {
        assert!(is_perfect_square(n));
    }
    for n in [2u32, 3, 5, 8, 10, 9999] {
        assert!(!is_perfect_square(n));
    }
    assert!(!is_perfect_square(u32::MAX));
    assert!(is_perfect_square(65535 * 65535));
}
