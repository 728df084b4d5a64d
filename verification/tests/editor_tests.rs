use cops_and_robbers::editor::{Mode, SelectedItem};

#[test]
fn the_editor_starts_placing_vertices_with_nothing_selected() {
    assert_eq!(Mode::default(), Mode::Vertex);
    assert_eq!(SelectedItem::default(), SelectedItem::Nothing);
    assert_ne!(SelectedItem::Vertex(3), SelectedItem::Edge(3, 4));
}
