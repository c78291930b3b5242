use rough_wasm::shapes::{line_draw_count, linear_path_edges};

#[test]
fn closed_rectangle_edges() {
    assert_eq!(linear_path_edges(4, true), vec![(0, 1), (1, 2), (2, 3), (3, 0)]);
}

#[test]
fn open_path_edges() {
    assert_eq!(linear_path_edges(3, false), vec![(0, 1), (1, 2)]);
}

#[test]
fn two_point_path_is_one_segment() {
    assert_eq!(linear_path_edges(2, true), vec![(0, 1)]);
    assert_eq!(linear_path_edges(2, false), vec![(0, 1)]);
}

#[test]
fn short_paths_draw_nothing() {
    assert!(linear_path_edges(1, true).is_empty());
    assert!(linear_path_edges(0, false).is_empty());
}

#[test]
fn closed_path_is_a_cycle() {
    for n in 3..20usize {
        let e = linear_path_edges(n, true);
        assert_eq!(e.len(), n);
        for (i, edge) in e.iter().enumerate() {
            assert_eq!(*edge, (i, (i + 1) % n));
        }
    }
}

#[test]
fn line_draw_counts() {
    assert_eq!(line_draw_count(true, false), 11);
    assert_eq!(line_draw_count(false, false), 9);
    assert_eq!(line_draw_count(true, true), 7);
    assert_eq!(line_draw_count(false, true), 7);
}
