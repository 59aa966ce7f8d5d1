use phystech_radar::bits::{contains_all, flip, insert, member};
use phystech_radar::graph::CompatibilityGraph;
use phystech_radar::CompatibilityMatrix;
use phystech_radar::SIZE;

fn triangle() -> CompatibilityMatrix {
    let mut matrix = CompatibilityMatrix::new();
    matrix.set(0, 1, true);
    matrix.set(1, 2, true);
    matrix.set(0, 2, true);
    matrix
}

#[test]
fn bit_helpers_work_on_single_items() {
    assert!(member(0b100, 2));
    assert!(!member(0b100, 1));
    assert_eq!(flip(0b100, 2), 0);
    assert_eq!(flip(0b100, 0), 0b101);
    assert_eq!(insert(0b100, 2), 0b100);
    assert_eq!(insert(0b100, 27), 0b100 | (1 << 27));
    assert!(contains_all(0b111, 0b101));
    assert!(!contains_all(0b101, 0b111));
    assert!(contains_all(0b101, 0b101));
    assert!(contains_all(0, 0));
}

#[test]
fn new_matrix_is_the_identity() {
    let matrix = CompatibilityMatrix::new();
    for i in 0..SIZE {
        for j in 0..SIZE {
            assert_eq!(matrix.get(i, j), i == j);
        }
    }
}

#[test]
fn default_matrix_is_the_identity() {
    let matrix = CompatibilityMatrix::default();
    for i in 0..SIZE {
        for j in 0..SIZE {
            assert_eq!(matrix.get(i, j), i == j);
        }
    }
}

#[test]
fn set_writes_both_directions() {
    let mut matrix = CompatibilityMatrix::new();
    matrix.set(3, 17, true);
    assert!(matrix.get(3, 17));
    assert!(matrix.get(17, 3));
    matrix.set(17, 3, false);
    assert!(!matrix.get(3, 17));
    assert!(!matrix.get(17, 3));
}

#[test]
fn set_leaves_the_diagonal() {
    let mut matrix = CompatibilityMatrix::new();
    matrix.set(5, 5, false);
    assert!(matrix.get(5, 5));
}

#[test]
fn relation_is_symmetric_and_reflexive() {
    let mut matrix = CompatibilityMatrix::new();
    for i in 0..SIZE {
        for j in 0..SIZE {
            if (i * 7 + j * 3) % 5 == 0 {
                matrix.set(i, j, true);
            }
        }
    }
    let graph = CompatibilityGraph::from_matrix(&matrix);
    for i in 0..SIZE {
        assert!(graph.is_compatible(i, i));
        assert!(matrix.get(i, i));
        for j in 0..SIZE {
            assert_eq!(graph.is_compatible(i, j), graph.is_compatible(j, i));
            assert_eq!(graph.is_compatible(i, j), matrix.get(i, j));
        }
    }
}

#[test]
fn row_masks_hold_the_compatible_items() {
    let graph = CompatibilityGraph::from_matrix(&triangle());
    assert_eq!(graph.row_mask(0), 0b111);
    assert_eq!(graph.row_mask(1), 0b111);
    assert_eq!(graph.row_mask(2), 0b111);
    assert_eq!(graph.row_mask(3), 0b1000);
    assert_eq!(graph.row_mask(27), 1 << 27);
}

#[test]
fn compatible_with_all_tests_the_whole_set() {
    let graph = CompatibilityGraph::from_matrix(&triangle());
    assert!(graph.is_compatible_with_all(0, 0b110));
    assert!(graph.is_compatible_with_all(0, 0));
    assert!(!graph.is_compatible_with_all(0, 0b1110));
    assert!(!graph.is_compatible_with_all(3, 0b1));
    assert!(graph.is_compatible_with_all(3, 0b1000));
}

#[test]
fn clashes_count_incompatible_members() {
    let graph = CompatibilityGraph::from_matrix(&triangle());
    assert_eq!(graph.count_clashes(0b11000, 0), 2);
    assert_eq!(graph.count_clashes(0b11110, 0), 2);
    assert_eq!(graph.count_clashes(0b11111, 0), 2);
    assert_eq!(graph.count_clashes(0b111, 3), 3);
    assert_eq!(graph.count_clashes(0, 3), 0);
}

#[test]
fn conflicts_count_incompatible_pairs() {
    let graph = CompatibilityGraph::from_matrix(&triangle());
    assert_eq!(graph.count_conflicts(0), 0);
    assert_eq!(graph.count_conflicts(0b111), 0);
    assert_eq!(graph.count_conflicts(0b1111), 3);
    assert_eq!(graph.count_conflicts(0b11000), 1);
    assert_eq!(graph.count_conflicts(0b11111), 3 + 3 + 1);
    assert_eq!(graph.count_conflicts((1 << 28) - 1), 28 * 27 / 2 - 3);
}

#[test]
fn matrix_text_has_one_line_per_item() {
    let mut matrix = CompatibilityMatrix::new();
    matrix.set(0, 2, true);
    let text = matrix.to_text();
    let lines: Vec<&str> = text.lines().collect();
    assert_eq!(lines.len(), 28);
    assert_eq!(lines[0], format!("1 0 1 {}", "0 ".repeat(25)));
    assert_eq!(lines[1], format!("0 1 {}", "0 ".repeat(26)));
    assert_eq!(lines[2], format!("1 0 1 {}", "0 ".repeat(25)));
    assert_eq!(lines[27], format!("{}1 ", "0 ".repeat(27)));
    assert!(text.ends_with(" \n"));
    assert_eq!(text.len(), 28 * (28 * 2 + 1));
}
