use remapper::hilbert::{hilbert_level, riemersma_order};

#[test]
fn level_is_the_ceiling_log2_of_the_larger_side() {
    assert_eq!(hilbert_level(1, 1), 0);
    assert_eq!(hilbert_level(2, 2), 1);
    assert_eq!(hilbert_level(3, 2), 2);
    assert_eq!(hilbert_level(4, 4), 2);
    assert_eq!(hilbert_level(5, 1), 3);
    assert_eq!(hilbert_level(1, 1024), 10);
    assert_eq!(hilbert_level(1025, 3), 11);
    assert_eq!(hilbert_level(u32::MAX, 1), 32);
}

#[test]
fn order_of_two_by_two() {
    assert_eq!(riemersma_order(2, 2), vec![(0, 0), (0, 1), (1, 1), (1, 0)]);
}

#[test]
fn order_of_four_by_four() {
    assert_eq!(
        riemersma_order(4, 4),
        vec![
            (0, 0), (1, 0), (1, 1), (0, 1),
            (0, 2), (0, 3), (1, 3), (1, 2),
            (2, 2), (2, 3), (3, 3), (3, 2),
            (3, 1), (2, 1), (2, 0), (3, 0),
        ]
    );
}

#[test]
fn order_of_three_by_three_skips_cells_off_the_image() {
    assert_eq!(
        riemersma_order(3, 3),
        vec![(0, 0), (1, 0), (1, 1), (0, 1), (0, 2), (1, 2), (2, 2), (2, 1), (2, 0)]
    );
}

fn check_each_pixel_once(w: u32, h: u32) {
    let order = riemersma_order(w, h);
    let mut seen = vec![false; (w * h) as usize];
    for &(x, y) in &order {
        assert!(x < w && y < h);
        let i = (y * w + x) as usize;
        assert!(!seen[i], "({x}, {y}) twice");
        seen[i] = true;
    }
    assert!(seen.iter().all(|&s| s));
    assert_eq!(order.len(), (w * h) as usize);
}

#[test]
fn order_visits_each_pixel_once() {
    for (w, h) in [(1, 1), (2, 2), (2, 1), (1, 2), (3, 5), (8, 8), (7, 16), (33, 10), (64, 1), (4, 4)] {
        check_each_pixel_once(w, h);
    }
}

#[test]
fn order_of_a_single_row() {
    // the walk ends at (3, 0), which is visited too
    assert_eq!(riemersma_order(4, 1), vec![(0, 0), (1, 0), (2, 0), (3, 0)]);
}

#[test]
fn order_of_a_single_pixel() {
    assert_eq!(riemersma_order(1, 1), vec![(0, 0)]);
}
