use remapper::bayer::{bayer, matrix_index, next, next_};

fn is_permutation(m: &[u32]) -> bool {
    let mut seen = vec![false; m.len()];
    for &v in m {
        if v as usize >= m.len() || seen[v as usize] {
            return false;
        }
        seen[v as usize] = true;
    }
    true
}

#[test]
fn bayer_level_zero() {
    assert_eq!(bayer(0), vec![0, 2, 3, 1]);
}

#[test]
fn bayer_level_one_is_the_four_by_four_matrix() {
    assert_eq!(
        bayer(1),
        vec![0, 8, 2, 10, 12, 4, 14, 6, 3, 11, 1, 9, 15, 7, 13, 5]
    );
}

#[test]
fn next_doubles_the_side() {
    let m = next_(2, &[0, 2, 3, 1]);
    assert_eq!(m, bayer(1));
    let m2 = next_(4, &m);
    assert_eq!(m2.len(), 64);
    assert_eq!(m2, bayer(2));
    // first row of the 8x8 matrix
    assert_eq!(&m2[0..8], &[0, 32, 8, 40, 2, 34, 10, 42]);
}

#[test]
fn next_takes_the_side_from_the_length() {
    assert_eq!(next(&[0, 2, 3, 1]), bayer(1));
    assert_eq!(next(&bayer(1)), bayer(2));
    assert_eq!(next(&[7]), vec![28, 30, 31, 29]);
}

#[test]
fn next_of_empty_matrix() {
    assert_eq!(next_(0, &[]), Vec::<u32>::new());
    assert_eq!(next(&[]), Vec::<u32>::new());
}

#[test]
fn bayer_matrices_are_permutations() {
    for level in 0..6 {
        let m = bayer(level);
        let side = 2usize << level;
        assert_eq!(m.len(), side * side);
        assert!(is_permutation(&m), "level {level}");
    }
}

#[test]
fn bayer_cells_follow_the_quadrant_rule() {
    let small = bayer(2);
    let big = bayer(3);
    let n = 8;
    for y in 0..2 * n {
        for x in 0..2 * n {
            let off = [0, 2, 3, 1][(y >= n) as usize * 2 + (x >= n) as usize];
            assert_eq!(big[y * 2 * n + x], 4 * small[(y % n) * n + x % n] + off);
        }
    }
}

#[test]
fn matrix_index_tiles() {
    assert_eq!(matrix_index(0, 0, 4), 0);
    assert_eq!(matrix_index(5, 2, 4), 9);
    assert_eq!(matrix_index(1027, 1025, 1024), 3 + 1024);
    assert_eq!(matrix_index(3, 3, 1), 0);
}
