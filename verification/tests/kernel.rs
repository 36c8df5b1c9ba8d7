use remapper::kernel::{Kernel, Tap};

fn sum(k: &Kernel) -> u32 {
    k.taps.iter().map(|t| t.weight as u32).sum()
}

#[test]
fn kernel_weights() {
    assert_eq!((sum(&Kernel::sierra()), Kernel::sierra().divisor), (32, 32));
    assert_eq!((sum(&Kernel::sierra_two()), Kernel::sierra_two().divisor), (16, 16));
    assert_eq!((sum(&Kernel::sierra_lite()), Kernel::sierra_lite().divisor), (4, 4));
    assert_eq!((sum(&Kernel::jarvis()), Kernel::jarvis().divisor), (48, 48));
    assert_eq!((sum(&Kernel::floyd_steinberg()), Kernel::floyd_steinberg().divisor), (16, 48));
    assert_eq!((sum(&Kernel::atkinson()), Kernel::atkinson().divisor), (6, 8));
}

#[test]
fn sierra_lite_taps() {
    assert_eq!(
        Kernel::sierra_lite().taps,
        vec![
            Tap { dx: 1, dy: 0, weight: 2 },
            Tap { dx: -1, dy: 1, weight: 1 },
            Tap { dx: 0, dy: 1, weight: 1 },
        ]
    );
}

#[test]
fn sierra_targets_in_the_top_left_corner() {
    let t = Kernel::sierra().targets(0, 0, 4, 4);
    assert_eq!(
        t,
        vec![(1, 0, 5), (2, 0, 3), (0, 1, 5), (1, 1, 4), (2, 1, 2), (0, 2, 3), (1, 2, 2)]
    );
}

#[test]
fn targets_in_the_middle_take_every_tap() {
    let t = Kernel::floyd_steinberg().targets(2, 2, 5, 5);
    assert_eq!(t, vec![(3, 2, 7), (1, 3, 3), (2, 3, 5), (3, 3, 1)]);
}

#[test]
fn targets_at_the_bottom_right_are_none() {
    assert!(Kernel::jarvis().targets(4, 4, 5, 5).is_empty());
}

#[test]
fn negative_offset_wraps_on_a_widest_image() {
    // 0 - 2 wraps to u32::MAX - 1, which is a column of an image u32::MAX wide
    let t = Kernel::sierra_two().targets(0, 0, u32::MAX, 2);
    assert_eq!(t[2], (u32::MAX - 1, 1, 1));
    assert_eq!(t.len(), 6);
}

#[test]
fn sierra_lite_at_the_last_column_of_a_widest_image() {
    // sierra lite reaches one column to the right, so x = u32::MAX - 1 is allowed
    let t = Kernel::sierra_lite().targets(u32::MAX - 1, 0, u32::MAX, 2);
    assert_eq!(t, vec![(u32::MAX - 2, 1, 1), (u32::MAX - 1, 1, 1)]);
}

#[test]
fn atkinson_targets() {
    let t = Kernel::atkinson().targets(1, 0, 3, 3);
    assert_eq!(t, vec![(2, 0, 1), (0, 1, 1), (1, 1, 1), (2, 1, 1), (1, 2, 1)]);
}
