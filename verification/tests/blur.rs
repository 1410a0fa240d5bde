use image_processor::blur::{blur_is_noop, blur_window, kernel_in_range, kernel_taps, BlurParams, Tap};

#[test]
fn default_blur_params() {
    let params = BlurParams::default();
    assert_eq!(params.radius, 0);
    assert_eq!(params.iterations, 1);
    assert!(blur_is_noop(4, 4, params));
}

#[test]
fn noop_cases() {
    let active = BlurParams { radius: 1, iterations: 1 };
    assert!(!blur_is_noop(2, 1, active));
    assert!(blur_is_noop(0, 1, active));
    assert!(blur_is_noop(2, 0, active));
    assert!(blur_is_noop(2, 1, BlurParams { radius: 0, iterations: 3 }));
    assert!(blur_is_noop(2, 1, BlurParams { radius: 1, iterations: 0 }));
}

#[test]
fn window_is_cut_to_the_image() {
    let win = blur_window(0, 0, 10, 5, 2);
    assert_eq!((win.x_start, win.x_end, win.y_start, win.y_end), (0, 2, 0, 2));
    let win = blur_window(9, 4, 10, 5, 2);
    assert_eq!((win.x_start, win.x_end, win.y_start, win.y_end), (7, 9, 2, 4));
    let win = blur_window(5, 2, 10, 5, 1);
    assert_eq!((win.x_start, win.x_end, win.y_start, win.y_end), (4, 6, 1, 3));
    let win = blur_window(1, 1, 3, 3, 100);
    assert_eq!((win.x_start, win.x_end, win.y_start, win.y_end), (0, 2, 0, 2));
}

#[test]
fn row_of_three_radius_one() {
    let taps = kernel_taps(1, 0, 3, 1, 1);
    assert_eq!(
        taps,
        vec![
            Tap { offset: 0, distance_sq: 1 },
            Tap { offset: 4, distance_sq: 0 },
            Tap { offset: 8, distance_sq: 1 },
        ]
    );
}

#[test]
fn corners_outside_the_radius_are_left_out() {
    let taps = kernel_taps(1, 1, 3, 3, 1);
    assert_eq!(
        taps,
        vec![
            Tap { offset: 4, distance_sq: 1 },
            Tap { offset: 12, distance_sq: 1 },
            Tap { offset: 16, distance_sq: 0 },
            Tap { offset: 20, distance_sq: 1 },
            Tap { offset: 28, distance_sq: 1 },
        ]
    );
}

#[test]
fn corner_pixel_with_radius_two() {
    let taps = kernel_taps(0, 0, 3, 3, 2);
    let offsets: Vec<usize> = taps.iter().map(|t| t.offset).collect();
    let distances: Vec<u64> = taps.iter().map(|t| t.distance_sq).collect();
    assert_eq!(offsets, vec![0, 4, 8, 12, 16, 24]);
    assert_eq!(distances, vec![0, 1, 4, 1, 2, 4]);
}

#[test]
fn radius_zero_kernel_is_the_pixel_itself() {
    assert_eq!(kernel_taps(2, 1, 4, 2, 0), vec![Tap { offset: 24, distance_sq: 0 }]);
}

#[test]
fn range_check() {
    assert!(kernel_in_range(0, 0, 3, 3, 2));
    assert!(!kernel_in_range(3, 0, 3, 3, 2));
    assert!(!kernel_in_range(0, 3, 3, 3, 2));
    assert!(kernel_in_range(1, 0, 3, 1, u32::MAX));
    if usize::BITS == 64 {
        assert!(!kernel_in_range(0, 0, usize::MAX, 2, 1));
        let wide: usize = 1 << 32;
        assert!(kernel_in_range(0, 0, wide, 1, u32::MAX));
        assert!(!kernel_in_range(0, 0, wide, 100_000, u32::MAX));
    }
}
