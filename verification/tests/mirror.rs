use image_processor::mirror::{apply_mirror, mirror_horizontally, mirror_vertically, swap_pixel, MirrorParams};

fn pixels<const N: usize>(pixels: [[u8; 4]; N]) -> Vec<u8> {
    pixels.into_iter().flat_map(|pixel| pixel.into_iter()).collect()
}

#[test]
fn mirrors_horizontally() {
    let mut buffer = pixels([
        [1, 0, 0, 255],
        [2, 0, 0, 255],
        [3, 0, 0, 255],
        [4, 0, 0, 255],
    ]);

    apply_mirror(
        &mut buffer,
        2,
        2,
        MirrorParams {
            horizontal: true,
            vertical: false,
        },
    );

    assert_eq!(
        buffer,
        pixels([
            [2, 0, 0, 255],
            [1, 0, 0, 255],
            [4, 0, 0, 255],
            [3, 0, 0, 255],
        ])
    );
}

#[test]
fn mirrors_vertically() {
    let mut buffer = pixels([
        [1, 0, 0, 255],
        [2, 0, 0, 255],
        [3, 0, 0, 255],
        [4, 0, 0, 255],
    ]);

    apply_mirror(
        &mut buffer,
        2,
        2,
        MirrorParams {
            horizontal: false,
            vertical: true,
        },
    );

    assert_eq!(
        buffer,
        pixels([
            [3, 0, 0, 255],
            [4, 0, 0, 255],
            [1, 0, 0, 255],
            [2, 0, 0, 255],
        ])
    );
}

#[test]
fn mirrors_horizontally_and_vertically() {
    let mut buffer = pixels([
        [1, 0, 0, 255],
        [2, 0, 0, 255],
        [3, 0, 0, 255],
        [4, 0, 0, 255],
    ]);

    apply_mirror(
        &mut buffer,
        2,
        2,
        MirrorParams {
            horizontal: true,
            vertical: true,
        },
    );

    assert_eq!(
        buffer,
        pixels([
            [4, 0, 0, 255],
            [3, 0, 0, 255],
            [2, 0, 0, 255],
            [1, 0, 0, 255],
        ])
    );
}

#[test]
fn default_params_leave_buffer_unchanged() {
    let mut buffer = pixels([[1, 2, 3, 4], [5, 6, 7, 8]]);
    let original = buffer.clone();
    let params = MirrorParams::default();
    assert!(!params.horizontal && !params.vertical);
    apply_mirror(&mut buffer, 2, 1, params);
    assert_eq!(buffer, original);
}

#[test]
fn odd_width_keeps_middle_column() {
    let mut buffer = pixels([
        [1, 1, 1, 1],
        [2, 2, 2, 2],
        [3, 3, 3, 3],
        [4, 4, 4, 4],
        [5, 5, 5, 5],
        [6, 6, 6, 6],
    ]);
    mirror_horizontally(&mut buffer, 3, 2);
    assert_eq!(
        buffer,
        pixels([
            [3, 3, 3, 3],
            [2, 2, 2, 2],
            [1, 1, 1, 1],
            [6, 6, 6, 6],
            [5, 5, 5, 5],
            [4, 4, 4, 4],
        ])
    );
}

#[test]
fn odd_height_keeps_middle_row() {
    let mut buffer = pixels([[1, 0, 0, 0], [2, 0, 0, 0], [3, 0, 0, 0]]);
    mirror_vertically(&mut buffer, 1, 3);
    assert_eq!(buffer, pixels([[3, 0, 0, 0], [2, 0, 0, 0], [1, 0, 0, 0]]));
}

#[test]
fn bytes_past_the_image_stay() {
    let mut buffer = pixels([[1, 0, 0, 9], [2, 0, 0, 9]]);
    buffer.extend_from_slice(&[7, 8]);
    apply_mirror(&mut buffer, 2, 1, MirrorParams { horizontal: true, vertical: true });
    assert_eq!(buffer, vec![2, 0, 0, 9, 1, 0, 0, 9, 7, 8]);
}

#[test]
fn one_pixel_wide_image_needs_no_buffer_for_horizontal() {
    let mut buffer: Vec<u8> = Vec::new();
    mirror_horizontally(&mut buffer, 1, 5);
    assert!(buffer.is_empty());
}

#[test]
fn mirroring_twice_restores() {
    let original: Vec<u8> = (0u8..24).collect();
    for (horizontal, vertical) in [(true, false), (false, true), (true, true)] {
        let mut buffer = original.clone();
        let params = MirrorParams { horizontal, vertical };
        apply_mirror(&mut buffer, 3, 2, params);
        assert_ne!(buffer, original);
        apply_mirror(&mut buffer, 3, 2, params);
        assert_eq!(buffer, original);
    }
}

#[test]
fn both_mirrors_reverse_pixel_order() {
    let original: Vec<u8> = (0u8..24).collect();
    let mut buffer = original.clone();
    apply_mirror(&mut buffer, 3, 2, MirrorParams { horizontal: true, vertical: true });
    let reversed: Vec<u8> = original.chunks(4).rev().flatten().copied().collect();
    assert_eq!(buffer, reversed);
}

#[test]
fn swap_pixel_exchanges_four_bytes() {
    let mut buffer: Vec<u8> = (0u8..12).collect();
    swap_pixel(&mut buffer, 0, 8);
    assert_eq!(buffer, vec![8, 9, 10, 11, 4, 5, 6, 7, 0, 1, 2, 3]);
    swap_pixel(&mut buffer, 4, 4);
    assert_eq!(buffer, vec![8, 9, 10, 11, 4, 5, 6, 7, 0, 1, 2, 3]);
}
