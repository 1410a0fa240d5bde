use image_processor::pixels::{buffer_len, pixel_offset};

#[test]
fn pixel_offset_counts_rows_then_columns() {
    assert_eq!(pixel_offset(0, 0, 5), 0);
    assert_eq!(pixel_offset(1, 0, 5), 4);
    assert_eq!(pixel_offset(0, 1, 5), 20);
    assert_eq!(pixel_offset(3, 2, 5), 52);
}

#[test]
fn buffer_len_is_four_bytes_per_pixel() {
    assert_eq!(buffer_len(2, 2), Some(16));
    assert_eq!(buffer_len(0, 7), Some(0));
    assert_eq!(buffer_len(1920, 1080), Some(1920 * 1080 * 4));
}

#[test]
fn buffer_len_overflow_is_none() {
    if usize::BITS == 64 {
        assert_eq!(buffer_len(u32::MAX, u32::MAX), None);
        assert_eq!(buffer_len(1 << 31, 1 << 31), None);
        assert_eq!(buffer_len(1 << 30, 1 << 30), Some(1 << 62));
    } else {
        assert_eq!(buffer_len(1 << 16, 1 << 14), None);
    }
}
