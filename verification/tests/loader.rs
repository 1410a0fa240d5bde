use image_processor::loader::{check_buffer_length, expected_buffer_len, validate_existing_file, AppError};
use image_processor::mirror::{apply_mirror, MirrorParams};
use image_processor::pixels::buffer_len;
use std::path::PathBuf;

#[test]
fn expected_length_of_small_images() {
    assert!(matches!(expected_buffer_len(2, 2), Ok(16)));
    assert!(matches!(expected_buffer_len(0, 0), Ok(0)));
}

#[test]
fn expected_length_overflow() {
    if usize::BITS == 64 {
        assert!(matches!(
            expected_buffer_len(u32::MAX, u32::MAX),
            Err(AppError::BufferSizeOverflow { width: u32::MAX, height: u32::MAX })
        ));
    }
}

#[test]
fn buffer_of_exact_length_passes() {
    assert!(matches!(check_buffer_length(3, 2, 24), Ok(24)));
}

#[test]
fn buffer_of_wrong_length_fails() {
    assert!(matches!(
        check_buffer_length(3, 2, 23),
        Err(AppError::InvalidBufferLength { expected: 24, actual: 23 })
    ));
    assert!(matches!(
        check_buffer_length(3, 2, 25),
        Err(AppError::InvalidBufferLength { expected: 24, actual: 25 })
    ));
}

#[test]
fn overflow_comes_before_length() {
    if usize::BITS == 64 {
        assert!(matches!(
            check_buffer_length(u32::MAX, u32::MAX, 0),
            Err(AppError::BufferSizeOverflow { .. })
        ));
    }
}

#[test]
fn missing_file_is_reported_first() {
    let result = validate_existing_file(PathBuf::from("in.png"), "input image", false, false);
    match result {
        Err(AppError::MissingPath { label, path }) => {
            assert_eq!(label, "input image");
            assert_eq!(path, PathBuf::from("in.png"));
        }
        other => panic!("unexpected {:?}", other),
    }
}

#[test]
fn directory_is_not_a_file() {
    let result = validate_existing_file(PathBuf::from("dir"), "params file", true, false);
    assert!(matches!(result, Err(AppError::PathIsNotFile { label: "params file", .. })));
}

#[test]
fn existing_file_passes() {
    assert!(validate_existing_file(PathBuf::from("in.png"), "input image", true, true).is_ok());
}

#[test]
fn loader_and_plugins_agree_on_length() {
    for (width, height) in [(0u32, 5u32), (3, 2), (640, 480), (u32::MAX, u32::MAX), (1 << 20, 1 << 11)] {
        match (expected_buffer_len(width, height), buffer_len(width, height)) {
            (Ok(expected), Some(len)) => assert_eq!(expected, len),
            (Err(AppError::BufferSizeOverflow { .. }), None) => {}
            _ => panic!("disagreement for {}x{}", width, height),
        }
    }
}

#[test]
fn checked_buffer_can_be_mirrored() {
    let mut buffer: Vec<u8> = (0u8..24).collect();
    let len = check_buffer_length(3, 2, buffer.len()).unwrap();
    assert_eq!(len, 24);
    apply_mirror(&mut buffer, 3, 2, MirrorParams { horizontal: true, vertical: true });
    assert_eq!(buffer[0..4], [20, 21, 22, 23]);
}
