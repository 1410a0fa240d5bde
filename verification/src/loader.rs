//! The checks that the image processor makes before it hands a buffer to a plugin,
//! and the command-line arguments it runs with.

use vstd::prelude::*;
use std::path::PathBuf;
use crate::pixels::{buffer_len, image_bytes, rgba_len};
use crate::mirror::{fits_mirror, MirrorParams};

verus! {

/// Makes `std::path::PathBuf` known to the verifier as an opaque type: the library only
/// carries paths through to its errors and never looks inside them.
#[verifier::external_type_specification]
#[verifier::external_body]
pub struct ExPathBuf(PathBuf);

/// What the image processor is asked to do: read `input`, run plugin `plugin` from the
/// directory `plugin_path` with the parameters in the file `params`, write `output`.
#[derive(Debug)]
pub struct CliArgs {
    pub input: PathBuf,
    pub output: PathBuf,
    pub plugin: String,
    pub params: PathBuf,
    pub plugin_path: PathBuf,
}

/// Failures of the checks made before a plugin runs.
#[derive(Debug)]
pub enum AppError {
    /// A required file does not exist.
    MissingPath { label: &'static str, path: PathBuf },
    /// A required path exists but is not a regular file.
    PathIsNotFile { label: &'static str, path: PathBuf },
    /// `width * height * 4` does not fit in `usize`.
    BufferSizeOverflow { width: u32, height: u32 },
    /// The pixel buffer is not `width * height * 4` bytes long.
    InvalidBufferLength { expected: usize, actual: usize },
}

/// The outcome of checking a path that must name an existing regular file.
pub open spec fn existing_file_outcome(
    path: PathBuf,
    label: &'static str,
    exists: bool,
    is_file: bool,
) -> Result<(), AppError> {
    if !exists {
        Err(AppError::MissingPath { label, path })
    } else if !is_file {
        Err(AppError::PathIsNotFile { label, path })
    } else {
        Ok(())
    }
}

/// Decides whether `path` names a usable input file, given whether it exists and whether
/// it is a regular file; `label` says which input it is.
pub fn validate_existing_file(path: PathBuf, label: &'static str, exists: bool, is_file: bool) -> (r:
    Result<(), AppError>)
    ensures
        r == existing_file_outcome(path, label, exists, is_file),
        !exists ==> r == Err::<(), AppError>(AppError::MissingPath { label, path }),
        exists && !is_file ==> r == Err::<(), AppError>(AppError::PathIsNotFile { label, path }),
        exists && is_file ==> r is Ok,
{
    if !exists {
        return Err(AppError::MissingPath { label, path });
    }
    if !is_file {
        return Err(AppError::PathIsNotFile { label, path });
    }
    Ok(())
}

/// The buffer length the image processor expects for a `width` x `height` image.
pub open spec fn expected_len(width: u32, height: u32) -> Result<usize, AppError> {
    if image_bytes(width as int, height as int) <= usize::MAX {
        Ok(image_bytes(width as int, height as int) as usize)
    } else {
        Err(AppError::BufferSizeOverflow { width, height })
    }
}

/// Length in bytes of a `width` x `height` RGBA buffer, or `BufferSizeOverflow`.
pub fn expected_buffer_len(width: u32, height: u32) -> (r: Result<usize, AppError>)
    ensures
        r == expected_len(width, height),
{
    match buffer_len(width, height) {
        Some(len) => Ok(len),
        None => Err(AppError::BufferSizeOverflow { width, height }),
    }
}

/// The outcome of checking a buffer of `actual` bytes against a `width` x `height` image.
pub open spec fn buffer_check(width: u32, height: u32, actual: usize) -> Result<usize, AppError> {
    match expected_len(width, height) {
        Ok(expected) => if actual == expected {
            Ok(expected)
        } else {
            Err(AppError::InvalidBufferLength { expected, actual })
        },
        Err(e) => Err(e),
    }
}

/// Checks that a buffer of `actual` bytes holds exactly one `width` x `height` RGBA image,
/// as a plugin requires; returns that length.
pub fn check_buffer_length(width: u32, height: u32, actual: usize) -> (r: Result<usize, AppError>)
    ensures
        r == buffer_check(width, height, actual),
{
    let expected: usize = match expected_buffer_len(width, height) {
        Ok(len) => len,
        Err(e) => return Err(e),
    };
    if actual != expected {
        return Err(AppError::InvalidBufferLength { expected, actual });
    }
    Ok(expected)
}

/// The buffer check accepts exactly the buffers of `width * height * 4` bytes: it returns
/// that length when the buffer has it, `InvalidBufferLength` with both lengths when it does
/// not, and `BufferSizeOverflow` only when the product does not fit in `usize`; the expected
/// length is that product whenever it fits.
pub proof fn lemma_buffer_check_outcome(width: u32, height: u32, actual: usize)
    ensures
        (width as int) * (height as int) * 4 <= usize::MAX ==> expected_len(width, height) == Ok::<
            usize,
            AppError,
        >(((width as int) * (height as int) * 4) as usize),
        (width as int) * (height as int) * 4 <= usize::MAX && actual == (width as int) * (
        height as int) * 4 ==> buffer_check(width, height, actual) == Ok::<usize, AppError>(actual),
        (width as int) * (height as int) * 4 <= usize::MAX && actual != (width as int) * (
        height as int) * 4 ==> buffer_check(width, height, actual) == Err::<usize, AppError>(
            AppError::InvalidBufferLength {
                expected: ((width as int) * (height as int) * 4) as usize,
                actual,
            },
        ),
        (width as int) * (height as int) * 4 > usize::MAX ==> expected_len(width, height) == Err::<
            usize,
            AppError,
        >(AppError::BufferSizeOverflow { width, height }) && buffer_check(width, height, actual)
            == Err::<usize, AppError>(AppError::BufferSizeOverflow { width, height }),
{
}

/// The image processor and the plugins agree on the buffer length: the processor
/// expects `Ok(n)` exactly when a plugin computes `Some(n)`, and a buffer that passes the
/// processor's check is long enough for a plugin to mirror it in any direction.
pub proof fn lemma_check_admits_plugin(width: u32, height: u32, actual: usize, params: MirrorParams)
    ensures
        expected_len(width, height) == (match rgba_len(width, height) {
            Some(n) => Ok(n),
            None => Err(AppError::BufferSizeOverflow { width, height }),
        }),
        buffer_check(width, height, actual) is Ok ==> rgba_len(width, height) == Some(actual)
            && fits_mirror(actual as int, width as int, height as int, params),
{
}

} // verus!
