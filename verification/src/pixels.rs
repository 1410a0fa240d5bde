//! Layout of an RGBA buffer: four bytes per pixel, rows one after another.

use vstd::prelude::*;

verus! {

/// Number of bytes per RGBA pixel.
pub const CHANNELS: usize = 4;

/// Index of the first byte of pixel `(x, y)` in an image `width` pixels wide.
pub open spec fn pixel_index(x: int, y: int, width: int) -> int {
    (y * width + x) * 4
}

/// Number of bytes of an RGBA image of the given size.
pub open spec fn image_bytes(width: int, height: int) -> int {
    width * height * 4
}

/// Column of the pixel that byte `i` belongs to.
pub open spec fn byte_x(i: int, width: int) -> int {
    (i / 4) % width
}

/// Row of the pixel that byte `i` belongs to.
pub open spec fn byte_y(i: int, width: int) -> int {
    (i / 4) / width
}

/// Channel (0 = red, 1 = green, 2 = blue, 3 = alpha) that byte `i` holds.
pub open spec fn byte_channel(i: int) -> int {
    i % 4
}

/// Channel `c` of pixel `(x, y)` in the bytes `s` of an image `width` pixels wide.
pub open spec fn pixel_byte(s: Seq<u8>, x: int, y: int, c: int, width: int) -> u8 {
    s[pixel_index(x, y, width) + c]
}

/// Reading a byte index back into coordinates gives the coordinates it was made from.
pub proof fn lemma_encode(x: int, y: int, c: int, width: int)
    requires
        0 <= x < width,
        0 <= y,
        0 <= c < 4,
    ensures
        byte_x(pixel_index(x, y, width) + c, width) == x,
        byte_y(pixel_index(x, y, width) + c, width) == y,
        byte_channel(pixel_index(x, y, width) + c) == c,
{
    let p = y * width + x;
    assert(pixel_index(x, y, width) + c == p * 4 + c);
    vstd::arithmetic::div_mod::lemma_fundamental_div_mod_converse(p * 4 + c, 4, p, c);
    vstd::arithmetic::div_mod::lemma_fundamental_div_mod_converse(p, width, y, x);
}

/// Every byte of a `width` x `height` image belongs to exactly one pixel and channel.
pub proof fn lemma_decode(i: int, width: int, height: int)
    requires
        0 <= i < image_bytes(width, height),
        0 <= width,
        0 <= height,
    ensures
        0 <= byte_x(i, width) < width,
        0 <= byte_y(i, width) < height,
        0 <= byte_channel(i) < 4,
        i == pixel_index(byte_x(i, width), byte_y(i, width), width) + byte_channel(i),
{
    let p = i / 4;
    let c = i % 4;
    vstd::arithmetic::div_mod::lemma_fundamental_div_mod(i, 4);
    vstd::arithmetic::div_mod::lemma_mod_pos_bound(i, 4);
    vstd::arithmetic::div_mod::lemma_div_pos_is_pos(i, 4);
    assert(p < width * height) by (nonlinear_arith)
        requires
            i == 4 * p + c,
            0 <= c < 4,
            i < width * height * 4,
            p >= 0,
    ;
    assert(width > 0) by (nonlinear_arith)
        requires
            0 <= p < width * height,
            width >= 0,
            height >= 0,
    ;
    let x = p % width;
    let y = p / width;
    vstd::arithmetic::div_mod::lemma_fundamental_div_mod(p, width);
    vstd::arithmetic::div_mod::lemma_mod_pos_bound(p, width);
    vstd::arithmetic::div_mod::lemma_div_pos_is_pos(p, width);
    assert(y < height) by (nonlinear_arith)
        requires
            p == width * y + x,
            0 <= x,
            p < width * height,
            width > 0,
    ;
    assert(i == (y * width + x) * 4 + c) by (nonlinear_arith)
        requires
            i == 4 * p + c,
            p == width * y + x,
    ;
}

/// The bytes of pixel `(x, y)` lie inside the image.
pub proof fn lemma_pixel_in_image(x: int, y: int, width: int, height: int)
    requires
        0 <= x < width,
        0 <= y < height,
    ensures
        0 <= pixel_index(x, y, width),
        pixel_index(x, y, width) + 4 <= image_bytes(width, height),
{
    assert(0 <= (y * width + x) * 4) by (nonlinear_arith)
        requires
            0 <= x < width,
            0 <= y,
    ;
    assert((y * width + x) * 4 + 4 <= width * height * 4) by (nonlinear_arith)
        requires
            0 <= x < width,
            0 <= y < height,
    ;
}

/// Byte offset of pixel `(x, y)`; the caller guarantees that it fits in `usize`.
pub fn pixel_offset(x: usize, y: usize, width: usize) -> (offset: usize)
    requires
        pixel_index(x as int, y as int, width as int) <= usize::MAX,
    ensures
        offset == pixel_index(x as int, y as int, width as int),
        offset == (y * width + x) * 4,
{
    proof {
        vstd::arithmetic::mul::lemma_mul_nonnegative(y as int, width as int);
    }
    (y * width + x) * 4
}

/// Length in bytes of a `width` x `height` RGBA buffer, when it fits in `usize`.
pub open spec fn rgba_len(width: u32, height: u32) -> Option<usize> {
    if image_bytes(width as int, height as int) <= usize::MAX {
        Some(image_bytes(width as int, height as int) as usize)
    } else {
        None
    }
}

/// `buffer_len` is `Some(width * height * 4)` whenever that product fits in `usize`, and
/// `None` only when it does not.
pub proof fn lemma_rgba_len_is_four_bytes_per_pixel(width: u32, height: u32)
    ensures
        (width as int) * (height as int) * 4 <= usize::MAX ==> rgba_len(width, height) == Some(
            ((width as int) * (height as int) * 4) as usize,
        ),
        (width as int) * (height as int) * 4 > usize::MAX ==> rgba_len(width, height) is None,
{
}

/// Length in bytes of a `width` x `height` RGBA buffer, or `None` when it
/// does not fit in `usize`.
pub fn buffer_len(width: u32, height: u32) -> (len: Option<usize>)
    ensures
        len == rgba_len(width, height),
{
    let w = width as usize;
    let h = height as usize;
    proof {
        vstd::arithmetic::mul::lemma_mul_nonnegative(w as int, h as int);
    }
    match w.checked_mul(h) {
        Some(pixels) => pixels.checked_mul(4),
        None => {
            proof {
                vstd::arithmetic::mul::lemma_mul_nonnegative(w as int, h as int);
                assert(w * h * 4 >= w * h);
            }
            None
        }
    }
}

} // verus!
