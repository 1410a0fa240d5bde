//! Mirroring an RGBA buffer left-right and top-bottom.

use vstd::prelude::*;
use crate::pixels::{
    byte_channel, byte_x, byte_y, image_bytes, lemma_decode, lemma_encode, lemma_pixel_in_image,
    pixel_byte, pixel_index, pixel_offset, CHANNELS,
};

verus! {

/// Which mirrors to apply; both off leaves the image as it is.
#[derive(Clone, Copy, Debug)]
pub struct MirrorParams {
    pub horizontal: bool,
    pub vertical: bool,
}

impl Default for MirrorParams {
    fn default() -> (params: Self)
        ensures
            !params.horizontal,
            !params.vertical,
    {
        MirrorParams { horizontal: false, vertical: false }
    }
}

/// `s` with the bytes at `a` and `b` exchanged (nothing changes when `a == b`).
pub open spec fn swap_bytes(s: Seq<u8>, a: int, b: int) -> Seq<u8> {
    s.update(a, s[b]).update(b, s[a])
}

/// `s` after exchanging the first `n` channels of the pixels starting at `left` and
/// `right`, one channel after the other.
pub open spec fn swapped_channels(s: Seq<u8>, left: int, right: int, n: nat) -> Seq<u8>
    decreases n,
{
    if n == 0 {
        s
    } else {
        let prev = swapped_channels(s, left, right, (n - 1) as nat);
        swap_bytes(prev, left + n - 1, right + n - 1)
    }
}

/// `s` after exchanging all four channels of the pixels starting at `left` and `right`.
pub open spec fn swapped_pixels(s: Seq<u8>, left: int, right: int) -> Seq<u8> {
    swapped_channels(s, left, right, 4)
}

/// When the two pixels do not overlap, swapping them moves each one's bytes to the
/// other's place and leaves every other byte alone.
pub proof fn lemma_swapped_disjoint(s: Seq<u8>, left: int, right: int, n: nat)
    requires
        n <= 4,
        0 <= left,
        0 <= right,
        left + 4 <= s.len(),
        right + 4 <= s.len(),
        left + 4 <= right || right + 4 <= left,
    ensures
        swapped_channels(s, left, right, n).len() == s.len(),
        forall|i: int|
            0 <= i < s.len() ==> #[trigger] swapped_channels(s, left, right, n)[i] == (if left <= i
                < left + n {
                s[right + (i - left)]
            } else if right <= i < right + n {
                s[left + (i - right)]
            } else {
                s[i]
            }),
    decreases n,
{
    if n > 0 {
        lemma_swapped_disjoint(s, left, right, (n - 1) as nat);
    }
}

/// Exchanges the four channels of the pixels whose first bytes are at `left` and `right`.
pub fn swap_pixel(buffer: &mut [u8], left: usize, right: usize)
    requires
        left + 4 <= old(buffer)@.len(),
        right + 4 <= old(buffer)@.len(),
    ensures
        final(buffer)@ == swapped_pixels(old(buffer)@, left as int, right as int),
{
    let ghost start = buffer@;
    let len: usize = buffer.len();
    for channel in 0..CHANNELS
        invariant
            start.len() == old(buffer)@.len(),
            len == start.len(),
            buffer@.len() == start.len(),
            left + 4 <= start.len(),
            right + 4 <= start.len(),
            buffer@ == swapped_channels(start, left as int, right as int, channel as nat),
    {
        let a: u8 = buffer[left + channel];
        let b: u8 = buffer[right + channel];
        buffer[left + channel] = b;
        buffer[right + channel] = a;
    }
}

/// A buffer of `len` bytes can be mirrored left-right as a `width` x `height` image:
/// either it holds the whole image, or there is no pair of columns to exchange.
pub open spec fn fits_horizontal(len: int, width: int, height: int) -> bool {
    width <= 1 || height == 0 || image_bytes(width, height) <= len
}

/// A buffer of `len` bytes can be mirrored top-bottom as a `width` x `height` image:
/// either it holds the whole image, or there is no pair of rows to exchange.
pub open spec fn fits_vertical(len: int, width: int, height: int) -> bool {
    height <= 1 || width == 0 || image_bytes(width, height) <= len
}

/// The byte that lands at index `i` when the image is mirrored left-right.
pub open spec fn horizontal_source(i: int, width: int) -> int {
    pixel_index(width - 1 - byte_x(i, width), byte_y(i, width), width) + byte_channel(i)
}

/// The byte that lands at index `i` when the image is mirrored top-bottom.
pub open spec fn vertical_source(i: int, width: int, height: int) -> int {
    pixel_index(byte_x(i, width), height - 1 - byte_y(i, width), width) + byte_channel(i)
}

/// The `width` x `height` image at the start of `s`, mirrored left-right; bytes past the
/// image stay where they are.
pub open spec fn mirrored_horizontally(s: Seq<u8>, width: int, height: int) -> Seq<u8> {
    Seq::new(
        s.len(),
        |i: int|
            if i < image_bytes(width, height) {
                s[horizontal_source(i, width)]
            } else {
                s[i]
            },
    )
}

/// The `width` x `height` image at the start of `s`, mirrored top-bottom; bytes past the
/// image stay where they are.
pub open spec fn mirrored_vertically(s: Seq<u8>, width: int, height: int) -> Seq<u8> {
    Seq::new(
        s.len(),
        |i: int|
            if i < image_bytes(width, height) {
                s[vertical_source(i, width, height)]
            } else {
                s[i]
            },
    )
}

/// Writing the coordinate form of a left-right mirror back as the buffer it describes.
proof fn lemma_horizontal_from_pixels(s: Seq<u8>, orig: Seq<u8>, width: int, height: int)
    requires
        s.len() == orig.len(),
        0 <= width,
        0 <= height,
        forall|x: int, y: int, c: int|
            0 <= x < width && 0 <= y < height && 0 <= c < 4 ==> #[trigger] pixel_byte(
                s,
                x,
                y,
                c,
                width,
            ) == pixel_byte(orig, width - 1 - x, y, c, width),
        forall|i: int| image_bytes(width, height) <= i < s.len() ==> s[i] == orig[i],
    ensures
        s == mirrored_horizontally(orig, width, height),
{
    assert forall|i: int| 0 <= i < s.len() implies s[i] == mirrored_horizontally(
        orig,
        width,
        height,
    )[i] by {
        if i < image_bytes(width, height) {
            lemma_decode(i, width, height);
            assert(pixel_byte(s, byte_x(i, width), byte_y(i, width), byte_channel(i), width)
                == pixel_byte(orig, width - 1 - byte_x(i, width), byte_y(i, width), byte_channel(i), width));
        }
    }
    assert(s =~= mirrored_horizontally(orig, width, height));
}

/// Writing the coordinate form of a top-bottom mirror back as the buffer it describes.
proof fn lemma_vertical_from_pixels(s: Seq<u8>, orig: Seq<u8>, width: int, height: int)
    requires
        s.len() == orig.len(),
        0 <= width,
        0 <= height,
        forall|x: int, y: int, c: int|
            0 <= x < width && 0 <= y < height && 0 <= c < 4 ==> #[trigger] pixel_byte(
                s,
                x,
                y,
                c,
                width,
            ) == pixel_byte(orig, x, height - 1 - y, c, width),
        forall|i: int| image_bytes(width, height) <= i < s.len() ==> s[i] == orig[i],
    ensures
        s == mirrored_vertically(orig, width, height),
{
    assert forall|i: int| 0 <= i < s.len() implies s[i] == mirrored_vertically(
        orig,
        width,
        height,
    )[i] by {
        if i < image_bytes(width, height) {
            lemma_decode(i, width, height);
            assert(pixel_byte(s, byte_x(i, width), byte_y(i, width), byte_channel(i), width)
                == pixel_byte(orig, byte_x(i, width), height - 1 - byte_y(i, width), byte_channel(i), width));
        }
    }
    assert(s =~= mirrored_vertically(orig, width, height));
}

/// Mirrors the image left-right: pixel `(x, y)` takes the value of `(width - 1 - x, y)`.
pub fn mirror_horizontally(buffer: &mut [u8], width: usize, height: usize)
    requires
        fits_horizontal(old(buffer)@.len() as int, width as int, height as int),
    ensures
        final(buffer)@ == mirrored_horizontally(old(buffer)@, width as int, height as int),
{
    let ghost orig = buffer@;
    let len: usize = buffer.len();
    let ghost w = width as int;
    for y in 0..height
        invariant
            orig == old(buffer)@,
            len == orig.len(),
            buffer@.len() == orig.len(),
            w == width as int,
            fits_horizontal(orig.len() as int, w, height as int),
            forall|xx: int, yy: int, c: int|
                0 <= xx < w && 0 <= yy < height && 0 <= c < 4 ==> #[trigger] pixel_byte(
                    buffer@,
                    xx,
                    yy,
                    c,
                    w,
                ) == (if yy < y {
                    pixel_byte(orig, w - 1 - xx, yy, c, w)
                } else {
                    pixel_byte(orig, xx, yy, c, w)
                }),
            forall|i: int| image_bytes(w, height as int) <= i < orig.len() ==> buffer@[i] == orig[i],
    {
        for x in 0..width / 2
            invariant
                orig == old(buffer)@,
                len == orig.len(),
                buffer@.len() == orig.len(),
                w == width as int,
                y < height,
                fits_horizontal(orig.len() as int, w, height as int),
                forall|xx: int, yy: int, c: int|
                    0 <= xx < w && 0 <= yy < height && 0 <= c < 4 ==> #[trigger] pixel_byte(
                        buffer@,
                        xx,
                        yy,
                        c,
                        w,
                    ) == (if yy < y || (yy == y && (xx < x || w - 1 - xx < x)) {
                        pixel_byte(orig, w - 1 - xx, yy, c, w)
                    } else {
                        pixel_byte(orig, xx, yy, c, w)
                    }),
                forall|i: int|
                    image_bytes(w, height as int) <= i < orig.len() ==> buffer@[i] == orig[i],
        {
            let mx: usize = width - 1 - x;
            proof {
                lemma_pixel_in_image(x as int, y as int, w, height as int);
                lemma_pixel_in_image(mx as int, y as int, w, height as int);
            }
            let left: usize = pixel_offset(x, y, width);
            let right: usize = pixel_offset(mx, y, width);
            let ghost pre = buffer@;
            proof {
                assert(left + 4 <= right) by (nonlinear_arith)
                    requires
                        left == (y * w + x) * 4,
                        right == (y * w + mx) * 4,
                        x < mx,
                ;
            }
            swap_pixel(buffer, left, right);
            proof {
                lemma_swapped_disjoint(pre, left as int, right as int, 4);
                assert forall|xx: int, yy: int, c: int|
                    0 <= xx < w && 0 <= yy < height && 0 <= c < 4 implies #[trigger] pixel_byte(
                        buffer@,
                        xx,
                        yy,
                        c,
                        w,
                    ) == (if yy < y || (yy == y && (xx < x + 1 || w - 1 - xx < x + 1)) {
                        pixel_byte(orig, w - 1 - xx, yy, c, w)
                    } else {
                        pixel_byte(orig, xx, yy, c, w)
                    }) by {
                    lemma_encode(xx, yy, c, w);
                    lemma_pixel_in_image(xx, yy, w, height as int);
                    let idx = pixel_index(xx, yy, w) + c;
                    if left <= idx < left + 4 {
                        lemma_encode(x as int, y as int, idx - left, w);
                        assert(pixel_byte(pre, mx as int, y as int, c, w) == pre[right + c]);
                    } else if right <= idx < right + 4 {
                        lemma_encode(mx as int, y as int, idx - right, w);
                        assert(pixel_byte(pre, x as int, y as int, c, w) == pre[left + c]);
                    } else {
                        assert(pixel_byte(buffer@, xx, yy, c, w) == pixel_byte(pre, xx, yy, c, w));
                    }
                }
            }
        }
        proof {
            assert forall|xx: int, yy: int, c: int|
                0 <= xx < w && 0 <= yy < height && 0 <= c < 4 implies #[trigger] pixel_byte(
                    buffer@,
                    xx,
                    yy,
                    c,
                    w,
                ) == (if yy < y + 1 {
                    pixel_byte(orig, w - 1 - xx, yy, c, w)
                } else {
                    pixel_byte(orig, xx, yy, c, w)
                }) by {
                if yy == y && !(xx < w / 2 || w - 1 - xx < w / 2) {
                    assert(w - 1 - xx == xx);
                }
            }
        }
    }
    proof {
        lemma_horizontal_from_pixels(buffer@, orig, w, height as int);
    }
}

/// Mirrors the image top-bottom: pixel `(x, y)` takes the value of `(x, height - 1 - y)`.
pub fn mirror_vertically(buffer: &mut [u8], width: usize, height: usize)
    requires
        fits_vertical(old(buffer)@.len() as int, width as int, height as int),
    ensures
        final(buffer)@ == mirrored_vertically(old(buffer)@, width as int, height as int),
{
    let ghost orig = buffer@;
    let len: usize = buffer.len();
    let ghost w = width as int;
    let ghost h = height as int;
    for y in 0..height / 2
        invariant
            orig == old(buffer)@,
            len == orig.len(),
            buffer@.len() == orig.len(),
            w == width as int,
            h == height as int,
            fits_vertical(orig.len() as int, w, h),
            forall|xx: int, yy: int, c: int|
                0 <= xx < w && 0 <= yy < h && 0 <= c < 4 ==> #[trigger] pixel_byte(
                    buffer@,
                    xx,
                    yy,
                    c,
                    w,
                ) == (if yy < y || h - 1 - yy < y {
                    pixel_byte(orig, xx, h - 1 - yy, c, w)
                } else {
                    pixel_byte(orig, xx, yy, c, w)
                }),
            forall|i: int| image_bytes(w, h) <= i < orig.len() ==> buffer@[i] == orig[i],
    {
        let my: usize = height - 1 - y;
        for x in 0..width
            invariant
                orig == old(buffer)@,
                len == orig.len(),
                buffer@.len() == orig.len(),
                w == width as int,
                h == height as int,
                y < height / 2,
                my == h - 1 - y,
                fits_vertical(orig.len() as int, w, h),
                forall|xx: int, yy: int, c: int|
                    0 <= xx < w && 0 <= yy < h && 0 <= c < 4 ==> #[trigger] pixel_byte(
                        buffer@,
                        xx,
                        yy,
                        c,
                        w,
                    ) == (if yy < y || h - 1 - yy < y || ((yy == y || yy == my) && xx < x) {
                        pixel_byte(orig, xx, h - 1 - yy, c, w)
                    } else {
                        pixel_byte(orig, xx, yy, c, w)
                    }),
                forall|i: int| image_bytes(w, h) <= i < orig.len() ==> buffer@[i] == orig[i],
        {
            proof {
                lemma_pixel_in_image(x as int, y as int, w, h);
                lemma_pixel_in_image(x as int, my as int, w, h);
            }
            let top: usize = pixel_offset(x, y, width);
            let bottom: usize = pixel_offset(x, my, width);
            let ghost pre = buffer@;
            proof {
                assert(top + 4 <= bottom) by (nonlinear_arith)
                    requires
                        top == (y * w + x) * 4,
                        bottom == (my * w + x) * 4,
                        y < my,
                        x < w,
                ;
            }
            swap_pixel(buffer, top, bottom);
            proof {
                lemma_swapped_disjoint(pre, top as int, bottom as int, 4);
                assert forall|xx: int, yy: int, c: int|
                    0 <= xx < w && 0 <= yy < h && 0 <= c < 4 implies #[trigger] pixel_byte(
                        buffer@,
                        xx,
                        yy,
                        c,
                        w,
                    ) == (if yy < y || h - 1 - yy < y || ((yy == y || yy == my) && xx < x + 1) {
                        pixel_byte(orig, xx, h - 1 - yy, c, w)
                    } else {
                        pixel_byte(orig, xx, yy, c, w)
                    }) by {
                    lemma_encode(xx, yy, c, w);
                    lemma_pixel_in_image(xx, yy, w, h);
                    let idx = pixel_index(xx, yy, w) + c;
                    if top <= idx < top + 4 {
                        lemma_encode(x as int, y as int, idx - top, w);
                        assert(pixel_byte(pre, x as int, my as int, c, w) == pre[bottom + c]);
                    } else if bottom <= idx < bottom + 4 {
                        lemma_encode(x as int, my as int, idx - bottom, w);
                        assert(pixel_byte(pre, x as int, y as int, c, w) == pre[top + c]);
                    } else {
                        assert(pixel_byte(buffer@, xx, yy, c, w) == pixel_byte(pre, xx, yy, c, w));
                    }
                }
            }
        }
    }
    proof {
        assert forall|xx: int, yy: int, c: int|
            0 <= xx < w && 0 <= yy < h && 0 <= c < 4 implies #[trigger] pixel_byte(
                buffer@,
                xx,
                yy,
                c,
                w,
            ) == pixel_byte(orig, xx, h - 1 - yy, c, w) by {
            if !(yy < h / 2 || h - 1 - yy < h / 2) {
                assert(h - 1 - yy == yy);
            }
        }
        lemma_vertical_from_pixels(buffer@, orig, w, h);
    }
}

/// The image at the start of `s` after the mirrors that `params` asks for: left-right
/// first, then top-bottom.
pub open spec fn mirrored(s: Seq<u8>, width: int, height: int, params: MirrorParams) -> Seq<u8> {
    let once = if params.horizontal {
        mirrored_horizontally(s, width, height)
    } else {
        s
    };
    if params.vertical {
        mirrored_vertically(once, width, height)
    } else {
        once
    }
}

/// A buffer of `len` bytes can take the mirrors that `params` asks for.
pub open spec fn fits_mirror(len: int, width: int, height: int, params: MirrorParams) -> bool {
    &&& params.horizontal ==> fits_horizontal(len, width, height)
    &&& params.vertical ==> fits_vertical(len, width, height)
}

/// Applies the mirrors that `params` asks for: left-right first, then top-bottom.
pub fn apply_mirror(buffer: &mut [u8], width: usize, height: usize, params: MirrorParams)
    requires
        fits_mirror(old(buffer)@.len() as int, width as int, height as int, params),
    ensures
        final(buffer)@ == mirrored(old(buffer)@, width as int, height as int, params),
{
    if params.horizontal {
        mirror_horizontally(buffer, width, height);
    }
    if params.vertical {
        mirror_vertically(buffer, width, height);
    }
}

/// An image one pixel wide, or with no rows, has nothing to exchange left-right.
proof fn lemma_horizontal_degenerate(s: Seq<u8>, width: int, height: int)
    requires
        0 <= width <= 1 || height == 0,
        0 <= width,
        0 <= height,
    ensures
        mirrored_horizontally(s, width, height) == s,
{
    assert forall|i: int| 0 <= i < s.len() implies mirrored_horizontally(s, width, height)[i]
        == s[i] by {
        if i < image_bytes(width, height) {
            lemma_decode(i, width, height);
        }
    }
    assert(mirrored_horizontally(s, width, height) =~= s);
}

/// An image one pixel high, or with no columns, has nothing to exchange top-bottom.
proof fn lemma_vertical_degenerate(s: Seq<u8>, width: int, height: int)
    requires
        0 <= height <= 1 || width == 0,
        0 <= width,
        0 <= height,
    ensures
        mirrored_vertically(s, width, height) == s,
{
    assert forall|i: int| 0 <= i < s.len() implies mirrored_vertically(s, width, height)[i]
        == s[i] by {
        if i < image_bytes(width, height) {
            lemma_decode(i, width, height);
        }
    }
    assert(mirrored_vertically(s, width, height) =~= s);
}

/// Mirroring left-right twice gives back the buffer it started from.
pub proof fn lemma_horizontal_involution(s: Seq<u8>, width: int, height: int)
    requires
        0 <= width,
        0 <= height,
        fits_horizontal(s.len() as int, width, height),
    ensures
        mirrored_horizontally(mirrored_horizontally(s, width, height), width, height) == s,
{
    if width <= 1 || height == 0 {
        lemma_horizontal_degenerate(s, width, height);
        lemma_horizontal_degenerate(s, width, height);
    } else {
        let once = mirrored_horizontally(s, width, height);
        assert forall|i: int| 0 <= i < s.len() implies mirrored_horizontally(once, width, height)[i]
            == s[i] by {
            if i < image_bytes(width, height) {
                lemma_decode(i, width, height);
                let x = byte_x(i, width);
                let y = byte_y(i, width);
                let c = byte_channel(i);
                lemma_pixel_in_image(width - 1 - x, y, width, height);
                lemma_encode(width - 1 - x, y, c, width);
            }
        }
        assert(mirrored_horizontally(once, width, height) =~= s);
    }
}

/// Mirroring top-bottom twice gives back the buffer it started from.
pub proof fn lemma_vertical_involution(s: Seq<u8>, width: int, height: int)
    requires
        0 <= width,
        0 <= height,
        fits_vertical(s.len() as int, width, height),
    ensures
        mirrored_vertically(mirrored_vertically(s, width, height), width, height) == s,
{
    if height <= 1 || width == 0 {
        lemma_vertical_degenerate(s, width, height);
        lemma_vertical_degenerate(s, width, height);
    } else {
        let once = mirrored_vertically(s, width, height);
        assert forall|i: int| 0 <= i < s.len() implies mirrored_vertically(once, width, height)[i]
            == s[i] by {
            if i < image_bytes(width, height) {
                lemma_decode(i, width, height);
                let x = byte_x(i, width);
                let y = byte_y(i, width);
                let c = byte_channel(i);
                lemma_pixel_in_image(x, height - 1 - y, width, height);
                lemma_encode(x, height - 1 - y, c, width);
            }
        }
        assert(mirrored_vertically(once, width, height) =~= s);
    }
}

/// Both mirrors together turn the image half a turn: pixel number `k` (counting row by
/// row) takes the value of pixel number `width * height - 1 - k`, whichever mirror
/// comes first.
pub proof fn lemma_both_mirrors_reverse_pixels(s: Seq<u8>, width: int, height: int)
    requires
        0 <= width,
        0 <= height,
        fits_horizontal(s.len() as int, width, height),
        fits_vertical(s.len() as int, width, height),
    ensures
        mirrored_vertically(mirrored_horizontally(s, width, height), width, height)
            == mirrored_horizontally(mirrored_vertically(s, width, height), width, height),
        mirrored_vertically(mirrored_horizontally(s, width, height), width, height).len()
            == s.len(),
        forall|i: int|
            0 <= i < image_bytes(width, height) ==> #[trigger] mirrored_vertically(
                mirrored_horizontally(s, width, height),
                width,
                height,
            )[i] == s[(width * height - 1 - i / 4) * 4 + i % 4],
        forall|i: int|
            image_bytes(width, height) <= i < s.len() ==> #[trigger] mirrored_vertically(
                mirrored_horizontally(s, width, height),
                width,
                height,
            )[i] == s[i],
{
    let hv = mirrored_vertically(mirrored_horizontally(s, width, height), width, height);
    let vh = mirrored_horizontally(mirrored_vertically(s, width, height), width, height);
    if image_bytes(width, height) <= s.len() {
        assert forall|i: int| 0 <= i < image_bytes(width, height) implies hv[i] == s[(width
            * height - 1 - i / 4) * 4 + i % 4] && vh[i] == hv[i] by {
            lemma_decode(i, width, height);
            let x = byte_x(i, width);
            let y = byte_y(i, width);
            let c = byte_channel(i);
            lemma_pixel_in_image(x, height - 1 - y, width, height);
            lemma_encode(x, height - 1 - y, c, width);
            lemma_pixel_in_image(width - 1 - x, y, width, height);
            lemma_encode(width - 1 - x, y, c, width);
            assert(i / 4 == y * width + x) by (nonlinear_arith)
                requires
                    i == (y * width + x) * 4 + c,
                    0 <= c < 4,
            ;
            assert(pixel_index(width - 1 - x, height - 1 - y, width) == (width * height - 1 - (y
                * width + x)) * 4) by (nonlinear_arith);
        }
        assert(hv =~= vh);
    } else {
        assert(width == 1 && height == 1);
        lemma_horizontal_degenerate(s, width, height);
        lemma_vertical_degenerate(s, width, height);
        assert(hv == s);
        assert(vh == s);
        assert forall|i: int| 0 <= i < image_bytes(width, height) implies hv[i] == s[(width
            * height - 1 - i / 4) * 4 + i % 4] by {
            assert(i / 4 == 0);
            assert(i % 4 == i);
        }
    }
}

/// With neither mirror asked for, the buffer stays as it is.
pub proof fn lemma_no_mirror_keeps(s: Seq<u8>, width: int, height: int)
    ensures
        mirrored(s, width, height, MirrorParams { horizontal: false, vertical: false }) == s,
{
}

/// What `apply_mirror` does to one byte of the image: channel `c` of pixel `(x, y)` takes
/// channel `c` of pixel `(x', y')`, where `x' = width - 1 - x` when mirroring left-right
/// (else `x`) and `y' = height - 1 - y` when mirroring top-bottom (else `y`), whatever the
/// size of the image.
pub proof fn lemma_mirror_moves_pixel(
    s: Seq<u8>,
    width: int,
    height: int,
    params: MirrorParams,
    x: int,
    y: int,
    c: int,
)
    requires
        0 <= x < width,
        0 <= y < height,
        0 <= c < 4,
        width * height * 4 <= s.len(),
    ensures
        mirrored(s, width, height, params).len() == s.len(),
        mirrored(s, width, height, params)[(y * width + x) * 4 + c] == s[((if params.vertical {
            height - 1 - y
        } else {
            y
        }) * width + (if params.horizontal {
            width - 1 - x
        } else {
            x
        })) * 4 + c],
{
    lemma_pixel_in_image(x, y, width, height);
    lemma_encode(x, y, c, width);
    let i = (y * width + x) * 4 + c;
    assert(i == pixel_index(x, y, width) + c);
    let hs = mirrored_horizontally(s, width, height);
    let once = if params.horizontal {
        hs
    } else {
        s
    };
    // the horizontal step, at any pixel (x, yy)
    assert forall|yy: int| 0 <= yy < height implies #[trigger] once[pixel_index(x, yy, width) + c]
        == s[pixel_index(
        if params.horizontal {
            width - 1 - x
        } else {
            x
        },
        yy,
        width,
    ) + c] by {
        lemma_pixel_in_image(x, yy, width, height);
        lemma_encode(x, yy, c, width);
    }
    if params.vertical {
        lemma_pixel_in_image(x, height - 1 - y, width, height);
        lemma_encode(x, height - 1 - y, c, width);
        assert(once[pixel_index(x, height - 1 - y, width) + c] == s[pixel_index(
            if params.horizontal {
                width - 1 - x
            } else {
                x
            },
            height - 1 - y,
            width,
        ) + c]);
    } else {
        assert(once[pixel_index(x, y, width) + c] == s[pixel_index(
            if params.horizontal {
                width - 1 - x
            } else {
                x
            },
            y,
            width,
        ) + c]);
    }
}

/// `apply_mirror` leaves every byte past the `width * height * 4` bytes of the image as it
/// was.
pub proof fn lemma_mirror_keeps_tail(
    s: Seq<u8>,
    width: int,
    height: int,
    params: MirrorParams,
    i: int,
)
    requires
        0 <= width,
        0 <= height,
        width * height * 4 <= i < s.len(),
    ensures
        mirrored(s, width, height, params)[i] == s[i],
{
}

/// Applying the same mirror parameters twice gives back the original image.
pub proof fn lemma_mirror_twice_restores(
    s: Seq<u8>,
    width: int,
    height: int,
    params: MirrorParams,
)
    requires
        0 <= width,
        0 <= height,
        fits_mirror(s.len() as int, width, height, params),
    ensures
        mirrored(mirrored(s, width, height, params), width, height, params) == s,
{
    if params.horizontal && params.vertical {
        let h = mirrored_horizontally(s, width, height);
        lemma_horizontal_involution(s, width, height);
        lemma_both_mirrors_reverse_pixels(h, width, height);
        lemma_horizontal_involution(mirrored_vertically(h, width, height), width, height);
        // V(H(V(H(s)))) == V(V(H(H(s))))
        lemma_vertical_involution(s, width, height);
        assert(mirrored_horizontally(mirrored_vertically(h, width, height), width, height)
            == mirrored_vertically(s, width, height));
    } else if params.horizontal {
        lemma_horizontal_involution(s, width, height);
    } else if params.vertical {
        lemma_vertical_involution(s, width, height);
    }
}

} // verus!
