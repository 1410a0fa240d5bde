//! The integer side of the box-and-distance blur: when a pass does nothing, which
//! window of neighbours a pixel looks at, and which of them lie within the radius.
//! The weighting of those neighbours is floating point and stays with the caller.

use vstd::prelude::*;
use crate::pixels::{image_bytes, pixel_index, pixel_offset};

verus! {

/// Blur settings: the radius of the neighbourhood and how many passes to run.
#[derive(Clone, Copy, Debug)]
pub struct BlurParams {
    pub radius: u32,
    pub iterations: u32,
}

impl Default for BlurParams {
    fn default() -> (params: Self)
        ensures
            params.radius == 0,
            params.iterations == 1,
    {
        BlurParams { radius: 0, iterations: 1 }
    }
}

/// True when a blur with `params` on a `width` x `height` image returns at once and
/// leaves the buffer as it was.
pub fn blur_is_noop(width: usize, height: usize, params: BlurParams) -> (noop: bool)
    ensures
        noop == (width == 0 || height == 0 || params.radius == 0 || params.iterations == 0),
{
    width == 0 || height == 0 || params.radius == 0 || params.iterations == 0
}

/// The inclusive rectangle of pixels that a blur of the given radius looks at around
/// one pixel, cut to the image.
#[derive(Clone, Copy, Debug)]
pub struct BlurWindow {
    pub x_start: usize,
    pub x_end: usize,
    pub y_start: usize,
    pub y_end: usize,
}

/// First coordinate of the window around `c`: `c - radius`, or 0 below that.
pub open spec fn window_start(c: int, radius: int) -> int {
    if c >= radius {
        c - radius
    } else {
        0
    }
}

/// Last coordinate of the window around `c`: `c + radius`, or `size - 1` past that.
pub open spec fn window_end(c: int, radius: int, size: int) -> int {
    if c + radius <= size - 1 {
        c + radius
    } else {
        size - 1
    }
}

/// The neighbourhood window of pixel `(x, y)`.
pub fn blur_window(x: usize, y: usize, width: usize, height: usize, radius: usize) -> (win:
    BlurWindow)
    requires
        x < width,
        y < height,
        x + radius <= usize::MAX,
        y + radius <= usize::MAX,
    ensures
        win.x_start == window_start(x as int, radius as int),
        win.x_end == window_end(x as int, radius as int, width as int),
        win.y_start == window_start(y as int, radius as int),
        win.y_end == window_end(y as int, radius as int, height as int),
{
    let x_start: usize = x.saturating_sub(radius);
    let y_start: usize = y.saturating_sub(radius);
    let x_end: usize = if x + radius <= width - 1 {
        x + radius
    } else {
        width - 1
    };
    let y_end: usize = if y + radius <= height - 1 {
        y + radius
    } else {
        height - 1
    };
    BlurWindow { x_start, x_end, y_start, y_end }
}

/// One neighbour that contributes to a blurred pixel: where its bytes start in the
/// buffer and its squared distance from the pixel being blurred.
#[derive(Clone, Copy, Debug, PartialEq, Eq)]
pub struct Tap {
    pub offset: usize,
    pub distance_sq: u64,
}

/// Squared distance between pixels `(x, y)` and `(nx, ny)`.
pub open spec fn distance_sq(x: int, y: int, nx: int, ny: int) -> int {
    (nx - x) * (nx - x) + (ny - y) * (ny - y)
}

/// The tap that neighbour `(nx, ny)` gives pixel `(x, y)`.
pub open spec fn tap_at(x: int, y: int, nx: int, ny: int, width: int) -> Tap {
    Tap {
        offset: pixel_index(nx, ny, width) as usize,
        distance_sq: distance_sq(x, y, nx, ny) as u64,
    }
}

/// The taps of pixel `(x, y)` in row `ny`, columns `lo` up to but not including `hi`,
/// left to right, keeping the neighbours within the radius.
pub open spec fn row_taps(x: int, y: int, ny: int, lo: int, hi: int, width: int, radius: int) -> Seq<
    Tap,
>
    decreases hi - lo,
{
    if hi <= lo {
        Seq::empty()
    } else {
        let before = row_taps(x, y, ny, lo, hi - 1, width, radius);
        if distance_sq(x, y, hi - 1, ny) <= radius * radius {
            before.push(tap_at(x, y, hi - 1, ny, width))
        } else {
            before
        }
    }
}

/// The taps of pixel `(x, y)` in rows `y_lo` up to but not including `y_hi` and columns
/// `x_lo` up to but not including `x_hi`, row after row.
pub open spec fn window_taps(
    x: int,
    y: int,
    y_lo: int,
    y_hi: int,
    x_lo: int,
    x_hi: int,
    width: int,
    radius: int,
) -> Seq<Tap>
    decreases y_hi - y_lo,
{
    if y_hi <= y_lo {
        Seq::empty()
    } else {
        window_taps(x, y, y_lo, y_hi - 1, x_lo, x_hi, width, radius) + row_taps(
            x,
            y,
            y_hi - 1,
            x_lo,
            x_hi,
            width,
            radius,
        )
    }
}

/// Every neighbour of `(x, y)` within its window and within `radius`, in the order of
/// their bytes in the buffer (row by row, left to right).
pub open spec fn kernel(x: int, y: int, width: int, height: int, radius: int) -> Seq<Tap> {
    window_taps(
        x,
        y,
        window_start(y, radius),
        window_end(y, radius, height) + 1,
        window_start(x, radius),
        window_end(x, radius, width) + 1,
        width,
        radius,
    )
}

/// The larger of two integers.
pub open spec fn larger(a: int, b: int) -> int {
    if a >= b {
        a
    } else {
        b
    }
}

/// The squared distance of every neighbour in the window around `(x, y)` fits in a `u64`
/// (it does for any image that is not billions of pixels wide).
pub open spec fn kernel_fits(x: int, y: int, width: int, height: int, radius: int) -> bool {
    let dx = larger(x - window_start(x, radius), window_end(x, radius, width) - x);
    let dy = larger(y - window_start(y, radius), window_end(y, radius, height) - y);
    dx * dx + dy * dy <= u64::MAX
}

/// Pixel `(nx, ny)` lies in columns `x_lo..x_hi` and rows `y_lo..y_hi` and within
/// `radius` of `(x, y)`.
pub open spec fn counts(
    x: int,
    y: int,
    nx: int,
    ny: int,
    x_lo: int,
    x_hi: int,
    y_lo: int,
    y_hi: int,
    radius: int,
) -> bool {
    &&& x_lo <= nx < x_hi
    &&& y_lo <= ny < y_hi
    &&& distance_sq(x, y, nx, ny) <= radius * radius
}

/// `t` is the tap of some pixel in columns `x_lo..x_hi`, rows `y_lo..y_hi`, within
/// `radius` of `(x, y)`.
pub open spec fn is_tap_of(
    t: Tap,
    x: int,
    y: int,
    x_lo: int,
    x_hi: int,
    y_lo: int,
    y_hi: int,
    width: int,
    radius: int,
) -> bool {
    exists|nx: int, ny: int|
        #![trigger tap_at(x, y, nx, ny, width)]
        counts(x, y, nx, ny, x_lo, x_hi, y_lo, y_hi, radius) && t == tap_at(x, y, nx, ny, width)
}

/// The taps of a row are exactly its columns within the radius, left to right.
proof fn lemma_row_taps_exact(
    x: int,
    y: int,
    ny: int,
    lo: int,
    hi: int,
    width: int,
    height: int,
    radius: int,
)
    requires
        0 <= lo,
        hi <= width,
        0 <= ny < height,
        image_bytes(width, height) <= usize::MAX,
    ensures
        forall|k: int|
            0 <= k < row_taps(x, y, ny, lo, hi, width, radius).len() ==> is_tap_of(
                #[trigger] row_taps(x, y, ny, lo, hi, width, radius)[k],
                x,
                y,
                lo,
                hi,
                ny,
                ny + 1,
                width,
                radius,
            ),
        forall|nx: int|
            #![trigger tap_at(x, y, nx, ny, width)]
            counts(x, y, nx, ny, lo, hi, ny, ny + 1, radius) ==> row_taps(
                x,
                y,
                ny,
                lo,
                hi,
                width,
                radius,
            ).contains(tap_at(x, y, nx, ny, width)),
        forall|i: int, j: int|
            0 <= i < j < row_taps(x, y, ny, lo, hi, width, radius).len() ==> (#[trigger] row_taps(
                x,
                y,
                ny,
                lo,
                hi,
                width,
                radius,
            )[i]).offset < (#[trigger] row_taps(x, y, ny, lo, hi, width, radius)[j]).offset,
    decreases hi - lo,
{
    let row = row_taps(x, y, ny, lo, hi, width, radius);
    if hi > lo {
        lemma_row_taps_exact(x, y, ny, lo, hi - 1, width, height, radius);
        let before = row_taps(x, y, ny, lo, hi - 1, width, radius);
        let last = hi - 1;
        let t = tap_at(x, y, last, ny, width);
        crate::pixels::lemma_pixel_in_image(last, ny, width, height);
        let within = distance_sq(x, y, last, ny) <= radius * radius;
        if within {
            assert(row == before.push(t));
        } else {
            assert(row == before);
        }
        assert forall|k: int| 0 <= k < row.len() implies is_tap_of(
            #[trigger] row[k],
            x,
            y,
            lo,
            hi,
            ny,
            ny + 1,
            width,
            radius,
        ) by {
            if k < before.len() {
                assert(row[k] == before[k]);
                assert(is_tap_of(before[k], x, y, lo, hi - 1, ny, ny + 1, width, radius));
                let (nx, my) = choose|nx: int, my: int|
                    #![trigger tap_at(x, y, nx, my, width)]
                    counts(x, y, nx, my, lo, hi - 1, ny, ny + 1, radius) && before[k] == tap_at(
                        x,
                        y,
                        nx,
                        my,
                        width,
                    );
                assert(counts(x, y, nx, my, lo, hi, ny, ny + 1, radius));
            } else {
                assert(row[k] == t);
                assert(counts(x, y, last, ny, lo, hi, ny, ny + 1, radius));
            }
        }
        assert forall|nx: int|
            #![trigger tap_at(x, y, nx, ny, width)]
            counts(x, y, nx, ny, lo, hi, ny, ny + 1, radius) implies row.contains(
            tap_at(x, y, nx, ny, width),
        ) by {
            if nx < last {
                assert(counts(x, y, nx, ny, lo, hi - 1, ny, ny + 1, radius));
                let k = choose|k: int|
                    0 <= k < before.len() && before[k] == tap_at(x, y, nx, ny, width);
                assert(row[k] == before[k]);
            } else {
                assert(row[before.len() as int] == t);
            }
        }
        assert forall|i: int, j: int| 0 <= i < j < row.len() implies (#[trigger] row[i]).offset
            < (#[trigger] row[j]).offset by {
            assert(row[i] == before[i]);
            if j < before.len() {
                assert(row[j] == before[j]);
            } else {
                assert(is_tap_of(before[i], x, y, lo, hi - 1, ny, ny + 1, width, radius));
                let (nx, my) = choose|nx: int, my: int|
                    #![trigger tap_at(x, y, nx, my, width)]
                    counts(x, y, nx, my, lo, hi - 1, ny, ny + 1, radius) && before[i] == tap_at(
                        x,
                        y,
                        nx,
                        my,
                        width,
                    );
                crate::pixels::lemma_pixel_in_image(nx, ny, width, height);
                assert(row[j] == t);
            }
        }
    }
}

/// The taps of a block of rows are exactly its pixels within the radius, in the order of
/// their bytes.
proof fn lemma_window_taps_exact(
    x: int,
    y: int,
    y_lo: int,
    y_hi: int,
    x_lo: int,
    x_hi: int,
    width: int,
    height: int,
    radius: int,
)
    requires
        0 <= y_lo,
        y_hi <= height,
        0 <= x_lo,
        x_hi <= width,
        image_bytes(width, height) <= usize::MAX,
    ensures
        forall|k: int|
            0 <= k < window_taps(x, y, y_lo, y_hi, x_lo, x_hi, width, radius).len() ==> is_tap_of(
                #[trigger] window_taps(x, y, y_lo, y_hi, x_lo, x_hi, width, radius)[k],
                x,
                y,
                x_lo,
                x_hi,
                y_lo,
                y_hi,
                width,
                radius,
            ),
        forall|nx: int, ny: int|
            #![trigger tap_at(x, y, nx, ny, width)]
            counts(x, y, nx, ny, x_lo, x_hi, y_lo, y_hi, radius) ==> window_taps(
                x,
                y,
                y_lo,
                y_hi,
                x_lo,
                x_hi,
                width,
                radius,
            ).contains(tap_at(x, y, nx, ny, width)),
        forall|i: int, j: int|
            0 <= i < j < window_taps(x, y, y_lo, y_hi, x_lo, x_hi, width, radius).len() ==> (
            #[trigger] window_taps(x, y, y_lo, y_hi, x_lo, x_hi, width, radius)[i]).offset < (
            #[trigger] window_taps(x, y, y_lo, y_hi, x_lo, x_hi, width, radius)[j]).offset,
    decreases y_hi - y_lo,
{
    let win = window_taps(x, y, y_lo, y_hi, x_lo, x_hi, width, radius);
    if y_hi > y_lo {
        let row_y = y_hi - 1;
        lemma_window_taps_exact(x, y, y_lo, row_y, x_lo, x_hi, width, height, radius);
        lemma_row_taps_exact(x, y, row_y, x_lo, x_hi, width, height, radius);
        let a = window_taps(x, y, y_lo, row_y, x_lo, x_hi, width, radius);
        let b = row_taps(x, y, row_y, x_lo, x_hi, width, radius);
        assert(win == a + b);
        assert forall|k: int| 0 <= k < win.len() implies is_tap_of(
            #[trigger] win[k],
            x,
            y,
            x_lo,
            x_hi,
            y_lo,
            y_hi,
            width,
            radius,
        ) by {
            if k < a.len() {
                assert(win[k] == a[k]);
                assert(is_tap_of(a[k], x, y, x_lo, x_hi, y_lo, row_y, width, radius));
                let (nx, ny) = choose|nx: int, ny: int|
                    #![trigger tap_at(x, y, nx, ny, width)]
                    counts(x, y, nx, ny, x_lo, x_hi, y_lo, row_y, radius) && a[k] == tap_at(
                        x,
                        y,
                        nx,
                        ny,
                        width,
                    );
                assert(counts(x, y, nx, ny, x_lo, x_hi, y_lo, y_hi, radius));
            } else {
                let kb = k - a.len();
                assert(win[k] == b[kb]);
                assert(is_tap_of(b[kb], x, y, x_lo, x_hi, row_y, y_hi, width, radius));
                let (nx, ny) = choose|nx: int, ny: int|
                    #![trigger tap_at(x, y, nx, ny, width)]
                    counts(x, y, nx, ny, x_lo, x_hi, row_y, y_hi, radius) && b[kb] == tap_at(
                        x,
                        y,
                        nx,
                        ny,
                        width,
                    );
                assert(counts(x, y, nx, ny, x_lo, x_hi, y_lo, y_hi, radius));
            }
        }
        assert forall|nx: int, ny: int|
            #![trigger tap_at(x, y, nx, ny, width)]
            counts(x, y, nx, ny, x_lo, x_hi, y_lo, y_hi, radius) implies win.contains(
            tap_at(x, y, nx, ny, width),
        ) by {
            let t = tap_at(x, y, nx, ny, width);
            if ny < row_y {
                assert(counts(x, y, nx, ny, x_lo, x_hi, y_lo, row_y, radius));
                let k = choose|k: int| 0 <= k < a.len() && a[k] == t;
                assert(win[k] == a[k]);
            } else {
                assert(counts(x, y, nx, row_y, x_lo, x_hi, row_y, row_y + 1, radius));
                let k = choose|k: int| 0 <= k < b.len() && b[k] == t;
                assert(win[a.len() + k] == b[k]);
            }
        }
        assert forall|i: int, j: int| 0 <= i < j < win.len() implies (#[trigger] win[i]).offset
            < (#[trigger] win[j]).offset by {
            if j < a.len() {
                assert(win[i] == a[i]);
                assert(win[j] == a[j]);
            } else if i >= a.len() {
                assert(win[i] == b[i - a.len()]);
                assert(win[j] == b[j - a.len()]);
            } else {
                assert(win[i] == a[i]);
                assert(win[j] == b[j - a.len()]);
                assert(is_tap_of(a[i], x, y, x_lo, x_hi, y_lo, row_y, width, radius));
                let (nx1, ny1) = choose|nx: int, ny: int|
                    #![trigger tap_at(x, y, nx, ny, width)]
                    counts(x, y, nx, ny, x_lo, x_hi, y_lo, row_y, radius) && a[i] == tap_at(
                        x,
                        y,
                        nx,
                        ny,
                        width,
                    );
                assert(is_tap_of(b[j - a.len()], x, y, x_lo, x_hi, row_y, y_hi, width, radius));
                let (nx2, ny2) = choose|nx: int, ny: int|
                    #![trigger tap_at(x, y, nx, ny, width)]
                    counts(x, y, nx, ny, x_lo, x_hi, row_y, y_hi, radius) && b[j - a.len()]
                        == tap_at(x, y, nx, ny, width);
                crate::pixels::lemma_pixel_in_image(nx1, ny1, width, height);
                crate::pixels::lemma_pixel_in_image(nx2, ny2, width, height);
                assert(pixel_index(nx1, ny1, width) < pixel_index(nx2, ny2, width)) by (
                nonlinear_arith)
                    requires
                        0 <= nx1 < width,
                        0 <= nx2,
                        0 <= ny1 < ny2,
                ;
            }
        }
    }
}

/// The taps of pixel `(x, y)` are exactly the pixels of its window that lie within the
/// radius, each once, in the order of their bytes in the buffer. Each lies inside the
/// image, and the pixel itself is among them at distance 0, so the weights of a pixel
/// never sum to nothing.
pub proof fn lemma_kernel_exact(x: int, y: int, width: int, height: int, radius: int)
    requires
        0 <= x < width,
        0 <= y < height,
        0 <= radius <= u32::MAX,
        image_bytes(width, height) <= usize::MAX,
    ensures
        forall|k: int|
            0 <= k < kernel(x, y, width, height, radius).len() ==> is_tap_of(
                #[trigger] kernel(x, y, width, height, radius)[k],
                x,
                y,
                window_start(x, radius),
                window_end(x, radius, width) + 1,
                window_start(y, radius),
                window_end(y, radius, height) + 1,
                width,
                radius,
            ),
        forall|nx: int, ny: int|
            #![trigger tap_at(x, y, nx, ny, width)]
            counts(
                x,
                y,
                nx,
                ny,
                window_start(x, radius),
                window_end(x, radius, width) + 1,
                window_start(y, radius),
                window_end(y, radius, height) + 1,
                radius,
            ) ==> kernel(x, y, width, height, radius).contains(tap_at(x, y, nx, ny, width)),
        forall|i: int, j: int|
            0 <= i < j < kernel(x, y, width, height, radius).len() ==> (#[trigger] kernel(
                x,
                y,
                width,
                height,
                radius,
            )[i]).offset < (#[trigger] kernel(x, y, width, height, radius)[j]).offset,
        forall|k: int|
            0 <= k < kernel(x, y, width, height, radius).len() ==> {
                let t = #[trigger] kernel(x, y, width, height, radius)[k];
                &&& t.distance_sq <= radius * radius
                &&& t.offset + 4 <= image_bytes(width, height)
            },
        kernel(x, y, width, height, radius).contains(
            Tap { offset: pixel_index(x, y, width) as usize, distance_sq: 0 },
        ),
{
    let x_lo = window_start(x, radius);
    let x_hi = window_end(x, radius, width) + 1;
    let y_lo = window_start(y, radius);
    let y_hi = window_end(y, radius, height) + 1;
    lemma_window_taps_exact(x, y, y_lo, y_hi, x_lo, x_hi, width, height, radius);
    let ker = kernel(x, y, width, height, radius);
    assert(radius * radius <= u64::MAX) by (nonlinear_arith)
        requires
            0 <= radius <= u32::MAX,
    ;
    assert forall|k: int| 0 <= k < ker.len() implies {
        let t = #[trigger] ker[k];
        &&& t.distance_sq <= radius * radius
        &&& t.offset + 4 <= image_bytes(width, height)
    } by {
        assert(is_tap_of(ker[k], x, y, x_lo, x_hi, y_lo, y_hi, width, radius));
        let (nx, ny) = choose|nx: int, ny: int|
            #![trigger tap_at(x, y, nx, ny, width)]
            counts(x, y, nx, ny, x_lo, x_hi, y_lo, y_hi, radius) && ker[k] == tap_at(
                x,
                y,
                nx,
                ny,
                width,
            );
        crate::pixels::lemma_pixel_in_image(nx, ny, width, height);
        assert(distance_sq(x, y, nx, ny) >= 0) by (nonlinear_arith);
    }
    assert(distance_sq(x, y, x, y) == 0);
    assert(counts(x, y, x, y, x_lo, x_hi, y_lo, y_hi, radius));
    assert(tap_at(x, y, x, y, width) == Tap {
        offset: pixel_index(x, y, width) as usize,
        distance_sq: 0,
    });
}

/// The window around coordinate `c` is exactly the part of `c - radius ..= c + radius`
/// that lies inside `0 .. size`.
pub proof fn lemma_window_is_radius_in_image(c: int, radius: int, size: int, n: int)
    requires
        0 <= c < size,
        0 <= radius,
    ensures
        (window_start(c, radius) <= n <= window_end(c, radius, size)) <==> (0 <= n < size && c
            - radius <= n <= c + radius),
{
}

/// A squared offset no larger than `radius * radius` is an offset of at most `radius`.
proof fn lemma_square_le(d: int, radius: int)
    requires
        0 <= radius,
        d * d <= radius * radius,
    ensures
        -radius <= d <= radius,
{
    if d > radius {
        assert(d * d > radius * radius) by (nonlinear_arith)
            requires
                d > radius,
                radius >= 0,
        ;
    }
    if d < -radius {
        assert(d * d > radius * radius) by (nonlinear_arith)
            requires
                d < -radius,
                radius >= 0,
        ;
    }
}

/// Every pixel `(nx, ny)` of the image whose squared distance from `(x, y)` is at most
/// `radius * radius` is a tap of `(x, y)`: its bytes start at `(ny * width + nx) * 4` and
/// the tap carries that squared distance.
pub proof fn lemma_kernel_has_every_neighbour(
    x: int,
    y: int,
    width: int,
    height: int,
    radius: int,
    nx: int,
    ny: int,
)
    requires
        0 <= x < width,
        0 <= y < height,
        0 <= nx < width,
        0 <= ny < height,
        0 <= radius <= u32::MAX,
        width * height * 4 <= usize::MAX,
        (nx - x) * (nx - x) + (ny - y) * (ny - y) <= radius * radius,
    ensures
        kernel(x, y, width, height, radius).contains(
            Tap {
                offset: ((ny * width + nx) * 4) as usize,
                distance_sq: ((nx - x) * (nx - x) + (ny - y) * (ny - y)) as u64,
            },
        ),
{
    assert((nx - x) * (nx - x) >= 0) by (nonlinear_arith);
    assert((ny - y) * (ny - y) >= 0) by (nonlinear_arith);
    lemma_square_le(nx - x, radius);
    lemma_square_le(ny - y, radius);
    lemma_window_is_radius_in_image(x, radius, width, nx);
    lemma_window_is_radius_in_image(y, radius, height, ny);
    lemma_kernel_exact(x, y, width, height, radius);
    assert(counts(
        x,
        y,
        nx,
        ny,
        window_start(x, radius),
        window_end(x, radius, width) + 1,
        window_start(y, radius),
        window_end(y, radius, height) + 1,
        radius,
    ));
    assert(tap_at(x, y, nx, ny, width) == Tap {
        offset: ((ny * width + nx) * 4) as usize,
        distance_sq: ((nx - x) * (nx - x) + (ny - y) * (ny - y)) as u64,
    });
}

/// `kernel_in_range` accepts pixel `(x, y)` exactly when it lies in the image, the image's
/// bytes fit in `usize`, `x + radius` and `y + radius` fit in `usize`, and the largest
/// squared distance in the window (from the pixel to the farthest column and row inside
/// the image, at most `radius` away) fits in a `u64`; so every pixel of an image that
/// fits is accepted unless those sums overflow.
pub proof fn lemma_kernel_in_range_accepts(x: int, y: int, width: int, height: int, radius: int)
    requires
        0 <= x,
        0 <= y,
        0 <= radius,
    ensures
        kernel_in_range_spec(x, y, width, height, radius) <==> (x < width && y < height && width
            * height * 4 <= usize::MAX && x + radius <= usize::MAX && y + radius <= usize::MAX
            && ({
            let left = if x < radius {
                x
            } else {
                radius
            };
            let right = if width - 1 - x < radius {
                width - 1 - x
            } else {
                radius
            };
            let up = if y < radius {
                y
            } else {
                radius
            };
            let down = if height - 1 - y < radius {
                height - 1 - y
            } else {
                radius
            };
            let dx = if left >= right {
                left
            } else {
                right
            };
            let dy = if up >= down {
                up
            } else {
                down
            };
            dx * dx + dy * dy <= u64::MAX
        })),
{
}

/// Tap number `k` of pixel `(x, y)` belongs to a pixel `(nx, ny)` of the image within the
/// radius: its bytes start at `(ny * width + nx) * 4` and it carries the squared distance
/// `(nx - x)^2 + (ny - y)^2`. Returns that pixel.
pub proof fn lemma_kernel_tap_is_neighbour(
    x: int,
    y: int,
    width: int,
    height: int,
    radius: int,
    k: int,
) -> (pixel: (int, int))
    requires
        0 <= x < width,
        0 <= y < height,
        0 <= radius <= u32::MAX,
        width * height * 4 <= usize::MAX,
        0 <= k < kernel(x, y, width, height, radius).len(),
    ensures
        0 <= pixel.0 < width,
        0 <= pixel.1 < height,
        (pixel.0 - x) * (pixel.0 - x) + (pixel.1 - y) * (pixel.1 - y) <= radius * radius,
        kernel(x, y, width, height, radius)[k] == (Tap {
            offset: ((pixel.1 * width + pixel.0) * 4) as usize,
            distance_sq: ((pixel.0 - x) * (pixel.0 - x) + (pixel.1 - y) * (pixel.1 - y)) as u64,
        }),
{
    let x_lo = window_start(x, radius);
    let x_hi = window_end(x, radius, width) + 1;
    let y_lo = window_start(y, radius);
    let y_hi = window_end(y, radius, height) + 1;
    lemma_kernel_exact(x, y, width, height, radius);
    let ker = kernel(x, y, width, height, radius);
    assert(is_tap_of(ker[k], x, y, x_lo, x_hi, y_lo, y_hi, width, radius));
    let (nx, ny) = choose|nx: int, ny: int|
        #![trigger tap_at(x, y, nx, ny, width)]
        counts(x, y, nx, ny, x_lo, x_hi, y_lo, y_hi, radius) && ker[k] == tap_at(
            x,
            y,
            nx,
            ny,
            width,
        );
    (nx, ny)
}

/// Squares of smaller non-negative numbers are smaller.
proof fn lemma_square_sum_bound(a: int, b: int, ma: int, mb: int)
    requires
        0 <= a <= ma,
        0 <= b <= mb,
    ensures
        a * a + b * b <= ma * ma + mb * mb,
{
    assert(a * a <= ma * ma) by (nonlinear_arith)
        requires
            0 <= a <= ma,
    ;
    assert(b * b <= mb * mb) by (nonlinear_arith)
        requires
            0 <= b <= mb,
    ;
}

/// The inputs on which `kernel_taps` works without any arithmetic overflowing.
pub open spec fn kernel_in_range_spec(x: int, y: int, width: int, height: int, radius: int) -> bool {
    &&& x < width
    &&& y < height
    &&& image_bytes(width, height) <= usize::MAX
    &&& x + radius <= usize::MAX
    &&& y + radius <= usize::MAX
    &&& kernel_fits(x, y, width, height, radius)
}

/// Tells whether the neighbours of pixel `(x, y)` can be listed for this image and
/// radius without overflow (false also when the pixel lies outside the image).
pub fn kernel_in_range(x: usize, y: usize, width: usize, height: usize, radius: u32) -> (ok: bool)
    ensures
        ok == kernel_in_range_spec(x as int, y as int, width as int, height as int, radius as int),
{
    if x >= width || y >= height {
        return false;
    }
    let bytes: Option<usize> = match width.checked_mul(height) {
        Some(pixels) => pixels.checked_mul(4),
        None => None,
    };
    if bytes.is_none() {
        proof {
            vstd::arithmetic::mul::lemma_mul_nonnegative(width as int, height as int);
            assert(width * height * 4 >= width * height);
        }
        return false;
    }
    let r: usize = radius as usize;
    if x.checked_add(r).is_none() || y.checked_add(r).is_none() {
        return false;
    }
    let win = blur_window(x, y, width, height, r);
    let left: u64 = (x - win.x_start) as u64;
    let right: u64 = (win.x_end - x) as u64;
    let up: u64 = (y - win.y_start) as u64;
    let down: u64 = (win.y_end - y) as u64;
    let dx: u64 = if left >= right {
        left
    } else {
        right
    };
    let dy: u64 = if up >= down {
        up
    } else {
        down
    };
    let dx_sq: Option<u64> = dx.checked_mul(dx);
    let dy_sq: Option<u64> = dy.checked_mul(dy);
    match (dx_sq, dy_sq) {
        (Some(a), Some(b)) => a.checked_add(b).is_some(),
        _ => {
            proof {
                assert(dx * dx + dy * dy > u64::MAX) by (nonlinear_arith)
                    requires
                        dx * dx > u64::MAX || dy * dy > u64::MAX,
                ;
            }
            false
        },
    }
}

/// The neighbours that contribute to pixel `(x, y)` when blurring with `radius`, in the
/// order in which the blur adds them up.
pub fn kernel_taps(x: usize, y: usize, width: usize, height: usize, radius: u32) -> (taps: Vec<
    Tap,
>)
    requires
        kernel_in_range_spec(x as int, y as int, width as int, height as int, radius as int),
    ensures
        taps@ == kernel(x as int, y as int, width as int, height as int, radius as int),
{
    let r: usize = radius as usize;
    let win = blur_window(x, y, width, height, r);
    proof {
        assert(radius * radius <= u64::MAX) by (nonlinear_arith)
            requires
                radius <= u32::MAX,
        ;
    }
    let radius_sq: u64 = (radius as u64) * (radius as u64);
    let ghost w = width as int;
    let ghost x_hi = win.x_end + 1;
    let ghost max_dx = larger(x - win.x_start, win.x_end - x);
    let ghost max_dy = larger(y - win.y_start, win.y_end - y);
    let mut taps: Vec<Tap> = Vec::new();
    let mut ny: usize = win.y_start;
    while ny <= win.y_end
        invariant
            win.x_start <= x <= win.x_end < width,
            win.y_start <= y <= win.y_end < height,
            win.x_start == window_start(x as int, r as int),
            win.x_end == window_end(x as int, r as int, width as int),
            win.y_start == window_start(y as int, r as int),
            win.y_end == window_end(y as int, r as int, height as int),
            r == radius,
            radius_sq == radius * radius,
            w == width,
            x_hi == win.x_end + 1,
            max_dx == larger(x - win.x_start, win.x_end - x),
            max_dy == larger(y - win.y_start, win.y_end - y),
            max_dx * max_dx + max_dy * max_dy <= u64::MAX,
            image_bytes(width as int, height as int) <= usize::MAX,
            win.y_start <= ny <= win.y_end + 1,
            taps@ == window_taps(
                x as int,
                y as int,
                win.y_start as int,
                ny as int,
                win.x_start as int,
                x_hi,
                w,
                radius as int,
            ),
        decreases win.y_end + 1 - ny,
    {
        let ghost done = taps@;
        let mut nx: usize = win.x_start;
        while nx <= win.x_end
            invariant
                win.x_start <= x <= win.x_end < width,
                win.y_start <= ny <= win.y_end < height,
                win.y_start <= y <= win.y_end,
                radius_sq == radius * radius,
                w == width,
                x_hi == win.x_end + 1,
                max_dx == larger(x - win.x_start, win.x_end - x),
                max_dy == larger(y - win.y_start, win.y_end - y),
                max_dx * max_dx + max_dy * max_dy <= u64::MAX,
                image_bytes(width as int, height as int) <= usize::MAX,
                win.x_start <= nx <= win.x_end + 1,
                taps@ == done + row_taps(
                    x as int,
                    y as int,
                    ny as int,
                    win.x_start as int,
                    nx as int,
                    w,
                    radius as int,
                ),
            decreases win.x_end + 1 - nx,
        {
            let dx: u64 = if nx >= x {
                (nx - x) as u64
            } else {
                (x - nx) as u64
            };
            let dy: u64 = if ny >= y {
                (ny - y) as u64
            } else {
                (y - ny) as u64
            };
            proof {
                lemma_square_sum_bound(dx as int, dy as int, max_dx, max_dy);
                assert(dx * dx == (nx - x) * (nx - x)) by (nonlinear_arith)
                    requires
                        dx == nx - x || dx == x - nx,
                ;
                assert(dy * dy == (ny - y) * (ny - y)) by (nonlinear_arith)
                    requires
                        dy == ny - y || dy == y - ny,
                ;
            }
            let d: u64 = dx * dx + dy * dy;
            let ghost before = taps@;
            if d <= radius_sq {
                proof {
                    crate::pixels::lemma_pixel_in_image(nx as int, ny as int, w, height as int);
                }
                let offset: usize = pixel_offset(nx, ny, width);
                taps.push(Tap { offset, distance_sq: d });
                proof {
                    assert(taps@ =~= done + row_taps(
                        x as int,
                        y as int,
                        ny as int,
                        win.x_start as int,
                        nx + 1,
                        w,
                        radius as int,
                    ));
                }
            }
            nx = nx + 1;
        }
        ny = ny + 1;
    }
    taps
}

} // verus!
