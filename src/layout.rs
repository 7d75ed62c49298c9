use vstd::arithmetic::div_mod::{lemma_fundamental_div_mod, lemma_div_multiples_vanish_fancy, lemma_mod_multiples_vanish};
use vstd::prelude::*;

verus! {

// The image buffer holds `width * height` pixels of three bytes (red, green,
// blue). Rows run from the top of the image (row `height - 1` of the image
// plane, where `j` grows upwards) to the bottom; within a row, columns run
// from left (`i == 0`) to right.

/// The pixel (column `i`, row `j`) stored at position `n` of the buffer.
pub open spec fn pixel_at(width: int, height: int, n: int) -> (int, int) {
    (n % width, height - 1 - n / width)
}

/// The position in the buffer of pixel (column `i`, row `j`).
pub open spec fn position_of(width: int, height: int, i: int, j: int) -> int {
    (height - 1 - j) * width + i
}

/// The length in bytes of an image of `width * height` pixels, or `None`
/// when it does not fit in a `usize`.
pub fn image_len(width: usize, height: usize) -> (r: Option<usize>)
    ensures
        r is Some <==> width * height * 3 <= usize::MAX,
        r is Some ==> r->0 == width * height * 3,
{
    match width.checked_mul(height) {
        Some(pixels) => pixels.checked_mul(3),
        None => {
            proof {
                assert(width * height * 3 > usize::MAX) by (nonlinear_arith)
                    requires
                        width * height > usize::MAX,
                ;
            }
            None
        },
    }
}

/// The pixel stored at position `n`: the image is written row by row from
/// the top row down, each row from left to right.
pub fn pixel_of(width: usize, height: usize, n: usize) -> (r: (usize, usize))
    requires
        width > 0,
        n < width * height,
    ensures
        (r.0 as int, r.1 as int) == pixel_at(width as int, height as int, n as int),
        r.0 < width,
        r.1 < height,
{
    proof {
        lemma_fundamental_div_mod(n as int, width as int);
        assert(n / width < height) by (nonlinear_arith)
            requires
                n < width * height,
                width > 0,
        ;
    }
    (n % width, height - 1 - n / width)
}

/// The position of pixel (column `i`, row `j`) in the buffer.
pub fn pixel_position(width: usize, height: usize, i: usize, j: usize) -> (r: usize)
    requires
        i < width,
        j < height,
        width * height <= usize::MAX,
    ensures
        r as int == position_of(width as int, height as int, i as int, j as int),
        r < width * height,
{
    proof {
        assert((height - 1 - j) * width + i < width * height) by (nonlinear_arith)
            requires
                i < width,
                j < height,
        ;
    }
    (height - 1 - j) * width + i
}

/// Positions and pixels correspond one to one: every position holds the
/// pixel whose position it is, and every pixel is stored at a position of the
/// buffer from which it is read back.
pub proof fn lemma_layout_is_bijective(width: int, height: int, n: int, i: int, j: int)
    requires
        width > 0,
        height > 0,
    ensures
        0 <= n < width * height ==> {
            let (pi, pj) = pixel_at(width, height, n);
            &&& 0 <= pi < width
            &&& 0 <= pj < height
            &&& position_of(width, height, pi, pj) == n
        },
        0 <= i < width && 0 <= j < height ==> {
            let m = position_of(width, height, i, j);
            &&& 0 <= m < width * height
            &&& pixel_at(width, height, m) == (i, j)
        },
{
    if 0 <= n < width * height {
        lemma_fundamental_div_mod(n, width);
        vstd::arithmetic::div_mod::lemma_mod_pos_bound(n, width);
        assert(0 <= n / width < height) by (nonlinear_arith)
            requires
                0 <= n < width * height,
                width > 0,
        ;
        assert((n / width) * width == width * (n / width)) by (nonlinear_arith);
    }
    if 0 <= i < width && 0 <= j < height {
        let row = height - 1 - j;
        assert(0 <= row * width + i < width * height) by (nonlinear_arith)
            requires
                0 <= i < width,
                0 <= row < height,
        ;
        lemma_div_multiples_vanish_fancy(row, i, width);
        lemma_mod_multiples_vanish(row, i, width);
        vstd::arithmetic::div_mod::lemma_small_mod(i as nat, width as nat);
    }
}

/// Channel `k` (0 red, 1 green, 2 blue) of a colour.
pub open spec fn channel(c: (u8, u8, u8), k: int) -> u8 {
    if k == 0 {
        c.0
    } else if k == 1 {
        c.1
    } else {
        c.2
    }
}

/// The index of pixel (column `i`, row `j`) in a list of pixel colours held
/// row by row from the bottom row up, each row from left to right.
pub open spec fn plane_index(width: int, i: int, j: int) -> int {
    j * width + i
}

/// The image buffer of `width * height` pixels whose colours `colors` holds
/// row by row from the bottom of the image plane up: three bytes per pixel,
/// pixel (i, j) at position `position_of(i, j)`, that is, the top row first.
pub fn image_from_pixels(width: usize, height: usize, colors: &Vec<(u8, u8, u8)>) -> (r: Vec<u8>)
    requires
        colors@.len() == width * height,
        width * height * 3 <= usize::MAX,
    ensures
        r@.len() == width * height * 3,
        forall|i: int, j: int, k: int|
            0 <= i < width && 0 <= j < height && 0 <= k < 3 ==> #[trigger] r@[3 * position_of(
                width as int,
                height as int,
                i,
                j,
            ) + k] == channel(#[trigger] colors@[plane_index(width as int, i, j)], k),
{
    let n_pixels = width * height;
    let mut r: Vec<u8> = Vec::new();
    let mut n: usize = 0;
    while n < n_pixels
        invariant
            n <= n_pixels,
            n_pixels == width * height,
            n_pixels * 3 <= usize::MAX,
            colors@.len() == n_pixels,
            r@.len() == 3 * n,
            forall|m: int, k: int|
                0 <= m < n && 0 <= k < 3 ==> #[trigger] r@[3 * m + k] == channel(
                    colors@[plane_index(
                        width as int,
                        pixel_at(width as int, height as int, m).0,
                        pixel_at(width as int, height as int, m).1,
                    )],
                    k,
                ),
        decreases n_pixels - n,
    {
        let (i, j) = pixel_of(width, height, n);
        proof {
            assert(j * width + i < width * height) by (nonlinear_arith)
                requires
                    i < width,
                    j < height,
            ;
        }
        let c = colors[j * width + i];
        let ghost before = r@;
        r.push(c.0);
        r.push(c.1);
        r.push(c.2);
        proof {
            assert forall|m: int, k: int| 0 <= m < n + 1 && 0 <= k < 3 implies #[trigger] r@[3 * m
                + k] == channel(
                colors@[plane_index(
                    width as int,
                    pixel_at(width as int, height as int, m).0,
                    pixel_at(width as int, height as int, m).1,
                )],
                k,
            ) by {
                if m < n {
                    assert(r@[3 * m + k] == before[3 * m + k]);
                }
            }
        }
        n += 1;
    }
    proof {
        assert forall|i: int, j: int, k: int|
            0 <= i < width && 0 <= j < height && 0 <= k < 3 implies #[trigger] r@[3 * position_of(
            width as int,
            height as int,
            i,
            j,
        ) + k] == channel(#[trigger] colors@[plane_index(width as int, i, j)], k) by {
            lemma_layout_is_bijective(width as int, height as int, 0, i, j);
            let m = position_of(width as int, height as int, i, j);
            assert(pixel_at(width as int, height as int, m) == (i, j));
        }
    }
    r
}

} // verus!
