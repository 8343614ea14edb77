use vstd::prelude::*;
use vstd::arithmetic::div_mod::lemma_fundamental_div_mod_converse;

verus! {

/// The pixel after `(x, y)` in raster order over columns
/// `x_start..x_end`: the next column, or the first column of the next row.
pub open spec fn raster_step(x: int, y: int, x_start: int, x_end: int) -> (int, int) {
    if x + 1 == x_end {
        (x_start, y + 1)
    } else {
        (x + 1, y)
    }
}

/// The pixel reached after `k` steps from `(x_start, y_start)` over rows
/// `width` pixels wide.
pub open spec fn raster_pixel(x_start: int, y_start: int, width: int, k: int) -> (int, int) {
    (x_start + k % width, y_start + k / width)
}

/// Moves a sampler on to the next pixel in raster order.
pub fn next_pixel(x_pos: i32, y_pos: i32, x_start: i32, x_end: i32) -> (r: (i32, i32))
    requires
        x_pos < x_end,
        x_pos + 1 == x_end ==> y_pos < i32::MAX,
    ensures
        (r.0 as int, r.1 as int) == raster_step(x_pos as int, y_pos as int, x_start as int, x_end as int),
{
    let x = x_pos + 1;
    if x == x_end {
        (x_start, y_pos + 1)
    } else {
        (x, y_pos)
    }
}

/// Stepping from `(x_start, y_start)` visits the pixels of the window in
/// raster order: after `k` steps the sampler is at column `k % width` and
/// row `k / width`, and after `width * height` steps it stands at the
/// start of row `y_start + height`, where sampling stops.
pub proof fn lemma_raster_order(x_start: int, y_start: int, width: int, height: int, k: int)
    requires
        width > 0,
        height >= 0,
        k >= 0,
    ensures
        ({
            let (x, y) = raster_pixel(x_start, y_start, width, k);
            raster_step(x, y, x_start, x_start + width) == raster_pixel(x_start, y_start, width, k + 1)
        }),
        raster_pixel(x_start, y_start, width, 0) == (x_start, y_start),
        raster_pixel(x_start, y_start, width, width * height) == (x_start, y_start + height),
{
    let a = k % width;
    let b = k / width;
    assert(k == b * width + a) by {
        vstd::arithmetic::div_mod::lemma_fundamental_div_mod(k, width);
        vstd::arithmetic::mul::lemma_mul_is_commutative(b, width);
    }
    assert(0 <= a < width) by {
        vstd::arithmetic::div_mod::lemma_mod_bound(k, width);
    }
    if a + 1 == width {
        assert(k + 1 == (b + 1) * width + 0) by (nonlinear_arith)
            requires
                k == b * width + a,
                a + 1 == width,
        ;
        lemma_fundamental_div_mod_converse(k + 1, width, b + 1, 0);
    } else {
        assert(k + 1 == b * width + (a + 1));
        lemma_fundamental_div_mod_converse(k + 1, width, b, a + 1);
    }
    lemma_fundamental_div_mod_converse(0, width, 0, 0);
    assert(width * height == height * width + 0) by (nonlinear_arith);
    lemma_fundamental_div_mod_converse(width * height, width, height, 0);
}

} // verus!
