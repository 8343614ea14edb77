pub mod blocked_vec;
pub mod clamp;
pub mod kdtree;
pub mod permutation;
pub mod partition;

pub use partition::partition_by;
pub use clamp::{Clamp, clamp_num};

use vstd::prelude::*;

verus! {

/// Linear interpolation from `self` to `b` by `t`.
pub trait Lerp<F = Self>: Sized {
    fn lerp(&self, b: &Self, t: F) -> Self;
}

/// Conversion of angles between degrees and radians.
pub trait Degrees {
    fn as_radians(self) -> Self;

    fn as_degrees(self) -> Self;
}


/// The absolute value of `x`.
pub open spec fn abs_int(x: int) -> int {
    if x < 0 { -x } else { x }
}

/// The remainder that `modulo` computes: the remainder of `|a|` by `|b|`,
/// folded back into the range of `b` when `a` is negative.
pub open spec fn modulo_spec(a: int, b: int) -> int {
    let m = abs_int(a) % abs_int(b);
    if a >= 0 || m == 0 {
        m
    } else {
        b - m
    }
}

/// Rust's truncating quotient of `a` by `b`, as `checked_div` states it, is
/// the quotient of the magnitudes with the sign of `a * b`; its remainder has
/// the magnitude of `|a| % |b|`.
proof fn lemma_truncated_quotient(a: int, b: int)
    requires
        b != 0,
        i32::MIN <= a <= i32::MAX,
        i32::MIN <= b <= i32::MAX,
        !(a == i32::MIN && b == -1),
    ensures
        ({
            let q = abs_int(a) / abs_int(b);
            let out = if a == 0 {
                0
            } else if a > 0 && b > 0 {
                a / b
            } else if a < 0 && b < 0 {
                (a * -1) / (b * -1)
            } else if a < 0 {
                ((a * -1) / b) * -1
            } else {
                (a / (b * -1)) * -1
            };
            &&& out == (if (a < 0) == (b < 0) { q } else { -q })
            &&& i32::MIN <= out <= i32::MAX
            &&& q * abs_int(b) + abs_int(a) % abs_int(b) == abs_int(a)
            &&& 0 <= abs_int(a) % abs_int(b) < abs_int(b)
        }),
{
    let aa = abs_int(a);
    let bb = abs_int(b);
    let q = aa / bb;
    vstd::arithmetic::div_mod::lemma_fundamental_div_mod(aa, bb);
    vstd::arithmetic::div_mod::lemma_div_pos_is_pos(aa, bb);
    vstd::arithmetic::div_mod::lemma_div_is_ordered_by_denominator(aa, 1, bb);
    vstd::arithmetic::div_mod::lemma_div_basics(aa);
    vstd::arithmetic::div_mod::lemma_div_basics(bb);
    assert(q <= aa);
    if bb > 1 {
        vstd::arithmetic::div_mod::lemma_div_is_ordered_by_denominator(aa, 2, bb);
        assert(aa / 2 < aa || aa == 0);
        assert(q < 0x8000_0000);
    } else {
        assert(bb == 1);
        assert(q == aa);
    }
    assert(a * -1 == -a);
    assert(b * -1 == -b);
    if a < 0 && b < 0 {
        assert(aa == a * -1);
        assert(bb == b * -1);
    } else if a < 0 && b > 0 {
        assert(aa == a * -1);
        assert(bb == b);
    } else if a > 0 && b < 0 {
        assert(aa == a);
        assert(bb == b * -1);
    }
}

/// `a - (a / b) * b` with Rust's truncating division, moved up by `b` when it
/// comes out negative.
pub fn modulo(a: i32, b: i32) -> (r: i32)
    requires
        b != 0,
        !(a == i32::MIN && b == -1),
        i32::MIN <= modulo_spec(a as int, b as int),
    ensures
        r == modulo_spec(a as int, b as int),
        b > 0 ==> 0 <= r < b && r == (a as int) % (b as int),
{
    proof {
        lemma_truncated_quotient(a as int, b as int);
    }
    let n = a.checked_div(b).unwrap();
    proof {
        let aa = abs_int(a as int);
        let bb = abs_int(b as int);
        let q = aa / bb;
        let m = aa % bb;
        assert((a >= 0 ==> n * b == a - m) && (a < 0 ==> n * b == a + m)) by (nonlinear_arith)
            requires
                n == (if (a < 0) == (b < 0) { q } else { -q }),
                q * bb + m == aa,
                aa == abs_int(a as int),
                bb == abs_int(b as int),
        {}
        assert(q * bb >= 0) by (nonlinear_arith) requires q >= 0, bb > 0;
        if b > 0 && a < 0 && m != 0 {
            assert(a == (-q - 1) * b + (b - m)) by (nonlinear_arith)
                requires a == -(q * b + m), b > 0;
            vstd::arithmetic::div_mod::lemma_fundamental_div_mod_converse(a as int, b as int, -q - 1, b - m);
        } else if b > 0 && a >= 0 {
            vstd::arithmetic::div_mod::lemma_fundamental_div_mod_converse(a as int, b as int, q, m);
        } else if b > 0 {
            vstd::arithmetic::div_mod::lemma_fundamental_div_mod_converse(a as int, b as int, -q, 0);
        }
    }
    assert(i32::MIN <= n * b <= i32::MAX);
    let x = a - n * b;
    if x < 0 { x + b } else { x }
}

/// Halving the number of rows and doubling the number of columns while the
/// rows divide evenly and are more than twice `aspect` times the columns:
/// the tiling of `count` sub-windows that `get_num_subwindows_2d` settles on
/// from `nx` columns and `ny` rows.
pub open spec fn subwindows(aspect: int, nx: int, ny: int) -> (int, int)
    decreases ny,
{
    if ny > 0 && ny % 2 == 0 && 2 * aspect * nx < ny {
        subwindows(aspect, nx * 2, ny / 2)
    } else {
        (nx, ny)
    }
}

/// The products `2 * aspect * nx` that the tiling loop computes from `nx`
/// columns and `ny` rows on all fit in a `usize`.
pub open spec fn subwindows_fit(aspect: int, nx: int, ny: int) -> bool
    decreases ny,
{
    if ny % 2 == 0 {
        &&& 2 * aspect * nx <= usize::MAX
        &&& (ny > 0 && 2 * aspect * nx < ny ==> subwindows_fit(aspect, nx * 2, ny / 2))
    } else {
        true
    }
}

/// With `2^j` columns, the rows that `count` sub-windows leave are still
/// even and more than twice `aspect` times the columns: the split goes on.
pub open spec fn subwindow_halving_continues(count: int, aspect: int, j: nat) -> bool {
    let nx = vstd::arithmetic::power2::pow2(j) as int;
    let ny = count / nx;
    ny % 2 == 0 && 2 * aspect * nx < ny
}

/// Splits `count` sub-windows into columns and rows, starting from one
/// column and halving the rows while they stay even and outnumber the
/// columns by more than twice `aspect`.
pub fn get_num_subwindows_2d(count: usize, aspect: usize) -> (r: (usize, usize))
    requires
        subwindows_fit(aspect as int, 1, count as int),
    ensures
        (r.0 as int, r.1 as int) == subwindows(aspect as int, 1, count as int),
        r.0 * r.1 == count,
        exists|k: nat| r.0 == vstd::arithmetic::power2::pow2(k)
            && forall|j: nat| j < k ==> #[trigger] subwindow_halving_continues(count as int, aspect as int, j),
        !(r.1 % 2 == 0 && 2 * aspect * r.0 < r.1),
{
    let mut nx: usize = 1;
    let mut ny = count;
    let ghost mut k: nat = 0;
    assert(2 * aspect * 1 == 2 * aspect);
    proof {
        vstd::arithmetic::power2::lemma_pow2(0);
        vstd::arithmetic::power::lemma_pow0(2);
    }
    while (ny % 2) == 0 && 2 * aspect * nx < ny
        invariant
            nx * ny == count,
            nx >= 1,
            subwindows(aspect as int, nx as int, ny as int) == subwindows(aspect as int, 1, count as int),
            subwindows_fit(aspect as int, nx as int, ny as int),
            ny % 2 == 0 ==> 2 * aspect <= usize::MAX,
            nx == vstd::arithmetic::power2::pow2(k),
            forall|j: nat| j < k ==> #[trigger] subwindow_halving_continues(count as int, aspect as int, j),
        decreases ny,
    {
        proof {
            assert(count == ny * nx + 0) by (nonlinear_arith)
                requires nx * ny == count;
            vstd::arithmetic::div_mod::lemma_fundamental_div_mod_converse(count as int, nx as int, ny as int, 0);
            assert(subwindow_halving_continues(count as int, aspect as int, k));
        }
        assert(nx * 2 * (ny / 2) == nx * ny) by (nonlinear_arith)
            requires ny % 2 == 0;
        assert(2 * aspect * nx < ny);
        assert(nx * 2 <= nx * ny) by (nonlinear_arith)
            requires ny >= 2, nx >= 1;
        ny /= 2;
        nx *= 2;
        proof {
            vstd::arithmetic::power2::lemma_pow2_unfold(k + 1);
            k = k + 1;
            if ny % 2 == 0 {
                assert(2 * aspect <= 2 * aspect * nx) by (nonlinear_arith)
                    requires nx >= 1;
            }
        }
    }
    assert(nx == vstd::arithmetic::power2::pow2(k)
        && forall|j: nat| j < k ==> #[trigger] subwindow_halving_continues(count as int, aspect as int, j));
    (nx, ny)
}

/// Whether `get_num_subwindows_2d(count, aspect)` can run without its
/// products overflowing, found by walking the same tiling with checked
/// multiplication.
pub fn subwindows_fit_in_usize(count: usize, aspect: usize) -> (b: bool)
    ensures
        b == subwindows_fit(aspect as int, 1, count as int),
{
    let mut nx: usize = 1;
    let mut ny = count;
    loop
        invariant
            nx >= 1,
            nx * ny == count,
            subwindows_fit(aspect as int, 1, count as int) == subwindows_fit(aspect as int, nx as int, ny as int),
        decreases ny,
    {
        if ny % 2 != 0 {
            return true;
        }
        let product = match aspect.checked_mul(2) {
            Some(twice) => twice.checked_mul(nx),
            None => None,
        };
        match product {
            None => {
                proof {
                    if 2 * aspect <= usize::MAX {
                        assert(2 * aspect * nx > usize::MAX);
                    } else {
                        assert(2 * aspect * nx >= 2 * aspect) by (nonlinear_arith)
                            requires nx >= 1, aspect >= 0;
                    }
                }
                return false;
            },
            Some(p) => {
                if !(ny > 0 && p < ny) {
                    return true;
                }
                assert(nx * 2 <= nx * ny) by (nonlinear_arith)
                    requires ny >= 2, nx >= 1;
                assert(nx * 2 * (ny / 2) == nx * ny) by (nonlinear_arith)
                    requires ny % 2 == 0;
                nx = nx * 2;
                ny = ny / 2;
            },
        }
    }
}

} // verus!
