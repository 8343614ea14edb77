use vstd::prelude::*;

verus! {

/// Bit `i` of `x` is set.
pub open spec fn bit_set(x: u32, i: u32) -> bool {
    (x >> i) & 1u32 == 1u32
}

/// The 24 bits that `van_der_corput` reads as a fraction: the bits of `n`
/// in reverse order, XOR-ed with `scramble`, top 24 bits. Bit `j` of the
/// result is bit `23 - j` of `n` XOR bit `j + 8` of `scramble`.
pub fn van_der_corput_bits(_n: u32, scramble: u32) -> (r: u32)
    ensures
        r < 0x100_0000,
        forall|j: u32| j < 24 ==> (#[trigger] bit_set(r, j) <==> (bit_set(_n, (23 - j) as u32) != bit_set(scramble, (j + 8) as u32))),
{
    let mut n = _n;

    // Reverse bits of n
    let ghost n0 = n;
    n = (n << 16) | (n >> 16);
    let ghost n1 = n;
    assert(forall|i: u32| i < 32 ==> (#[trigger] bit_set(n1, i) == bit_set(n0, i ^ 16u32))) by (bit_vector)
        requires n1 == (n0 << 16) | (n0 >> 16);
    n = ((n & 0x00ff00ff) << 8) | ((n & 0xff00ff00) >> 8);
    let ghost n2 = n;
    assert(forall|i: u32| i < 32 ==> (#[trigger] bit_set(n2, i) == bit_set(n1, i ^ 8u32))) by (bit_vector)
        requires n2 == ((n1 & 0x00ff00ff) << 8) | ((n1 & 0xff00ff00) >> 8);
    n = ((n & 0x0f0f0f0f) << 4) | ((n & 0xf0f0f0f0) >> 4);
    let ghost n3 = n;
    assert(forall|i: u32| i < 32 ==> (#[trigger] bit_set(n3, i) == bit_set(n2, i ^ 4u32))) by (bit_vector)
        requires n3 == ((n2 & 0x0f0f0f0f) << 4) | ((n2 & 0xf0f0f0f0) >> 4);
    n = ((n & 0x33333333) << 2) | ((n & 0xCCCCCCCC) >> 2);
    let ghost n4 = n;
    assert(forall|i: u32| i < 32 ==> (#[trigger] bit_set(n4, i) == bit_set(n3, i ^ 2u32))) by (bit_vector)
        requires n4 == ((n3 & 0x33333333) << 2) | ((n3 & 0xCCCCCCCC) >> 2);
    n = ((n & 0x55555555) << 1) | ((n & 0xAAAAAAAA) >> 1);
    let ghost n5 = n;
    assert(forall|i: u32| i < 32 ==> (#[trigger] bit_set(n5, i) == bit_set(n4, i ^ 1u32))) by (bit_vector)
        requires n5 == ((n4 & 0x55555555) << 1) | ((n4 & 0xAAAAAAAA) >> 1);

    n ^= scramble;
    let ghost n6 = n;
    let r = (n >> 8) & 0xffffff;
    assert(r < 0x100_0000) by (bit_vector)
        requires r == (n6 >> 8) & 0xffffff;
    assert(forall|j: u32| j < 24 ==> (#[trigger] bit_set(r, j) == (bit_set(n5, (j + 8) as u32) != bit_set(scramble, (j + 8) as u32)))) by (bit_vector)
        requires r == (n6 >> 8) & 0xffffff, n6 == n5 ^ scramble;
    assert forall|j: u32| j < 24 implies (#[trigger] bit_set(r, j) <==> (bit_set(_n, (23 - j) as u32) != bit_set(scramble, (j + 8) as u32))) by {
        let p = (j + 8) as u32;
        assert(p ^ 1u32 ^ 2u32 ^ 4u32 ^ 8u32 ^ 16u32 == 31 - p) by (bit_vector)
            requires p < 32;
        assert((p ^ 1u32) < 32 && (p ^ 1u32 ^ 2u32) < 32 && (p ^ 1u32 ^ 2u32 ^ 4u32) < 32 && (p ^ 1u32 ^ 2u32 ^ 4u32 ^ 8u32) < 32) by (bit_vector)
            requires p < 32;
    }
    r
}

/// Direction number `i` of the generator matrix: `1 << 31` for `i == 0`,
/// then each the previous one XOR-ed with itself shifted right by one.
pub open spec fn sobol_direction(i: nat) -> u32
    decreases i,
{
    if i == 0 {
        0x8000_0000u32
    } else {
        let v = sobol_direction((i - 1) as nat);
        v ^ (v >> 1u32)
    }
}

/// The XOR of the direction numbers `i`, `i + 1`, ... for each bit of `n`
/// that is clear, from the lowest bit up to the highest set one (bit 0 of
/// `n` standing for direction `i`).
pub open spec fn sobol_xor_of_clear_bits(n: u32, i: nat) -> u32
    decreases n,
{
    if n == 0 {
        0u32
    } else {
        let rest = sobol_xor_of_clear_bits(n / 2, i + 1);
        if n % 2 == 0 {
            sobol_direction(i) ^ rest
        } else {
            rest
        }
    }
}

/// Bit `k` of the sample index selects direction number `i + k`, whatever
/// the other bits are: doubling the index shifts every bit up one place, so
/// the new clear bit 0 contributes direction `i` and each old bit moves on
/// to the next direction; `2n + 1` differs from `2n` only in leaving
/// direction `i` out. The direction numbers start at `1 << 31` and each is
/// the previous one XOR-ed with itself shifted right by one.
pub proof fn lemma_sobol_bit_selects_direction(n: u32, i: nat)
    requires
        1 <= n < 0x8000_0000u32,
    ensures
        sobol_xor_of_clear_bits((2 * n) as u32, i) == sobol_direction(i) ^ sobol_xor_of_clear_bits(n, i + 1),
        sobol_xor_of_clear_bits((2 * n + 1) as u32, i) == sobol_xor_of_clear_bits(n, i + 1),
        sobol_xor_of_clear_bits(0, i) == 0,
        sobol_xor_of_clear_bits(1, i) == 0,
        sobol_direction(0) == 0x8000_0000u32,
        sobol_direction(i + 1) == sobol_direction(i) ^ (sobol_direction(i) >> 1u32),
{
    let m = (2 * n) as u32;
    let o = (2 * n + 1) as u32;
    assert(m / 2 == n && m % 2 == 0 && m != 0);
    assert(o / 2 == n && o % 2 == 1 && o != 0);
    assert(sobol_xor_of_clear_bits(0, i + 1) == 0);
}

/// The 24 bits that `sobol2` reads as a fraction: bits 8 to 31 of
/// `scramble` XOR the direction numbers of the clear bits of `n`.
pub fn sobol2_bits(_n: u32, scramble: u32) -> (r: u32)
    ensures
        r == ((scramble ^ sobol_xor_of_clear_bits(_n, 0)) >> 8u32) & 0xFFFFFFu32,
{
    let mut s = scramble;
    let mut n = _n;
    let mut v: u32 = 1 << 31;
    let ghost mut i: nat = 0;
    assert(1u32 << 31u32 == 0x8000_0000u32) by (bit_vector);
    while n != 0
        invariant
            v == sobol_direction(i),
            s ^ sobol_xor_of_clear_bits(n, i) == scramble ^ sobol_xor_of_clear_bits(_n, 0),
        decreases n,
    {
        let ghost s_before = s;
        let ghost rest = sobol_xor_of_clear_bits(n / 2, i + 1);
        assert(n & 1 == n % 2) by (bit_vector);
        assert(n >> 1 == n / 2) by (bit_vector);
        if (n & 0x1) == 0 {
            s ^= v;
            assert(s_before ^ (v ^ rest) == (s_before ^ v) ^ rest) by (bit_vector);
        }
        v ^= v >> 1;
        n >>= 1;
        proof {
            i = i + 1;
        }
    }
    assert(s ^ 0u32 == s) by (bit_vector);
    (s >> 8) & 0xFFFFFF
}

/// Halving the columns and doubling the rows while the columns divide
/// evenly and the tiles, `dx / nx` wide and `dy / ny` high, are less than
/// half as wide as high: the tiling of a `dx` by `dy` window that
/// `sub_window_tiles` settles on from `nx` columns and `ny` rows.
pub open spec fn tiles(dx: int, dy: int, nx: int, ny: int) -> (int, int)
    decreases nx,
{
    if nx > 0 && nx % 2 == 0 && 2 * dx * ny < dy * nx {
        tiles(dx, dy, nx / 2, ny * 2)
    } else {
        (nx, ny)
    }
}

/// The products `2 * dx * ny` and `dy * nx` that the tiling loop computes
/// from `nx` columns and `ny` rows on all fit in a `usize`.
pub open spec fn tiles_fit(dx: int, dy: int, nx: int, ny: int) -> bool
    decreases nx,
{
    if nx % 2 == 0 {
        &&& 2 * dx * ny <= usize::MAX
        &&& dy * nx <= usize::MAX
        &&& (nx > 0 && 2 * dx * ny < dy * nx ==> tiles_fit(dx, dy, nx / 2, ny * 2))
    } else {
        true
    }
}

/// With `2^j` rows, the columns that `count` tiles leave are still even and
/// the tiles of a `dx` by `dy` window less than half as wide as high: the
/// split goes on.
pub open spec fn tile_halving_continues(count: int, dx: int, dy: int, j: nat) -> bool {
    let ny = vstd::arithmetic::power2::pow2(j) as int;
    let nx = count / ny;
    nx % 2 == 0 && 2 * dx * ny < dy * nx
}

/// How a sampler splits a `dx` by `dy` pixel window into `count` tiles:
/// columns and rows, starting from `count` columns.
pub fn sub_window_tiles(count: usize, dx: usize, dy: usize) -> (r: (usize, usize))
    requires
        tiles_fit(dx as int, dy as int, count as int, 1),
    ensures
        (r.0 as int, r.1 as int) == tiles(dx as int, dy as int, count as int, 1),
        r.0 * r.1 == count,
        exists|k: nat| r.1 == vstd::arithmetic::power2::pow2(k)
            && forall|j: nat| j < k ==> #[trigger] tile_halving_continues(count as int, dx as int, dy as int, j),
        !(r.0 % 2 == 0 && 2 * dx * r.1 < dy * r.0),
{
    let mut nx = count;
    let mut ny: usize = 1;
    let ghost mut k: nat = 0;
    assert(2 * dx * 1 == 2 * dx);
    proof {
        vstd::arithmetic::power2::lemma_pow2(0);
        vstd::arithmetic::power::lemma_pow0(2);
    }
    while (nx % 2) == 0 && 2 * dx * ny < dy * nx
        invariant
            nx * ny == count,
            ny >= 1,
            tiles(dx as int, dy as int, nx as int, ny as int) == tiles(dx as int, dy as int, count as int, 1),
            tiles_fit(dx as int, dy as int, nx as int, ny as int),
            nx % 2 == 0 ==> 2 * dx <= usize::MAX,
            ny == vstd::arithmetic::power2::pow2(k),
            forall|j: nat| j < k ==> #[trigger] tile_halving_continues(count as int, dx as int, dy as int, j),
        decreases nx,
    {
        proof {
            assert(count == nx * ny + 0) by (nonlinear_arith)
                requires nx * ny == count;
            vstd::arithmetic::div_mod::lemma_fundamental_div_mod_converse(count as int, ny as int, nx as int, 0);
            assert(tile_halving_continues(count as int, dx as int, dy as int, k));
        }
        assert(nx > 0) by (nonlinear_arith)
            requires 2 * dx * ny < dy * nx, dx >= 0, ny >= 1, dy >= 0, nx >= 0;
        assert(ny * 2 <= nx * ny) by (nonlinear_arith)
            requires nx >= 2, ny >= 1;
        assert((nx / 2) * (ny * 2) == nx * ny) by (nonlinear_arith)
            requires nx % 2 == 0;
        nx /= 2;
        ny *= 2;
        proof {
            vstd::arithmetic::power2::lemma_pow2_unfold(k + 1);
            k = k + 1;
            if nx % 2 == 0 {
                assert(2 * dx <= 2 * dx * ny) by (nonlinear_arith)
                    requires ny >= 1, dx >= 0;
            }
        }
    }
    assert(ny == vstd::arithmetic::power2::pow2(k)
        && forall|j: nat| j < k ==> #[trigger] tile_halving_continues(count as int, dx as int, dy as int, j));
    (nx, ny)
}

/// Whether `sub_window_tiles(count, dx, dy)` can run without its products
/// overflowing, found by walking the same tiling with checked
/// multiplication.
pub fn sub_window_tiles_fit(count: usize, dx: usize, dy: usize) -> (b: bool)
    ensures
        b == tiles_fit(dx as int, dy as int, count as int, 1),
{
    let mut nx = count;
    let mut ny: usize = 1;
    loop
        invariant
            ny >= 1,
            nx * ny == count,
            tiles_fit(dx as int, dy as int, count as int, 1) == tiles_fit(dx as int, dy as int, nx as int, ny as int),
        decreases nx,
    {
        if nx % 2 != 0 {
            return true;
        }
        let wide = match dx.checked_mul(2) {
            Some(twice) => twice.checked_mul(ny),
            None => None,
        };
        let high = dy.checked_mul(nx);
        match (wide, high) {
            (Some(w), Some(h)) => {
                if !(nx > 0 && w < h) {
                    return true;
                }
                assert(ny * 2 <= nx * ny) by (nonlinear_arith)
                    requires nx >= 2, ny >= 1;
                assert((nx / 2) * (ny * 2) == nx * ny) by (nonlinear_arith)
                    requires nx % 2 == 0;
                nx = nx / 2;
                ny = ny * 2;
            },
            _ => {
                proof {
                    if 2 * dx > usize::MAX {
                        assert(2 * dx * ny >= 2 * dx) by (nonlinear_arith)
                            requires ny >= 1, dx >= 0;
                    }
                }
                return false;
            },
        }
    }
}

} // verus!

verus! {

/// The sum of the counts in `s`.
pub open spec fn count_sum(s: Seq<usize>) -> int
    decreases s.len(),
{
    if s.len() == 0 {
        0
    } else {
        count_sum(s.drop_last()) + s.last()
    }
}

proof fn lemma_count_sum_prefix(s: Seq<usize>, i: int)
    requires
        0 <= i < s.len(),
    ensures
        count_sum(s.subrange(0, i + 1)) == count_sum(s.subrange(0, i)) + s[i],
        count_sum(s.subrange(0, i)) <= count_sum(s),
{
    assert(s.subrange(0, i + 1).drop_last() =~= s.subrange(0, i));
    lemma_count_sum_mono(s, i);
}

proof fn lemma_count_sum_mono(s: Seq<usize>, i: int)
    requires
        0 <= i <= s.len(),
    ensures
        count_sum(s.subrange(0, i)) <= count_sum(s),
    decreases s.len() - i,
{
    if i < s.len() {
        lemma_count_sum_mono(s, i + 1);
        assert(s.subrange(0, i + 1).drop_last() =~= s.subrange(0, i));
    } else {
        assert(s.subrange(0, i) =~= s);
    }
}

fn sum_counts(s: &[usize], base: usize, scale: usize) -> (r: usize)
    requires
        base + scale * count_sum(s@) <= usize::MAX,
        scale <= 2,
    ensures
        r == base + scale * count_sum(s@),
{
    let mut acc = base;
    let mut i: usize = 0;
    while i < s.len()
        invariant
            i <= s@.len(),
            scale <= 2,
            base + scale * count_sum(s@) <= usize::MAX,
            acc == base + scale * count_sum(s@.subrange(0, i as int)),
        decreases s@.len() - i,
    {
        proof {
            lemma_count_sum_prefix(s@, i as int);
            lemma_count_sum_mono(s@, i + 1);
            let before = count_sum(s@.subrange(0, i as int));
            let after = count_sum(s@.subrange(0, i + 1));
            let total = count_sum(s@);
            assert(scale * after == scale * before + scale * s[i as int] && scale * after <= scale * total)
                by (nonlinear_arith)
                requires
                    after == before + s[i as int],
                    after <= total,
                    scale >= 0,
            ;
        }
        acc = acc + scale * s[i];
        i += 1;
    }
    assert(s@.subrange(0, s@.len() as int) =~= s@);
    acc
}

/// How many floats one call of the low-discrepancy pixel sampler needs for
/// `num_pixel_samples` samples that each take two image, two lens and one
/// time value, the 1D values that `num_1d` asks for and the 2D values that
/// `num_2d` asks for.
pub fn ld_pixel_sample_floats_needed(num_1d: &[usize], num_2d: &[usize], num_pixel_samples: usize) -> (r: usize)
    requires
        5 + count_sum(num_1d@) + 2 * count_sum(num_2d@) <= usize::MAX,
        (5 + count_sum(num_1d@) + 2 * count_sum(num_2d@)) * num_pixel_samples <= usize::MAX,
    ensures
        r == (5 + count_sum(num_1d@) + 2 * count_sum(num_2d@)) * num_pixel_samples,
{
    proof {
        lemma_count_sum_mono(num_2d@, 0);
        assert(num_2d@.subrange(0, 0) =~= Seq::<usize>::empty());
    }
    let n1 = sum_counts(num_1d, 5, 1);
    let n = sum_counts(num_2d, n1, 2);
    n * num_pixel_samples
}

} // verus!
