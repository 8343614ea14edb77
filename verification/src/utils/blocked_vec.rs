use vstd::prelude::*;

verus! {

/// Base-two logarithm of the side of a square block.
pub const LOG_BLOCK_SIZE: usize = 5;

/// `x` rounded up to a whole number of blocks (32 cells per block side).
pub open spec fn rounded_up(x: int) -> int {
    ((x + 31) / 32) * 32
}

/// Where the cell `(u, v)` lives in the block memory of an array whose rows
/// are `blocks_wide` blocks wide: blocks are laid out row by row, and the
/// 32 x 32 cells of a block row by row inside it.
pub open spec fn blocked_offset(blocks_wide: int, u: int, v: int) -> int {
    1024 * (blocks_wide * (v / 32) + u / 32) + 32 * (v % 32) + u % 32
}

/// Rounding up never makes a length smaller.
pub proof fn lemma_rounded_up_covers(x: int)
    requires
        0 <= x,
    ensures
        x <= rounded_up(x),
{
    vstd::arithmetic::div_mod::lemma_fundamental_div_mod(x + 31, 32);
    vstd::arithmetic::div_mod::lemma_mod_pos_bound(x + 31, 32);
}

/// Different cells of an array whose rows are `blocks_wide` blocks wide live
/// at different places.
pub proof fn lemma_offset_injective(blocks_wide: int, u1: int, v1: int, u2: int, v2: int)
    requires
        0 <= u1 < 32 * blocks_wide,
        0 <= u2 < 32 * blocks_wide,
        0 <= v1,
        0 <= v2,
        blocked_offset(blocks_wide, u1, v1) == blocked_offset(blocks_wide, u2, v2),
    ensures
        u1 == u2,
        v1 == v2,
{
    lemma_split_cell(blocks_wide, u1, v1);
    lemma_split_cell(blocks_wide, u2, v2);
    assert(u1 / 32 == u2 / 32 && v1 / 32 == v2 / 32);
    assert(u1 % 32 == u2 % 32 && v1 % 32 == v2 % 32);
    vstd::arithmetic::div_mod::lemma_fundamental_div_mod(u1, 32);
    vstd::arithmetic::div_mod::lemma_fundamental_div_mod(u2, 32);
    vstd::arithmetic::div_mod::lemma_fundamental_div_mod(v1, 32);
    vstd::arithmetic::div_mod::lemma_fundamental_div_mod(v2, 32);
}

/// The block coordinates and the position inside the block can be read back
/// from the offset of a cell.
pub proof fn lemma_split_cell(blocks_wide: int, u: int, v: int)
    requires
        0 <= u < 32 * blocks_wide,
        0 <= v,
    ensures
        ({
            let x = blocked_offset(blocks_wide, u, v);
            &&& (x / 1024) / blocks_wide == v / 32
            &&& (x / 1024) % blocks_wide == u / 32
            &&& (x % 1024) / 32 == v % 32
            &&& (x % 1024) % 32 == u % 32
        }),
{
    let x = blocked_offset(blocks_wide, u, v);
    let a = blocks_wide * (v / 32) + u / 32;
    let r = 32 * (v % 32) + u % 32;
    vstd::arithmetic::div_mod::lemma_div_pos_is_pos(u, 32);
    vstd::arithmetic::div_mod::lemma_div_pos_is_pos(v, 32);
    assert(u / 32 < blocks_wide) by {
        vstd::arithmetic::div_mod::lemma_div_is_ordered(u, 32 * blocks_wide - 1, 32);
        vstd::arithmetic::div_mod::lemma_fundamental_div_mod_converse(32 * blocks_wide - 1, 32, blocks_wide - 1, 31);
    }
    assert(0 <= a) by (nonlinear_arith)
        requires a == blocks_wide * (v / 32) + u / 32, blocks_wide > 0, v / 32 >= 0, u / 32 >= 0;
    assert(0 <= r < 1024);
    vstd::arithmetic::div_mod::lemma_fundamental_div_mod_converse(x, 1024, a, r);
    assert(a == (v / 32) * blocks_wide + u / 32) by (nonlinear_arith)
        requires a == blocks_wide * (v / 32) + u / 32;
    vstd::arithmetic::div_mod::lemma_fundamental_div_mod_converse(a, blocks_wide, v / 32, u / 32);
    vstd::arithmetic::div_mod::lemma_fundamental_div_mod_converse(r, 32, v % 32, u % 32);
}

/// Every cell of a `width` by `height` array lives inside its block memory.
pub proof fn lemma_offset_in_bounds(blocks_wide: int, width: int, height: int, u: int, v: int)
    requires
        blocks_wide * 32 == rounded_up(width),
        0 <= u < width,
        0 <= v < height,
    ensures
        0 <= blocked_offset(blocks_wide, u, v) < rounded_up(width) * rounded_up(height),
{
    let bv = v / 32;
    let bu = u / 32;
    let rows = (height + 31) / 32;
    vstd::arithmetic::div_mod::lemma_div_pos_is_pos(u, 32);
    vstd::arithmetic::div_mod::lemma_div_pos_is_pos(v, 32);
    vstd::arithmetic::div_mod::lemma_div_is_ordered(u, width + 31, 32);
    vstd::arithmetic::div_mod::lemma_div_is_ordered(v, height + 31, 32);
    assert(bu < blocks_wide) by {
        vstd::arithmetic::div_mod::lemma_fundamental_div_mod(u, 32);
        vstd::arithmetic::div_mod::lemma_fundamental_div_mod(width + 31, 32);
    }
    assert(bv < rows) by {
        vstd::arithmetic::div_mod::lemma_fundamental_div_mod(v, 32);
        vstd::arithmetic::div_mod::lemma_fundamental_div_mod(height + 31, 32);
    }
    assert(rounded_up(height) == rows * 32);
    assert(0 <= blocked_offset(blocks_wide, u, v) < rounded_up(width) * rounded_up(height)) by (nonlinear_arith)
        requires
            0 <= bu < blocks_wide,
            0 <= bv < rows,
            0 <= v % 32 < 32,
            0 <= u % 32 < 32,
            blocked_offset(blocks_wide, u, v) == 1024 * (blocks_wide * bv + bu) + 32 * (v % 32) + u % 32,
            rounded_up(width) == blocks_wide * 32,
            rounded_up(height) == rows * 32,
    {
        assert(blocks_wide * bv + bu + 1 <= blocks_wide * rows);
    }
}

/// The cells of a `width` by `height` array kept in `mem`, row by row.
pub open spec fn row_major<T>(mem: Seq<T>, blocks_wide: int, width: int, height: int) -> Seq<T> {
    Seq::new(
        (width * height) as nat,
        |i: int| mem[blocked_offset(blocks_wide, i % width, i / width)],
    )
}

/// Writing one cell's place in block memory changes that cell, and only that
/// one, in the row-by-row view.
proof fn lemma_row_major_update<T>(mem: Seq<T>, blocks_wide: int, width: int, height: int, u: int, v: int)
    requires
        blocks_wide * 32 == rounded_up(width),
        mem.len() == rounded_up(width) * rounded_up(height),
        0 <= u < width,
        0 <= v < height,
    ensures
        forall|x: T| #![trigger mem.update(blocked_offset(blocks_wide, u, v), x)]
            row_major(mem.update(blocked_offset(blocks_wide, u, v), x), blocks_wide, width, height)
                == row_major(mem, blocks_wide, width, height).update(v * width + u, x),
{
    let off = blocked_offset(blocks_wide, u, v);
    lemma_offset_in_bounds(blocks_wide, width, height, u, v);
    vstd::arithmetic::div_mod::lemma_fundamental_div_mod_converse(v * width + u, width, v, u);
    assert(0 <= v * width + u < width * height) by (nonlinear_arith)
        requires 0 <= u < width, 0 <= v < height;
    assert(row_major(mem, blocks_wide, width, height).len() == width * height);
    assert forall|x: T| #![trigger mem.update(off, x)]
        row_major(mem.update(off, x), blocks_wide, width, height)
            == row_major(mem, blocks_wide, width, height).update(v * width + u, x) by {
        let a = row_major(mem.update(off, x), blocks_wide, width, height);
        let b = row_major(mem, blocks_wide, width, height).update(v * width + u, x);
        assert(a.len() == b.len());
        lemma_rounded_up_covers(width);
        assert forall|i: int| 0 <= i < a.len() implies a[i] == b[i] by {
            let iu = i % width;
            let iv = i / width;
            vstd::arithmetic::div_mod::lemma_fundamental_div_mod(i, width);
            vstd::arithmetic::div_mod::lemma_mod_pos_bound(i, width);
            vstd::arithmetic::div_mod::lemma_div_pos_is_pos(i, width);
            assert(iv < height) by {
                if iv >= height {
                    assert(width * iv >= width * height) by (nonlinear_arith)
                        requires iv >= height, width > 0;
                }
            }
            lemma_offset_in_bounds(blocks_wide, width, height, iu, iv);
            if i != v * width + u {
                if blocked_offset(blocks_wide, iu, iv) == off {
                    lemma_offset_injective(blocks_wide, iu, iv, u, v);
                    assert(i == iv * width + iu) by (nonlinear_arith)
                        requires i == width * iv + iu;
                }
                assert(a[i] == mem[blocked_offset(blocks_wide, iu, iv)]);
            } else {
                assert(iu == u && iv == v);
            }
        }
        assert(a =~= b);
    }
}

/// A two-dimensional array of `width` by `height` cells kept in square
/// blocks, so that cells that are close in both directions are close in
/// memory.
#[derive(Debug, Clone, PartialEq, PartialOrd)]
pub struct BlockedVec<T: Default + Clone> {
    blocks_memory: Vec<T>,
    log_block_size: usize,
    blocks_wide: usize,
    width: usize,
    height: usize,
}

impl<T: Default + Clone> BlockedVec<T> {
    /// The internal consistency of the array: fixed block size, enough blocks
    /// to cover the width, and memory for whole blocks in both directions.
    pub closed spec fn wf(&self) -> bool {
        &&& self.log_block_size == LOG_BLOCK_SIZE
        &&& self.blocks_wide * 32 == rounded_up(self.width as int)
        &&& self.blocks_memory@.len() == rounded_up(self.width as int) * rounded_up(self.height as int)
        &&& self.blocks_memory@.len() <= usize::MAX
    }

    pub closed spec fn spec_width(&self) -> nat {
        self.width as nat
    }

    pub closed spec fn spec_height(&self) -> nat {
        self.height as nat
    }

    /// The cell at column `u` and row `v`.
    pub closed spec fn cell(&self, u: int, v: int) -> T {
        self.blocks_memory@[blocked_offset(self.blocks_wide as int, u, v)]
    }

    /// The cells row by row: cell `(u, v)` is at index `v * width + u`.
    pub closed spec fn view(&self) -> Seq<T> {
        row_major(self.blocks_memory@, self.blocks_wide as int, self.spec_width() as int, self.spec_height() as int)
    }

    /// The position of cell `(u, v)` in the row-by-row view of the array.
    pub open spec fn index_of(&self, u: int, v: int) -> int {
        v * (self.spec_width() as int) + u
    }

    /// The row-by-row view holds, at the index of cell `(u, v)`, that cell.
    proof fn lemma_view_index(&self, u: int, v: int)
        requires
            0 <= u < self.spec_width(),
            0 <= v < self.spec_height(),
        ensures
            0 <= self.index_of(u, v) < self@.len(),
            self@[self.index_of(u, v)] == self.cell(u, v),
    {
        let w = self.spec_width() as int;
        let h = self.spec_height() as int;
        let i = v * w + u;
        vstd::arithmetic::div_mod::lemma_fundamental_div_mod_converse(i, w, v, u);
        assert(v * w + u < w * h) by (nonlinear_arith)
            requires 0 <= u < w, 0 <= v < h;
        assert(0 <= v * w) by (nonlinear_arith)
            requires 0 <= v, 0 <= w;
    }

    pub fn new(width: usize, height: usize) -> (r: BlockedVec<T>)
        requires
            width + 32 <= usize::MAX,
            height + 32 <= usize::MAX,
            rounded_up(width as int) * rounded_up(height as int) <= usize::MAX,
        ensures
            r.wf(),
            r.spec_width() == width,
            r.spec_height() == height,
            r@.len() == width * height,
            exists|d: T|
                call_ensures(T::default, (), d)
                && forall|i: int| 0 <= i < r@.len() ==> cloned(d, #[trigger] r@[i]),
    {
        let block_size: usize = 1 << LOG_BLOCK_SIZE;
        assert(1usize << 5usize == 32) by (bit_vector);
        let round_up = |x: usize| -> (r: usize)
            requires
                block_size == 32,
                x + 32 <= usize::MAX,
            ensures
                r == rounded_up(x as int),
        {
            let y = x + block_size - 1;
            assert((y & !31usize) == (y / 32) * 32) by (bit_vector);
            y & !(block_size - 1)
        };

        let num_elements = round_up(width) * round_up(height);
        let d: T = Default::default();
        let mem: Vec<T> = vec![d; num_elements];

        let rw = round_up(width);
        assert(rw >> 5usize == rw / 32) by (bit_vector);
        let r = BlockedVec {
            blocks_memory: mem,
            log_block_size: LOG_BLOCK_SIZE,
            blocks_wide: rw >> LOG_BLOCK_SIZE,
            width: width,
            height: height,
        };
        proof {
            assert forall|i: int| 0 <= i < r@.len() implies cloned(d, #[trigger] r@[i]) by {
                let w = width as int;
                vstd::arithmetic::div_mod::lemma_fundamental_div_mod(i, w);
                vstd::arithmetic::div_mod::lemma_mod_pos_bound(i, w);
                vstd::arithmetic::div_mod::lemma_div_pos_is_pos(i, w);
                let iv = i / w;
                assert(iv < height) by {
                    if iv >= height {
                        assert(w * iv >= w * height) by (nonlinear_arith)
                            requires iv >= height, w > 0;
                    }
                }
                lemma_offset_in_bounds(r.blocks_wide as int, w, height as int, i % w, iv);
            }
        }
        r
    }

    pub fn new_with(width: usize, height: usize, vals: Vec<T>) -> (r: BlockedVec<T>)
        requires
            width * height == vals@.len(),
            width + 32 <= usize::MAX,
            height + 32 <= usize::MAX,
            rounded_up(width as int) * rounded_up(height as int) <= usize::MAX,
        ensures
            r.wf(),
            r.spec_width() == width,
            r.spec_height() == height,
            r@.len() == vals@.len(),
            forall|i: int| 0 <= i < vals@.len() ==> cloned(vals@[i], #[trigger] r@[i]),
    {
        let n = vals.len();
        let mut blocked_vec = BlockedVec::new(width, height);
        let mut y: usize = 0;
        while y < height
            invariant
                y <= height,
                n == vals@.len(),
                blocked_vec.wf(),
                blocked_vec.spec_width() == width,
                blocked_vec.spec_height() == height,
                width * height == n,
                blocked_vec@.len() == n,
                forall|i: int| 0 <= i < y * width ==> cloned(vals@[i], #[trigger] blocked_vec@[i]),
            decreases height - y,
        {
            let mut x: usize = 0;
            while x < width
                invariant
                    x <= width,
                    y < height,
                    n == vals@.len(),
                    blocked_vec.wf(),
                    blocked_vec.spec_width() == width,
                    blocked_vec.spec_height() == height,
                    width * height == n,
                    blocked_vec@.len() == n,
                    forall|i: int| 0 <= i < y * width + x ==> cloned(vals@[i], #[trigger] blocked_vec@[i]),
                decreases width - x,
            {
                assert(y * width + x < width * height) by (nonlinear_arith)
                    requires x < width, y < height;
                let val = vals[y * width + x].clone();
                match blocked_vec.get_mut(x, y) {
                    Some(cell) => {
                        *cell = val;
                    },
                    None => {},
                }
                x += 1;
            }
            assert((y + 1) * width == y * width + width) by (nonlinear_arith);
            y += 1;
        }
        assert(height * width == width * height) by (nonlinear_arith);
        blocked_vec
    }

    fn block_size(&self) -> (r: usize)
        requires
            self.wf(),
        ensures
            r == 32,
    {
        assert(1usize << 5usize == 32) by (bit_vector);
        1 << self.log_block_size
    }

    pub fn width(&self) -> (r: usize)
        ensures
            r == self.spec_width(),
    {
        self.width
    }

    pub fn height(&self) -> (r: usize)
        ensures
            r == self.spec_height(),
    {
        self.height
    }

    fn block(&self, x: usize) -> (r: usize)
        requires
            self.wf(),
        ensures
            r == x / 32,
    {
        assert(x >> 5usize == x / 32) by (bit_vector);
        x >> self.log_block_size
    }

    fn offset(&self, x: usize) -> (r: usize)
        requires
            self.wf(),
        ensures
            r == x % 32,
    {
        assert(x & 31usize == x % 32) by (bit_vector);
        x & (self.block_size() - 1)
    }

    fn get_offset(&self, u: usize, v: usize) -> (r: usize)
        requires
            self.wf(),
            u < self.spec_width(),
            v < self.spec_height(),
        ensures
            r == blocked_offset(self.blocks_wide as int, u as int, v as int),
            r < self.blocks_memory@.len(),
    {
        proof {
            lemma_offset_in_bounds(self.blocks_wide as int, self.width as int, self.height as int, u as int, v as int);
            lemma_split_cell(self.blocks_wide as int, u as int, v as int);
        }
        let bu = self.block(u);
        let bv = self.block(v);

        let ou = self.offset(u);
        let ov = self.offset(v);

        let pixels_per_block = self.block_size() * self.block_size();

        proof {
            let bw = self.blocks_wide as int;
            assert(bw * (bv as int) + bu <= blocked_offset(bw, u as int, v as int) / 1024) by (nonlinear_arith)
                requires
                    blocked_offset(bw, u as int, v as int) == 1024 * (bw * (bv as int) + bu) + 32 * ov + ou,
                    0 <= ov < 32, 0 <= ou < 32,
            {
                vstd::arithmetic::div_mod::lemma_fundamental_div_mod_converse(
                    blocked_offset(bw, u as int, v as int), 1024, bw * (bv as int) + bu, 32 * ov + ou);
            }
            assert(0 <= bw * (bv as int)) by (nonlinear_arith) requires 0 <= bw, 0 <= bv;
            assert(1024 * (bw * (bv as int) + bu) <= blocked_offset(bw, u as int, v as int));
            assert(bw * (bv as int) + bu <= usize::MAX);
        }
        // Offset to block
        pixels_per_block * (self.blocks_wide * bv + bu) +
            // Offset within block
            self.block_size() * ov + ou
    }

    pub fn get(&self, u: usize, v: usize) -> (r: Option<&T>)
        requires
            self.wf(),
        ensures
            r == (if u < self.spec_width() && v < self.spec_height() {
                Some(&self@[self.index_of(u as int, v as int)])
            } else {
                None
            }),
    {
        if u >= self.width || v >= self.height {
            return None;
        }

        proof {
            self.lemma_view_index(u as int, v as int);
        }
        let offset = self.get_offset(u, v);
        Some(&self.blocks_memory[offset])
    }

    pub fn get_mut(&mut self, u: usize, v: usize) -> (r: Option<&mut T>)
        requires
            old(self).wf(),
        ensures
            r is Some <==> (u < old(self).spec_width() && v < old(self).spec_height()),
            r is None ==> *final(self) == *old(self),
            r matches Some(e) ==> {
                &&& *e == old(self)@[old(self).index_of(u as int, v as int)]
                &&& final(self).wf()
                &&& final(self).spec_width() == old(self).spec_width()
                &&& final(self).spec_height() == old(self).spec_height()
                &&& final(self)@ == old(self)@.update(old(self).index_of(u as int, v as int), *final(e))
            },
    {
        if u >= self.width || v >= self.height {
            return None;
        }
        proof {
            old(self).lemma_view_index(u as int, v as int);
            lemma_row_major_update(self.blocks_memory@, self.blocks_wide as int, self.width as int, self.height as int, u as int, v as int);
        }
        let offset = self.get_offset(u, v);
        Some(&mut self.blocks_memory[offset])
    }

    /// A read gives back what was written: after the cell `(u, v)` of an
    /// array is set to `x` (as `get_mut` states it), reading the cell
    /// `(u2, v2)` gives `x` if it is the same cell and the old value if not.
    pub proof fn lemma_read_after_write(
        before: BlockedVec<T>,
        after: BlockedVec<T>,
        u: int,
        v: int,
        x: T,
        u2: int,
        v2: int,
    )
        requires
            before.wf(),
            after.spec_width() == before.spec_width(),
            after.spec_height() == before.spec_height(),
            after@ == before@.update(before.index_of(u, v), x),
            0 <= u < before.spec_width(),
            0 <= v < before.spec_height(),
            0 <= u2 < before.spec_width(),
            0 <= v2 < before.spec_height(),
        ensures
            after@[after.index_of(u2, v2)] == (if u2 == u && v2 == v {
                x
            } else {
                before@[before.index_of(u2, v2)]
            }),
    {
        before.lemma_view_index(u, v);
        before.lemma_view_index(u2, v2);
        let w = before.spec_width() as int;
        if v * w + u == v2 * w + u2 {
            vstd::arithmetic::div_mod::lemma_fundamental_div_mod_converse(v * w + u, w, v, u);
            vstd::arithmetic::div_mod::lemma_fundamental_div_mod_converse(v2 * w + u2, w, v2, u2);
        }
    }
}

} // verus!
