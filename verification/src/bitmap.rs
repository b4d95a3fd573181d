//! Two-dimensional bitmap.
//!
//! A `width` by `height` grid of bits packed into 64-bit words. The cell
//! `(x, y)` lives at bit `x + y * width` of the packed array; `flip`
//! writes one cell and `active` reads one, and the contracts say exactly
//! which bit changes and that every other cell keeps its value.

use vstd::prelude::*;

verus! {

/// A `width` by `height` grid of bits.
pub struct Bitmap {
    width: u32,
    height: u32,
    buf: Vec<u64>,
}

/// Flat bit position of the cell `(x, y)`.
pub open spec fn cell_index(x: int, y: int, width: int) -> int {
    x + y * width
}

/// The flat position of an in-range cell is itself in range, and two
/// distinct cells have distinct positions.
proof fn lemma_cell_index(x: int, y: int, x2: int, y2: int, width: int, height: int)
    requires
        0 <= x < width,
        0 <= y < height,
        0 <= x2 < width,
        0 <= y2 < height,
    ensures
        0 <= cell_index(x, y, width) < width * height,
        (x != x2 || y != y2) ==> cell_index(x, y, width) != cell_index(x2, y2, width),
{
    assert(0 <= x + y * width < width * height) by (nonlinear_arith)
        requires
            0 <= x < width,
            0 <= y < height,
    ;
    if x != x2 || y != y2 {
        assert(x + y * width != x2 + y2 * width) by (nonlinear_arith)
            requires
                0 <= x < width,
                0 <= x2 < width,
                (x != x2 || y != y2),
        ;
    }
}

/// A flat position below `total` falls into a word below
/// `(total + 63) / 64`.
proof fn lemma_word_in_range(coords: int, total: int)
    requires
        0 <= coords < total,
    ensures
        0 <= coords / 64 < (total + 63) / 64,
        0 <= coords % 64 < 64,
    decreases total,
{
    assert(0 <= coords / 64 && 0 <= coords % 64 < 64 && coords / 64 < (total + 63) / 64)
        by (nonlinear_arith)
        requires
            0 <= coords < total,
    ;
}

impl Bitmap {
    /// Number of columns.
    pub closed spec fn spec_width(&self) -> int {
        self.width as int
    }

    /// Number of rows.
    pub closed spec fn spec_height(&self) -> int {
        self.height as int
    }

    /// The grid fits the address space of the packed words.
    pub closed spec fn wf(&self) -> bool {
        &&& (self.width as int) * (self.height as int) <= u32::MAX
        &&& self.buf@.len() == ((self.width as int) * (self.height as int) + 63) / 64
    }

    /// Whether the cell `(x, y)` is set.
    pub closed spec fn spec_active(&self, x: int, y: int) -> bool {
        let coords = cell_index(x, y, self.width as int);
        ((self.buf@[coords / 64] >> ((coords % 64) as u64)) & 1) == 1
    }

    /// An all-clear grid of `width` by `height` cells.
    pub fn new(width: u32, height: u32) -> (b: Bitmap)
        requires
            (width as int) * (height as int) <= u32::MAX,
        ensures
            b.wf(),
            b.spec_width() == width,
            b.spec_height() == height,
            forall|x: int, y: int|
                0 <= x < width && 0 <= y < height ==> !(#[trigger] b.spec_active(x, y)),
    {
        let total = width * height;
        let words = (total / 64 + if total % 64 != 0 {
            1u32
        } else {
            0u32
        }) as usize;
        proof {
            assert(words == ((width as int) * (height as int) + 63) / 64) by (nonlinear_arith)
                requires
                    total == (width as int) * (height as int),
                    total <= u32::MAX,
                    words == total as int / 64 + if total as int % 64 != 0 {
                        1int
                    } else {
                        0int
                    },
            ;
        }
        let mut buf: Vec<u64> = Vec::new();
        let mut i: usize = 0;
        while i < words
            invariant
                0 <= i <= words,
                buf@.len() == i,
                forall|j: int| 0 <= j < i ==> #[trigger] buf@[j] == 0,
            decreases words - i,
        {
            buf.push(0);
            i += 1;
        }
        let b = Bitmap { width, height, buf };
        proof {
            assert forall|x: int, y: int|
                0 <= x < width && 0 <= y < height implies !(#[trigger] b.spec_active(x, y)) by {
                lemma_cell_index(x, y, x, y, width as int, height as int);
                let coords = cell_index(x, y, width as int);
                lemma_word_in_range(coords, (width as int) * (height as int));
                let bit = (coords % 64) as u64;
                assert(((0u64 >> bit) & 1) != 1) by (bit_vector);
            }
        }
        b
    }

    /// Set the cell `(x, y)` when `value` holds, clear it otherwise.
    /// Every other cell keeps its state.
    pub fn flip(&mut self, x: u32, y: u32, value: bool)
        requires
            old(self).wf(),
            x < old(self).spec_width(),
            y < old(self).spec_height(),
        ensures
            final(self).wf(),
            final(self).spec_width() == old(self).spec_width(),
            final(self).spec_height() == old(self).spec_height(),
            final(self).spec_active(x as int, y as int) == value,
            forall|x2: int, y2: int|
                0 <= x2 < old(self).spec_width() && 0 <= y2 < old(self).spec_height() && (x2
                    != x || y2 != y) ==> final(self).spec_active(x2, y2) == old(
                    self,
                ).spec_active(x2, y2),
    {
        let ghost w = self.width as int;
        let ghost h = self.height as int;
        proof {
            lemma_cell_index(x as int, y as int, x as int, y as int, w, h);
            lemma_word_in_range(cell_index(x as int, y as int, w), w * h);
            assert((y as int) * w + x < w * h <= u32::MAX) by (nonlinear_arith)
                requires
                    0 <= (x as int) < w,
                    0 <= (y as int) < h,
                    w * h <= u32::MAX,
            ;
        }
        let coords = x + y * self.width;
        let idx = (coords / 64) as usize;
        let bit = (coords % 64) as u64;
        let word = self.buf[idx];
        let updated = if value {
            word | (1u64 << bit)
        } else {
            word & !(1u64 << bit)
        };
        self.buf[idx] = updated;
        proof {
            let coords0 = cell_index(x as int, y as int, w);
            assert(idx == coords0 / 64 && bit == (coords0 % 64) as u64);
            if value {
                assert((((word | (1u64 << bit)) >> bit) & 1) == 1) by (bit_vector)
                    requires
                        bit < 64,
                ;
            } else {
                assert((((word & !(1u64 << bit)) >> bit) & 1) != 1) by (bit_vector)
                    requires
                        bit < 64,
                ;
            }
            assert forall|x2: int, y2: int|
                0 <= x2 < w && 0 <= y2 < h && (x2 != x || y2 != y) implies self.spec_active(
                x2,
                y2,
            ) == old(self).spec_active(x2, y2) by {
                lemma_cell_index(x2, y2, x as int, y as int, w, h);
                let coords2 = cell_index(x2, y2, w);
                lemma_word_in_range(coords2, w * h);
                let bit2 = (coords2 % 64) as u64;
                if coords2 / 64 == coords0 / 64 {
                    assert(bit2 != bit) by (nonlinear_arith)
                        requires
                            coords2 != coords0,
                            coords2 / 64 == coords0 / 64,
                            bit2 == (coords2 % 64) as u64,
                            bit == (coords0 % 64) as u64,
                            0 <= coords2,
                            0 <= coords0,
                    ;
                    if value {
                        assert((((word | (1u64 << bit)) >> bit2) & 1) == ((word >> bit2) & 1))
                            by (bit_vector)
                            requires
                                bit < 64,
                                bit2 < 64,
                                bit != bit2,
                        ;
                    } else {
                        assert((((word & !(1u64 << bit)) >> bit2) & 1) == ((word >> bit2) & 1))
                            by (bit_vector)
                            requires
                                bit < 64,
                                bit2 < 64,
                                bit != bit2,
                        ;
                    }
                }
            }
        }
    }

    /// Whether the cell `(x, y)` is set.
    pub fn active(&self, x: u32, y: u32) -> (r: bool)
        requires
            self.wf(),
            x < self.spec_width(),
            y < self.spec_height(),
        ensures
            r == self.spec_active(x as int, y as int),
    {
        let ghost w = self.width as int;
        let ghost h = self.height as int;
        proof {
            lemma_cell_index(x as int, y as int, x as int, y as int, w, h);
            lemma_word_in_range(cell_index(x as int, y as int, w), w * h);
            assert((y as int) * w + x < w * h <= u32::MAX) by (nonlinear_arith)
                requires
                    0 <= (x as int) < w,
                    0 <= (y as int) < h,
                    w * h <= u32::MAX,
            ;
        }
        let coords = x + y * self.width;
        let idx = (coords / 64) as usize;
        let bit = (coords % 64) as u64;
        ((self.buf[idx] >> bit) & 1) == 1
    }
}

} // verus!
