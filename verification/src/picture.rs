//! RGB pictures as plain bytes, and their 8×8 blocks.
use vstd::prelude::*;

use crate::block::BLOCK;

verus! {

/// An RGB picture: `width * height` pixels, row-major, three bytes per pixel
/// (red, green, blue).
pub struct Picture {
    pub width: usize,
    pub height: usize,
    pub data: Vec<u8>,
}

/// Position in `data` of channel `ch` of pixel `(x, y)`.
pub open spec fn sample_index(width: int, x: int, y: int, ch: int) -> int {
    (y * width + x) * 3 + ch
}

/// Position of the pixel `(dx, dy)` of a block in the 64 samples of one channel.
pub open spec fn block_offset(dx: int, dy: int) -> int {
    dy * 8 + dx
}

proof fn lemma_sample_index_bounds(width: int, height: int, x: int, y: int, ch: int)
    requires
        0 <= x < width,
        0 <= y < height,
        0 <= ch < 3,
    ensures
        0 <= sample_index(width, x, y, ch) < width * height * 3,
{
    assert(0 <= y * width + x < width * height) by (nonlinear_arith)
        requires
            0 <= x < width,
            0 <= y < height,
    ;
    assert(width * height * 3 == (width * height) * 3) by (nonlinear_arith);
}

proof fn lemma_sample_index_injective(
    width: int,
    x1: int,
    y1: int,
    c1: int,
    x2: int,
    y2: int,
    c2: int,
)
    requires
        0 <= x1 < width,
        0 <= x2 < width,
        0 <= y1,
        0 <= y2,
        0 <= c1 < 3,
        0 <= c2 < 3,
        sample_index(width, x1, y1, c1) == sample_index(width, x2, y2, c2),
    ensures
        x1 == x2 && y1 == y2 && c1 == c2,
{
    assert(y1 * width + x1 == y2 * width + x2 && c1 == c2) by (nonlinear_arith)
        requires
            0 <= c1 < 3,
            0 <= c2 < 3,
            0 <= y1 * width + x1,
            0 <= y2 * width + x2,
            (y1 * width + x1) * 3 + c1 == (y2 * width + x2) * 3 + c2,
    ;
    assert(x1 == x2 && y1 == y2) by (nonlinear_arith)
        requires
            0 <= x1 < width,
            0 <= x2 < width,
            0 <= y1,
            0 <= y2,
            y1 * width + x1 == y2 * width + x2,
    ;
}

impl Picture {
    /// The byte buffer holds exactly the picture's samples.
    pub open spec fn wf(&self) -> bool {
        self.data@.len() == self.width * self.height * 3
    }

    /// Channel `ch` of pixel `(x, y)`.
    pub open spec fn sample(&self, x: int, y: int, ch: int) -> u8 {
        self.data@[sample_index(self.width as int, x, y, ch)]
    }

    /// Number of whole blocks in a row of blocks.
    pub open spec fn block_cols(&self) -> nat {
        (self.width / BLOCK) as nat
    }

    /// Number of rows of whole blocks.
    pub open spec fn block_rows(&self) -> nat {
        (self.height / BLOCK) as nat
    }

    /// The 64 samples, row-major, of channel `ch` of block `(bx, by)`.
    pub open spec fn spec_block_channel(&self, bx: int, by: int, ch: int) -> Seq<u8> {
        Seq::new(64, |k: int| self.sample(bx * 8 + k % 8, by * 8 + k / 8, ch))
    }

    /// Channel `ch` of block `(bx, by)`, as 64 row-major samples.
    pub fn block_channel(&self, bx: usize, by: usize, ch: usize) -> (out: Vec<u8>)
        requires
            self.wf(),
            bx < self.block_cols(),
            by < self.block_rows(),
            ch < 3,
        ensures
            out@ == self.spec_block_channel(bx as int, by as int, ch as int),
    {
        let mut out: Vec<u8> = Vec::new();
        let _len = self.data.len();
        let mut dy: usize = 0;
        while dy < BLOCK
            invariant
                self.wf(),
                self.data@.len() <= usize::MAX,
                bx < self.block_cols(),
                by < self.block_rows(),
                ch < 3,
                dy <= 8,
                out@.len() == dy * 8,
                forall|k: int| 0 <= k < out@.len() ==> #[trigger] out@[k] == self.sample(bx * 8 + k % 8, by * 8 + k / 8, ch as int),
            decreases 8 - dy,
        {
            let mut dx: usize = 0;
            while dx < BLOCK
                invariant
                    self.wf(),
                    self.data@.len() <= usize::MAX,
                    bx < self.block_cols(),
                    by < self.block_rows(),
                    ch < 3,
                    dy < 8,
                    dx <= 8,
                    out@.len() == dy * 8 + dx,
                    forall|k: int| 0 <= k < out@.len() ==> #[trigger] out@[k] == self.sample(bx * 8 + k % 8, by * 8 + k / 8, ch as int),
                decreases 8 - dx,
            {
                let x = bx * BLOCK + dx;
                let y = by * BLOCK + dy;
                proof {
                    assert(x < self.width && y < self.height) by (nonlinear_arith)
                        requires
                            bx < self.width / 8,
                            by < self.height / 8,
                            dx < 8,
                            dy < 8,
                            x == bx * 8 + dx,
                            y == by * 8 + dy,
                    ;
                    lemma_sample_index_bounds(self.width as int, self.height as int, x as int, y as int, ch as int);
                    assert(self.data@.len() <= usize::MAX);
                    assert(0 <= y * self.width <= y * self.width + x) by (nonlinear_arith)
                        requires x >= 0, y >= 0, self.width >= 0;
                    let k = (dy * 8 + dx) as int;
                    assert(k % 8 == dx && k / 8 == dy) by {
                        vstd::arithmetic::div_mod::lemma_fundamental_div_mod_converse(k, 8, dy as int, dx as int);
                    }
                }
                let idx = (y * self.width + x) * 3 + ch;
                out.push(self.data[idx]);
                dx = dx + 1;
            }
            dy = dy + 1;
        }
        assert(out@ =~= self.spec_block_channel(bx as int, by as int, ch as int));
        out
    }

    /// `(x, y)` lies in block `(bx, by)`.
    pub open spec fn in_block(bx: int, by: int, x: int, y: int) -> bool {
        bx * 8 <= x < bx * 8 + 8 && by * 8 <= y < by * 8 + 8
    }

    /// Overwrite channel `ch` of block `(bx, by)` with 64 row-major samples.
    pub fn store_block_channel(&mut self, bx: usize, by: usize, ch: usize, samples: &Vec<u8>)
        requires
            old(self).wf(),
            bx < old(self).block_cols(),
            by < old(self).block_rows(),
            ch < 3,
            samples@.len() == 64,
        ensures
            final(self).wf(),
            final(self).width == old(self).width,
            final(self).height == old(self).height,
            forall|x: int, y: int, c: int|
                0 <= x < old(self).width && 0 <= y < old(self).height && 0 <= c < 3 ==> #[trigger] final(self).sample(x, y, c) == if c == ch && Self::in_block(bx as int, by as int, x, y) {
                    samples@[block_offset(x - bx * 8, y - by * 8)]
                } else {
                    old(self).sample(x, y, c)
                },
    {
        let _len = self.data.len();
        let ghost orig = *self;
        let mut dy: usize = 0;
        while dy < BLOCK
            invariant
                self.wf(),
                self.width == orig.width,
                self.height == orig.height,
                self.data@.len() <= usize::MAX,
                bx < self.block_cols(),
                by < self.block_rows(),
                ch < 3,
                samples@.len() == 64,
                dy <= 8,
                forall|x: int, y: int, c: int|
                    0 <= x < orig.width && 0 <= y < orig.height && 0 <= c < 3 ==> #[trigger] self.sample(
                        x,
                        y,
                        c,
                    ) == if c == ch && Self::in_block(bx as int, by as int, x, y) && y < by * 8
                        + dy {
                        samples@[block_offset(x - bx * 8, y - by * 8)]
                    } else {
                        orig.sample(x, y, c)
                    },
            decreases 8 - dy,
        {
            let mut dx: usize = 0;
            while dx < BLOCK
                invariant
                    self.wf(),
                    self.width == orig.width,
                    self.height == orig.height,
                    self.data@.len() <= usize::MAX,
                    bx < self.block_cols(),
                    by < self.block_rows(),
                    ch < 3,
                    samples@.len() == 64,
                    dy < 8,
                    dx <= 8,
                    forall|x: int, y: int, c: int|
                        0 <= x < orig.width && 0 <= y < orig.height && 0 <= c < 3 ==> #[trigger] self.sample(
                            x,
                            y,
                            c,
                        ) == if c == ch && Self::in_block(bx as int, by as int, x, y) && (y < by
                            * 8 + dy || (y == by * 8 + dy && x < bx * 8 + dx)) {
                            samples@[block_offset(x - bx * 8, y - by * 8)]
                        } else {
                            orig.sample(x, y, c)
                        },
                decreases 8 - dx,
            {
                let x = bx * BLOCK + dx;
                let y = by * BLOCK + dy;
                proof {
                    assert(x < self.width && y < self.height) by (nonlinear_arith)
                        requires
                            bx < self.width / 8,
                            by < self.height / 8,
                            dx < 8,
                            dy < 8,
                            x == bx * 8 + dx,
                            y == by * 8 + dy,
                    ;
                    lemma_sample_index_bounds(self.width as int, self.height as int, x as int, y as int, ch as int);
                    assert(0 <= y * self.width <= y * self.width + x) by (nonlinear_arith)
                        requires x >= 0, y >= 0, self.width >= 0;
                }
                let idx = (y * self.width + x) * 3 + ch;
                let ghost prev = *self;
                self.data.set(idx, samples[dy * BLOCK + dx]);
                proof {
                    assert forall|xx: int, yy: int, c: int|
                        0 <= xx < orig.width && 0 <= yy < orig.height && 0 <= c < 3 implies #[trigger] self.sample(
                            xx,
                            yy,
                            c,
                        ) == if c == ch && Self::in_block(bx as int, by as int, xx, yy) && (yy < by
                            * 8 + dy || (yy == by * 8 + dy && xx < bx * 8 + dx + 1)) {
                            samples@[block_offset(xx - bx * 8, yy - by * 8)]
                        } else {
                            orig.sample(xx, yy, c)
                        } by {
                        lemma_sample_index_bounds(self.width as int, self.height as int, xx, yy, c);
                        if sample_index(self.width as int, xx, yy, c) == idx {
                            lemma_sample_index_injective(
                                self.width as int,
                                xx,
                                yy,
                                c,
                                x as int,
                                y as int,
                                ch as int,
                            );
                        } else {
                            assert(self.sample(xx, yy, c) == prev.sample(xx, yy, c));
                        }
                    }
                }
                dx = dx + 1;
            }
            dy = dy + 1;
        }
    }
}

} // verus!
