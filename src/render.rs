use vstd::prelude::*;
use vstd::arithmetic::div_mod::lemma_fundamental_div_mod_converse;
use vstd::arithmetic::mul::lemma_mul_inequality;

verus! {

/// The size of the rendered image in pixels.
#[derive(Clone, Copy, Debug, PartialEq, Eq, Structural)]
pub struct Raster {
    pub width: u32,
    pub height: u32,
}

impl Raster {
    pub open spec fn wf(&self) -> bool {
        self.width >= 1 && self.height >= 1
    }

    /// The number of pixels.
    pub open spec fn count(&self) -> nat {
        self.width as nat * self.height as nat
    }

    /// An image `width` pixels wide whose height is `raw_height`, the height
    /// derived from the aspect ratio, raised to one pixel where it is zero.
    pub fn new(width: u32, raw_height: u32) -> (r: Raster)
        requires
            width >= 1,
        ensures
            r.wf(),
            r.width == width,
            r.height == if raw_height == 0 { 1 } else { raw_height },
    {
        let height: u32 = if raw_height == 0 { 1 } else { raw_height };
        Raster { width, height }
    }

    /// The number of pixels, `width * height`.
    pub fn pixel_count(&self) -> (r: u64)
        ensures
            r == self.count(),
    {
        proof {
            lemma_mul_inequality(self.width as int, u32::MAX as int, self.height as int);
            lemma_mul_inequality(self.height as int, u32::MAX as int, u32::MAX as int);
            assert(u32::MAX as int * u32::MAX as int <= u64::MAX) by (nonlinear_arith);
        }
        self.width as u64 * self.height as u64
    }
}

/// The pixel at position `k` of the row-major order, as `(column, row)`.
pub open spec fn pixel_at(width: nat, k: nat) -> (nat, nat) {
    ((k % width) as nat, (k / width) as nat)
}

/// Every pixel of a `width` by `height` raster has a place in the row-major
/// order, before the end of it: the pixel in column `col` of row `row` comes at
/// position `row * width + col`.
pub proof fn lemma_every_pixel_has_a_place(width: nat, height: nat, col: nat, row: nat)
    requires
        col < width,
        row < height,
    ensures
        row * width + col < width * height,
        pixel_at(width, row * width + col) == (col, row),
{
    lemma_fundamental_div_mod_converse((row * width + col) as int, width as int, row as int, col as int);
    assert((row + 1) * width == row * width + width) by (nonlinear_arith);
    lemma_mul_inequality((row + 1) as int, height as int, width as int);
    assert(height * width == width * height) by (nonlinear_arith);
}

/// Each position before `width * height` holds one pixel of the raster, and
/// that pixel has no other position: the row-major order visits every pixel
/// exactly once.
pub proof fn lemma_each_place_holds_one_pixel(width: nat, height: nat, k: nat)
    requires
        width >= 1,
        k < width * height,
    ensures
        pixel_at(width, k).0 < width,
        pixel_at(width, k).1 < height,
        k == pixel_at(width, k).1 * width + pixel_at(width, k).0,
{
    let col = k % width;
    let row = k / width;
    vstd::arithmetic::div_mod::lemma_fundamental_div_mod(k as int, width as int);
    assert(row * width == width * row) by (nonlinear_arith);
    if row >= height {
        lemma_mul_inequality(height as int, row as int, width as int);
        assert(height * width == width * height) by (nonlinear_arith);
    }
}

/// Walks the pixels of a raster in the order in which they are written: row by
/// row from the top, each row from left to right.
#[derive(Clone, Copy, Debug)]
pub struct PixelCursor {
    raster: Raster,
    col: u32,
    row: u32,
}

impl PixelCursor {
    pub closed spec fn raster(&self) -> Raster {
        self.raster
    }

    /// How many pixels the cursor has passed.
    pub closed spec fn index(&self) -> nat {
        self.row as nat * self.raster.width as nat + self.col as nat
    }

    pub closed spec fn wf(&self) -> bool {
        &&& self.raster.wf()
        &&& self.col < self.raster.width
        &&& self.row <= self.raster.height
        &&& self.row == self.raster.height ==> self.col == 0
    }

    /// A cursor on the first pixel of `raster`.
    pub fn start(raster: Raster) -> (r: PixelCursor)
        requires
            raster.wf(),
        ensures
            r.wf(),
            r.raster() == raster,
            r.index() == 0,
    {
        PixelCursor { raster, col: 0, row: 0 }
    }

    proof fn lemma_position(&self)
        requires
            self.wf(),
        ensures
            self.index() <= self.raster.count(),
            self.index() == self.raster.count() <==> self.row == self.raster.height,
            self.row < self.raster.height ==> pixel_at(self.raster.width as nat, self.index())
                == (self.col as nat, self.row as nat),
    {
        let w = self.raster.width as int;
        let h = self.raster.height as int;
        let row = self.row as int;
        let col = self.col as int;
        if row < h {
            lemma_fundamental_div_mod_converse(row * w + col, w, row, col);
            assert((row + 1) * w == row * w + w) by (nonlinear_arith);
            lemma_mul_inequality(row + 1, h, w);
            assert(row * w == w * row) by (nonlinear_arith);
            assert(h * w == w * h) by (nonlinear_arith);
        }
    }

    /// The pixel under the cursor as `(column, row)`, or `None` once every
    /// pixel has been passed. The pixel at `index` is the one at that position
    /// of the row-major order.
    pub fn current(&self) -> (r: Option<(u32, u32)>)
        requires
            self.wf(),
        ensures
            r is None <==> self.index() == self.raster().count(),
            r matches Some(p) ==> {
                &&& p.0 < self.raster().width
                &&& p.1 < self.raster().height
                &&& self.index() == p.1 as nat * self.raster().width as nat + p.0 as nat
                &&& pixel_at(self.raster().width as nat, self.index()) == (p.0 as nat, p.1 as nat)
            },
    {
        proof {
            self.lemma_position();
        }
        if self.row < self.raster.height {
            Some((self.col, self.row))
        } else {
            None
        }
    }

    /// Whether the pixel under the cursor opens a row.
    pub fn starts_row(&self) -> (r: bool)
        requires
            self.wf(),
        ensures
            r <==> self.index() < self.raster().count() && self.index() % (self.raster().width as nat)
                == 0,
    {
        proof {
            self.lemma_position();
        }
        self.row < self.raster.height && self.col == 0
    }

    /// The number of rows not yet finished, counting the cursor's own.
    pub fn scanlines_remaining(&self) -> (r: u32)
        requires
            self.wf(),
        ensures
            self.index() < self.raster().count() ==> r as nat == self.raster().height as nat - pixel_at(
                self.raster().width as nat,
                self.index(),
            ).1,
            self.index() == self.raster().count() ==> r == 0,
    {
        proof {
            self.lemma_position();
        }
        self.raster.height - self.row
    }

    /// Moves the cursor to the next pixel.
    pub fn advance(&mut self)
        requires
            old(self).wf(),
            old(self).index() < old(self).raster().count(),
        ensures
            final(self).wf(),
            final(self).raster() == old(self).raster(),
            final(self).index() == old(self).index() + 1,
    {
        proof {
            self.lemma_position();
        }
        if self.col + 1 < self.raster.width {
            self.col = self.col + 1;
        } else {
            proof {
                let w = self.raster.width as int;
                let row = self.row as int;
                assert((row + 1) * w == row * w + w) by (nonlinear_arith);
            }
            self.col = 0;
            self.row = self.row + 1;
        }
    }
}

} // verus!
