use vstd::prelude::*;

use crate::picross_image::Color;
use crate::picross_image::white;
use crate::picross_image::white_color;

verus! {

/// One cell of the board. `Color(white())` renders as background and stands
/// for an unresolved cell; `Cross` marks a cell known to be empty.
#[derive(Clone, Copy, PartialEq, Eq, Structural, Debug)]
pub enum Pixel {
    Color(Color),
    Cross,
}

/// A mutable grid of cells, stored row-major: cell (x, y) sits at `x + y * width`.
pub struct Board {
    pub img: Vec<Pixel>,
    pub width: usize,
    pub height: usize,
}

/// Cell (x, y) of a `width`-wide row-major grid sits inside the backing vector.
pub proof fn lemma_cell_index_bounds(x: int, y: int, w: int, h: int)
    requires
        0 <= x < w,
        0 <= y < h,
    ensures
        0 <= x + y * w < w * h,
{
    assert(x + y * w < w * h) by (nonlinear_arith)
        requires
            0 <= x < w,
            0 <= y < h,
    ;
}

/// Distinct coordinates of the grid sit at distinct backing-vector indexes.
pub proof fn lemma_cell_index_injective(x1: int, y1: int, x2: int, y2: int, w: int)
    requires
        0 <= x1 < w,
        0 <= x2 < w,
        0 <= y1,
        0 <= y2,
        x1 + y1 * w == x2 + y2 * w,
    ensures
        x1 == x2 && y1 == y2,
{
    assert(y1 == y2) by (nonlinear_arith)
        requires
            0 <= x1 < w,
            0 <= x2 < w,
            0 <= y1,
            0 <= y2,
            x1 + y1 * w == x2 + y2 * w,
    ;
}

impl Board {
    /// The backing vector holds exactly one cell per coordinate.
    pub open spec fn wf(&self) -> bool {
        self.img@.len() == self.width * self.height
    }

    /// The cell at coordinate (x, y).
    pub open spec fn at(&self, x: int, y: int) -> Pixel {
        self.img@[x + y * self.width]
    }

    /// A blank board: every cell unresolved (background).
    pub fn new(width: usize, height: usize) -> (r: Board)
        requires
            width * height <= usize::MAX,
        ensures
            r.wf(),
            r.width == width,
            r.height == height,
            forall|x: int, y: int|
                0 <= x < width && 0 <= y < height ==> r.at(x, y) == Pixel::Color(white()),
    {
        let n = width * height;
        let mut img: Vec<Pixel> = Vec::new();
        let mut i: usize = 0;
        while i < n
            invariant
                i <= n,
                img@.len() == i,
                forall|k: int| 0 <= k < i ==> img@[k] == Pixel::Color(white()),
            decreases n - i,
        {
            img.push(Pixel::Color(white_color()));
            i = i + 1;
        }
        let r = Board { img, width, height };
        proof {
            assert forall|x: int, y: int|
                0 <= x < width && 0 <= y < height implies r.at(x, y) == Pixel::Color(
                white(),
            ) by {
                lemma_cell_index_bounds(x, y, width as int, height as int);
            }
        }
        r
    }

    pub fn width(&self) -> (r: usize)
        ensures
            r == self.width,
    {
        self.width
    }

    pub fn height(&self) -> (r: usize)
        ensures
            r == self.height,
    {
        self.height
    }

    /// Reads the cell at (x, y); the coordinate must be on the board.
    pub fn get_pixel(&self, x: usize, y: usize) -> (r: &Pixel)
        requires
            self.wf(),
            x < self.width,
            y < self.height,
        ensures
            *r == self.at(x as int, y as int),
    {
        let n = self.img.len();
        proof {
            lemma_cell_index_bounds(x as int, y as int, self.width as int, self.height as int);
            assert(x + y * self.width < n);
        }
        &self.img[x + y * self.width]
    }

    /// Writes the cell at (x, y). A coordinate off the board is ignored:
    /// the write is a silent no-op, a deliberate permissive policy.
    pub fn set_pixel(&mut self, x: usize, y: usize, pix: &Pixel)
        requires
            old(self).wf(),
        ensures
            final(self).wf(),
            final(self).width == old(self).width,
            final(self).height == old(self).height,
            x < old(self).width && y < old(self).height ==> final(self).img@ == old(
                self,
            ).img@.update(x + y * old(self).width, *pix),
            x < old(self).width && y < old(self).height ==> final(self).at(x as int, y as int)
                == *pix,
            forall|x2: int, y2: int|
                0 <= x2 < old(self).width && 0 <= y2 < old(self).height && !(x2 == x && y2 == y)
                    ==> final(self).at(x2, y2) == old(self).at(x2, y2),
            !(x < old(self).width && y < old(self).height) ==> *final(self) == *old(self),
    {
        if x < self.width && y < self.height {
            let n = self.img.len();
            proof {
                lemma_cell_index_bounds(x as int, y as int, self.width as int, self.height as int);
                assert(x + y * self.width < n);
            }
            let idx = x + y * self.width;
            self.img[idx] = *pix;
            proof {
                assert forall|x2: int, y2: int|
                    0 <= x2 < self.width && 0 <= y2 < self.height && !(x2 == x && y2
                        == y) implies self.at(x2, y2) == old(self).at(x2, y2) by {
                    lemma_cell_index_bounds(x2, y2, self.width as int, self.height as int);
                    if x2 + y2 * self.width == x + y * self.width {
                        lemma_cell_index_injective(
                            x2,
                            y2,
                            x as int,
                            y as int,
                            self.width as int,
                        );
                    }
                }
            }
        }
    }
}

} // verus!
