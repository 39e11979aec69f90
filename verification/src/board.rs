//! The board: a fixed-size grid of color codes with column-major storage.
//!
//! Cell `(x, y)` has `x` growing rightward and `y` growing upward (row 0 is
//! the bottom row); it is stored in the flat buffer at index `h * x + y`, so
//! each column occupies a contiguous chunk, bottom cell first.

use vstd::prelude::*;
use crate::rng::sample_in_range;

verus! {

/// Largest color code; cells hold `0` (empty) or a color in `1..=MAX_COLOR`.
pub const MAX_COLOR: u8 = 5;

/// Mathematical view of a board: dimensions and the flat cell buffer.
#[verifier::ext_equal]
pub ghost struct BoardModel {
    pub w: nat,
    pub h: nat,
    pub cells: Seq<u8>,
}

impl BoardModel {
    /// Dimensions are positive, the buffer has exactly `w * h` cells, and
    /// every stored value is a valid color code or empty.
    pub open spec fn wf(self) -> bool {
        &&& self.w > 0
        &&& self.h > 0
        &&& self.cells.len() == self.w * self.h
        &&& forall|i: int| 0 <= i < self.cells.len() ==> self.cells[i] <= MAX_COLOR
    }

    pub open spec fn in_bounds(self, x: int, y: int) -> bool {
        &&& 0 <= x < self.w
        &&& 0 <= y < self.h
    }

    /// The color stored at `(x, y)`.
    pub open spec fn cell(self, x: int, y: int) -> u8 {
        self.cells[self.h * x + y]
    }

    /// Column `x` as a sequence, bottom cell first.
    pub open spec fn column(self, x: int) -> Seq<u8> {
        self.cells.subrange(self.h * x, self.h * x + self.h)
    }
}

/// The flat index of `(x, y)` is in range and addresses that cell's slot.
pub proof fn lemma_index_in_range(m: BoardModel, x: int, y: int)
    requires
        m.wf(),
        m.in_bounds(x, y),
    ensures
        0 <= m.h * x + y < m.cells.len(),
        0 <= m.h * x,
        m.h * x + m.h <= m.cells.len(),
        m.column(x).len() == m.h,
        m.cell(x, y) == m.column(x)[y],
{
    assert(m.h * x + y < m.w * m.h && m.h * x + m.h <= m.w * m.h && 0 <= m.h * x)
        by (nonlinear_arith)
        requires 0 <= x < m.w, 0 <= y < m.h, m.h > 0;
}

/// The flat index determines the coordinate: distinct in-bounds coordinates
/// use distinct slots.
pub proof fn lemma_index_injective(m: BoardModel, x1: int, y1: int, x2: int, y2: int)
    requires
        m.wf(),
        m.in_bounds(x1, y1),
        m.in_bounds(x2, y2),
        m.h * x1 + y1 == m.h * x2 + y2,
    ensures
        x1 == x2,
        y1 == y2,
{
    assert(x1 == x2 && y1 == y2) by (nonlinear_arith)
        requires
            m.h * x1 + y1 == m.h * x2 + y2,
            0 <= y1 < m.h,
            0 <= y2 < m.h,
            0 <= x1,
            0 <= x2;
}

#[derive(Debug)]
pub struct Board {
    pub(crate) w: usize,
    pub(crate) h: usize,
    pub(crate) cells: Vec<u8>,
}

impl Board {
    /// The mathematical content of the board.
    pub closed spec fn model(self) -> BoardModel {
        BoardModel { w: self.w as nat, h: self.h as nat, cells: self.cells@ }
    }

    pub open spec fn wf(self) -> bool {
        self.model().wf()
    }

    pub fn width(&self) -> (r: usize)
        ensures
            r == self.model().w,
    {
        self.w
    }

    pub fn height(&self) -> (r: usize)
        ensures
            r == self.model().h,
    {
        self.h
    }

    /// The stored fields are the model's data.
    pub(crate) proof fn lemma_cells_view(&self)
        ensures
            self.cells@ == self.model().cells,
            self.w == self.model().w,
            self.h == self.model().h,
    {
    }

    /// Length of the flat cell buffer.
    pub(crate) fn buf_len(&self) -> (n: usize)
        ensures
            n == self.model().cells.len(),
    {
        self.cells.len()
    }

    /// Flat index of an in-bounds coordinate.
    pub(crate) fn idx(&self, x: usize, y: usize) -> (i: usize)
        requires
            self.wf(),
            x < self.model().w,
            y < self.model().h,
        ensures
            i == self.model().h * x + y,
            i < self.model().cells.len(),
    {
        proof {
            lemma_index_in_range(self.model(), x as int, y as int);
        }
        let n = self.cells.len();
        assert(self.h * x + y < n);
        self.h * x + y
    }

    /// The color stored at `(x, y)`.
    pub fn at(&self, x: usize, y: usize) -> (r: u8)
        requires
            self.wf(),
            x < self.model().w,
            y < self.model().h,
        ensures
            r == self.model().cell(x as int, y as int),
    {
        let i = self.idx(x, y);
        self.cells[i]
    }

    /// A fresh board with every cell drawn from the `MAX_COLOR` available
    /// colors; no cell is empty.
    pub fn random(w: usize, h: usize) -> (r: Board)
        requires
            w > 0,
            h > 0,
            w * h <= usize::MAX,
        ensures
            r.wf(),
            r.model().w == w,
            r.model().h == h,
            forall|i: int| 0 <= i < r.model().cells.len() ==> 1 <= #[trigger] r.model().cells[i] <= MAX_COLOR,
    {
        let n = w * h;
        let mut cells: Vec<u8> = Vec::new();
        let mut k: usize = 0;
        while k < n
            invariant
                k <= n,
                cells@.len() == k,
                forall|i: int| 0 <= i < k ==> 1 <= #[trigger] cells@[i] <= MAX_COLOR,
            decreases n - k,
        {
            cells.push(sample_in_range(1, MAX_COLOR + 1));
            k = k + 1;
        }
        Board { w, h, cells }
    }
}

} // verus!
