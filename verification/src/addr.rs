//! Cell coordinates and the cells that share a unit with a cell.
use vstd::prelude::*;

verus! {

/// The index of the 3×3 box that holds column `x`, row `y`.
pub open spec fn block_of(x: int, y: int) -> int {
    (y / 3) * 3 + x / 3
}

/// The index of the 3×3 box that holds column `x`, row `y`; boxes are
/// numbered row by row.
pub fn get_block(x: usize, y: usize) -> (b: usize)
    requires
        block_of(x as int, y as int) <= usize::MAX,
    ensures
        b == block_of(x as int, y as int),
        x < 9 && y < 9 ==> b < 9,
{
    (y / 3) * 3 + (x / 3)
}

/// A cell of the grid: column `x`, row `y`, and the box `b` they lie in.
#[derive(Clone, Copy, Debug, PartialEq, Eq, Structural)]
pub struct Addr {
    pub x: usize,
    pub y: usize,
    pub b: usize,
}

impl Addr {
    /// The address of column `x`, row `y`.
    pub open spec fn at(x: int, y: int) -> Addr {
        Addr { x: x as usize, y: y as usize, b: block_of(x, y) as usize }
    }

    /// The coordinates lie on the grid and `b` is their box.
    pub open spec fn wf(&self) -> bool {
        &&& self.x < 9
        &&& self.y < 9
        &&& self.b == block_of(self.x as int, self.y as int)
    }

    /// The position of the cell when the grid is read row by row.
    pub open spec fn index(&self) -> int {
        self.y * 9 + self.x
    }

    /// The other eight cells of the row, from left to right.
    pub open spec fn row_peers(&self) -> Seq<Addr> {
        Seq::new(
            8,
            |i: int|
                Addr::at(
                    if i < self.x {
                        i
                    } else {
                        i + 1
                    },
                    self.y as int,
                ),
        )
    }

    /// The other eight cells of the column, from top to bottom.
    pub open spec fn column_peers(&self) -> Seq<Addr> {
        Seq::new(
            8,
            |i: int|
                Addr::at(
                    self.x as int,
                    if i < self.y {
                        i
                    } else {
                        i + 1
                    },
                ),
        )
    }

    /// The position of the cell inside its box, read row by row.
    pub open spec fn slot(&self) -> int {
        (self.y % 3) * 3 + self.x % 3
    }

    /// The other eight cells of the box, row by row.
    pub open spec fn box_peers(&self) -> Seq<Addr> {
        Seq::new(
            8,
            |i: int|
                {
                    let k = if i < self.slot() {
                        i
                    } else {
                        i + 1
                    };
                    Addr::at((self.x / 3) * 3 + k % 3, (self.y / 3) * 3 + k / 3)
                },
        )
    }

    /// The cell at column `x`, row `y`.
    pub fn new(x: usize, y: usize) -> (a: Addr)
        requires
            x < 9,
            y < 9,
        ensures
            a == Addr::at(x as int, y as int),
            a.wf(),
            a.x == x,
            a.y == y,
    {
        Addr { x, y, b: get_block(x, y) }
    }

    /// The position of the cell when the grid is read row by row.
    pub fn offset(&self) -> (i: usize)
        requires
            self.wf(),
        ensures
            i == self.index(),
            i < 81,
    {
        self.y * 9 + self.x
    }

    /// The other eight cells of the row, from left to right.
    pub fn get_h(&self) -> (r: Vec<Addr>)
        requires
            self.wf(),
        ensures
            r@ == self.row_peers(),
    {
        let mut out: Vec<Addr> = Vec::new();
        let mut x: usize = 0;
        while x < 9
            invariant
                x <= 9,
                self.wf(),
                out@.len() == (if x <= self.x {
                    x as int
                } else {
                    x - 1
                }),
                forall|i: int| 0 <= i < out@.len() ==> out@[i] == self.row_peers()[i],
            decreases 9 - x,
        {
            if x != self.x {
                out.push(Addr::new(x, self.y));
            }
            x += 1;
        }
        assert(out@ =~= self.row_peers());
        out
    }

    /// The other eight cells of the column, from top to bottom.
    pub fn get_v(&self) -> (r: Vec<Addr>)
        requires
            self.wf(),
        ensures
            r@ == self.column_peers(),
    {
        let mut out: Vec<Addr> = Vec::new();
        let mut y: usize = 0;
        while y < 9
            invariant
                y <= 9,
                self.wf(),
                out@.len() == (if y <= self.y {
                    y as int
                } else {
                    y - 1
                }),
                forall|i: int| 0 <= i < out@.len() ==> out@[i] == self.column_peers()[i],
            decreases 9 - y,
        {
            if y != self.y {
                out.push(Addr::new(self.x, y));
            }
            y += 1;
        }
        assert(out@ =~= self.column_peers());
        out
    }

    /// The other eight cells of the box, row by row.
    pub fn get_b(&self) -> (r: Vec<Addr>)
        requires
            self.wf(),
        ensures
            r@ == self.box_peers(),
    {
        let xb: usize = (self.x / 3) * 3;
        let yb: usize = (self.y / 3) * 3;
        let mut out: Vec<Addr> = Vec::new();
        let mut k: usize = 0;
        while k < 9
            invariant
                k <= 9,
                self.wf(),
                xb == (self.x / 3) * 3,
                yb == (self.y / 3) * 3,
                out@.len() == (if k <= self.slot() {
                    k as int
                } else {
                    k - 1
                }),
                forall|i: int| 0 <= i < out@.len() ==> out@[i] == self.box_peers()[i],
            decreases 9 - k,
        {
            let x: usize = xb + k % 3;
            let y: usize = yb + k / 3;
            if !(x == self.x && y == self.y) {
                out.push(Addr::new(x, y));
            }
            k += 1;
        }
        assert(out@ =~= self.box_peers());
        out
    }
}

} // verus!
