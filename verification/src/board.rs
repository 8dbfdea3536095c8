//! The grid, the candidate sets of its rows, columns and boxes, and the
//! list of open cells.
use vstd::prelude::*;
use crate::addr::{block_of, get_block, Addr};
use crate::domain::{all_digits, Domain};

verus! {

/// What a cell holds: nothing yet, or a digit from 0 to 8.
#[derive(Clone, Copy, Debug, PartialEq, Eq, Structural)]
pub enum Field {
    /// The cell is open.
    Empty,
    /// The cell holds this digit.
    Digit(u8),
}

/// One placement: digit `num` in cell `addr`.
#[derive(Clone, Copy, Debug, PartialEq, Eq, Structural)]
pub struct Edit {
    /// The cell.
    pub addr: Addr,
    /// The digit, from 0 to 8.
    pub num: u8,
}

/// The mathematical content of a board.
pub struct BoardView {
    /// The 81 cells, row by row.
    pub cells: Seq<Field>,
    /// For each row, the digits still free in it.
    pub rows: Seq<Set<int>>,
    /// For each column, the digits still free in it.
    pub cols: Seq<Set<int>>,
    /// For each box, the digits still free in it.
    pub boxes: Seq<Set<int>>,
    /// The open cells, in the order in which they are scanned.
    pub open: Seq<Addr>,
}

impl BoardView {
    /// The parts have the right sizes and hold digits and grid cells only.
    pub open spec fn shape(self) -> bool {
        &&& self.cells.len() == 81
        &&& self.rows.len() == 9
        &&& self.cols.len() == 9
        &&& self.boxes.len() == 9
        &&& forall|i: int|
            0 <= i < 81 ==> (#[trigger] self.cells[i] matches Field::Digit(n) ==> n < 9)
        &&& forall|i: int| 0 <= i < 9 ==> (#[trigger] self.rows[i]).subset_of(all_digits())
        &&& forall|i: int| 0 <= i < 9 ==> (#[trigger] self.cols[i]).subset_of(all_digits())
        &&& forall|i: int| 0 <= i < 9 ==> (#[trigger] self.boxes[i]).subset_of(all_digits())
        &&& forall|i: int| 0 <= i < self.open.len() ==> (#[trigger] self.open[i]).wf()
    }

    /// The candidates of cell `a`: the digits free in its row, its column
    /// and its box at once.
    pub open spec fn candidates(self, a: Addr) -> Set<int> {
        self.rows[a.y as int].intersect(self.cols[a.x as int]).intersect(self.boxes[a.b as int])
    }

    /// The board after digit `d` is put into cell `a`.
    pub open spec fn place(self, a: Addr, d: int) -> BoardView {
        BoardView {
            cells: self.cells.update(a.index(), Field::Digit(d as u8)),
            rows: self.rows.update(a.y as int, self.rows[a.y as int].remove(d)),
            cols: self.cols.update(a.x as int, self.cols[a.x as int].remove(d)),
            boxes: self.boxes.update(a.b as int, self.boxes[a.b as int].remove(d)),
            open: self.open,
        }
    }

    /// The board after the digit of cell `a` is taken out again.
    pub open spec fn unplace(self, a: Addr) -> BoardView {
        match self.cells[a.index()] {
            Field::Digit(n) => BoardView {
                cells: self.cells.update(a.index(), Field::Empty),
                rows: self.rows.update(a.y as int, self.rows[a.y as int].insert(n as int)),
                cols: self.cols.update(a.x as int, self.cols[a.x as int].insert(n as int)),
                boxes: self.boxes.update(a.b as int, self.boxes[a.b as int].insert(n as int)),
                open: self.open,
            },
            Field::Empty => self,
        }
    }

    /// The board with another list of open cells.
    pub open spec fn with_open(self, open: Seq<Addr>) -> BoardView {
        BoardView { open, ..self }
    }

    /// The board after `a` is appended to the open cells.
    pub open spec fn push_open(self, a: Addr) -> BoardView {
        self.with_open(self.open.push(a))
    }

    /// The board after the open cell at position `i` is replaced by the
    /// last one, which shortens the list by one.
    pub open spec fn remove_open(self, i: int) -> BoardView {
        self.with_open(self.open.update(i, self.open.last()).drop_last())
    }

    /// The board after the open cell at position `i` is taken out and the
    /// later ones move up.
    pub open spec fn remove_open_ordered(self, i: int) -> BoardView {
        self.with_open(self.open.remove(i))
    }

    /// The board after cell `a` is taken out of the open list, where it
    /// stands first; the later ones move up.
    pub open spec fn close(self, a: Addr) -> BoardView {
        self.with_open(self.open.remove_value(a))
    }
}

/// A Sudoku board whose candidate sets are kept in the representation `D`.
pub struct Board<D: Domain> {
    /// The open cells.
    pub open: Vec<Addr>,
    /// The 81 cells, row by row.
    pub fields: Vec<Field>,
    /// The digits free in each row.
    pub h_free: Vec<D>,
    /// The digits free in each column.
    pub v_free: Vec<D>,
    /// The digits free in each box.
    pub b_free: Vec<D>,
}

impl<D: Domain> View for Board<D> {
    type V = BoardView;

    open spec fn view(&self) -> BoardView {
        BoardView {
            cells: self.fields@,
            rows: Seq::new(self.h_free@.len(), |i: int| self.h_free@[i].digits()),
            cols: Seq::new(self.v_free@.len(), |i: int| self.v_free@[i].digits()),
            boxes: Seq::new(self.b_free@.len(), |i: int| self.b_free@[i].digits()),
            open: self.open@,
        }
    }
}

impl<D: Domain> Board<D> {
    /// The representation is in order: 81 cells that hold digits, nine
    /// well-formed candidate sets each for the rows, the columns and the
    /// boxes, open cells on the grid.
    pub open spec fn wf(&self) -> bool {
        &&& self.fields@.len() == 81
        &&& self.h_free@.len() == 9
        &&& self.v_free@.len() == 9
        &&& self.b_free@.len() == 9
        &&& forall|i: int| 0 <= i < 9 ==> (#[trigger] self.h_free@[i]).wf()
        &&& forall|i: int| 0 <= i < 9 ==> (#[trigger] self.v_free@[i]).wf()
        &&& forall|i: int| 0 <= i < 9 ==> (#[trigger] self.b_free@[i]).wf()
        &&& forall|i: int|
            0 <= i < 81 ==> (#[trigger] self.fields@[i] matches Field::Digit(n) ==> n < 9)
        &&& forall|i: int| 0 <= i < self.open@.len() ==> (#[trigger] self.open@[i]).wf()
    }

    /// The view of a well-formed board has the right shape.
    pub proof fn lemma_shape(&self)
        requires
            self.wf(),
        ensures
            self@.shape(),
    {
        assert forall|i: int| 0 <= i < 9 implies (#[trigger] self@.rows[i]).subset_of(
            all_digits(),
        ) by {
            self.h_free@[i].lemma_wf();
        }
        assert forall|i: int| 0 <= i < 9 implies (#[trigger] self@.cols[i]).subset_of(
            all_digits(),
        ) by {
            self.v_free@[i].lemma_wf();
        }
        assert forall|i: int| 0 <= i < 9 implies (#[trigger] self@.boxes[i]).subset_of(
            all_digits(),
        ) by {
            self.b_free@[i].lemma_wf();
        }
    }

    /// A board with the same cells, candidate sets and open cells.
    pub fn duplicate(&self) -> (r: Self)
        requires
            self.wf(),
        ensures
            r.wf(),
            r@ == self@,
    {
        let mut open: Vec<Addr> = Vec::new();
        let mut k: usize = 0;
        while k < self.open.len()
            invariant
                k <= self.open@.len(),
                open@ == self.open@.take(k as int),
            decreases self.open@.len() - k,
        {
            open.push(self.open[k]);
            assert(self.open@.take(k as int + 1) =~= self.open@.take(k as int).push(
                self.open@[k as int],
            ));
            k += 1;
        }
        assert(self.open@.take(self.open@.len() as int) =~= self.open@);
        let mut fields: Vec<Field> = Vec::new();
        let mut h_free: Vec<D> = Vec::new();
        let mut v_free: Vec<D> = Vec::new();
        let mut b_free: Vec<D> = Vec::new();
        let mut i: usize = 0;
        while i < 81
            invariant
                i <= 81,
                self.wf(),
                fields@ == self.fields@.take(i as int),
            decreases 81 - i,
        {
            fields.push(self.fields[i]);
            assert(self.fields@.take(i as int + 1) =~= self.fields@.take(i as int).push(
                self.fields@[i as int],
            ));
            i += 1;
        }
        assert(self.fields@.take(81) =~= self.fields@);
        let mut u: usize = 0;
        while u < 9
            invariant
                u <= 9,
                self.wf(),
                h_free@.len() == u,
                v_free@.len() == u,
                b_free@.len() == u,
                forall|j: int|
                    0 <= j < u ==> (#[trigger] h_free@[j]).wf() && h_free@[j].digits()
                        == self.h_free@[j].digits(),
                forall|j: int|
                    0 <= j < u ==> (#[trigger] v_free@[j]).wf() && v_free@[j].digits()
                        == self.v_free@[j].digits(),
                forall|j: int|
                    0 <= j < u ==> (#[trigger] b_free@[j]).wf() && b_free@[j].digits()
                        == self.b_free@[j].digits(),
            decreases 9 - u,
        {
            h_free.push(self.h_free[u].dup());
            v_free.push(self.v_free[u].dup());
            b_free.push(self.b_free[u].dup());
            u += 1;
        }
        let r = Board { open, fields, h_free, v_free, b_free };
        proof {
            assert(r@.rows =~= self@.rows);
            assert(r@.cols =~= self@.cols);
            assert(r@.boxes =~= self@.boxes);
        }
        r
    }

    /// The candidate set of the row of `addr`.
    pub fn get_h(&self, addr: Addr) -> (r: &D)
        requires
            self.wf(),
            addr.wf(),
        ensures
            r.wf(),
            r.digits() == self@.rows[addr.y as int],
    {
        &self.h_free[addr.y]
    }

    /// The candidate set of the column of `addr`.
    pub fn get_v(&self, addr: Addr) -> (r: &D)
        requires
            self.wf(),
            addr.wf(),
        ensures
            r.wf(),
            r.digits() == self@.cols[addr.x as int],
    {
        &self.v_free[addr.x]
    }

    /// The candidate set of the box of `addr`.
    pub fn get_b(&self, addr: Addr) -> (r: &D)
        requires
            self.wf(),
            addr.wf(),
        ensures
            r.wf(),
            r.digits() == self@.boxes[addr.b as int],
    {
        &self.b_free[addr.b]
    }

    /// The candidate set of row `y`, to be changed in place.
    pub fn geth(&mut self, y: usize) -> (r: &mut D)
        requires
            y < old(self).h_free@.len(),
        ensures
            *r == old(self).h_free@[y as int],
            final(self).h_free@ == old(self).h_free@.update(y as int, *final(r)),
            final(self).v_free == old(self).v_free,
            final(self).b_free == old(self).b_free,
            final(self).fields == old(self).fields,
            final(self).open == old(self).open,
    {
        &mut self.h_free[y]
    }

    /// The candidate set of column `x`, to be changed in place.
    pub fn getv(&mut self, x: usize) -> (r: &mut D)
        requires
            x < old(self).v_free@.len(),
        ensures
            *r == old(self).v_free@[x as int],
            final(self).v_free@ == old(self).v_free@.update(x as int, *final(r)),
            final(self).h_free == old(self).h_free,
            final(self).b_free == old(self).b_free,
            final(self).fields == old(self).fields,
            final(self).open == old(self).open,
    {
        &mut self.v_free[x]
    }

    /// The candidate set of the box that holds column `x`, row `y`, to be
    /// changed in place.
    pub fn getb(&mut self, x: usize, y: usize) -> (r: &mut D)
        requires
            x < 9,
            y < 9,
            old(self).b_free@.len() == 9,
        ensures
            *r == old(self).b_free@[block_of(x as int, y as int)],
            final(self).b_free@ == old(self).b_free@.update(
                block_of(x as int, y as int),
                *final(r),
            ),
            final(self).h_free == old(self).h_free,
            final(self).v_free == old(self).v_free,
            final(self).fields == old(self).fields,
            final(self).open == old(self).open,
    {
        &mut self.b_free[get_block(x, y)]
    }

    /// The candidate set of the row of `addr`, to be changed in place.
    pub fn get_h_mut(&mut self, addr: Addr) -> (r: &mut D)
        requires
            old(self).wf(),
            addr.wf(),
        ensures
            *r == old(self).h_free@[addr.y as int],
            final(self).h_free@ == old(self).h_free@.update(addr.y as int, *final(r)),
            final(self).v_free == old(self).v_free,
            final(self).b_free == old(self).b_free,
            final(self).fields == old(self).fields,
            final(self).open == old(self).open,
    {
        self.geth(addr.y)
    }

    /// The candidate set of the column of `addr`, to be changed in place.
    pub fn get_v_mut(&mut self, addr: Addr) -> (r: &mut D)
        requires
            old(self).wf(),
            addr.wf(),
        ensures
            *r == old(self).v_free@[addr.x as int],
            final(self).v_free@ == old(self).v_free@.update(addr.x as int, *final(r)),
            final(self).h_free == old(self).h_free,
            final(self).b_free == old(self).b_free,
            final(self).fields == old(self).fields,
            final(self).open == old(self).open,
    {
        self.getv(addr.x)
    }

    /// The candidate set of the box of `addr`, to be changed in place.
    pub fn get_b_mut(&mut self, addr: Addr) -> (r: &mut D)
        requires
            old(self).wf(),
            addr.wf(),
        ensures
            *r == old(self).b_free@[addr.b as int],
            final(self).b_free@ == old(self).b_free@.update(addr.b as int, *final(r)),
            final(self).h_free == old(self).h_free,
            final(self).v_free == old(self).v_free,
            final(self).fields == old(self).fields,
            final(self).open == old(self).open,
    {
        &mut self.b_free[addr.b]
    }

    /// What the cell at column `x`, row `y` holds.
    pub fn get_field(&self, x: usize, y: usize) -> (f: Field)
        requires
            self.wf(),
            x < 9,
            y < 9,
        ensures
            f == self@.cells[Addr::at(x as int, y as int).index()],
    {
        self.fields[y * 9 + x]
    }

    /// Puts digit `cur_num` into the empty cell `cur_field` and removes it
    /// from the candidates of the cell's row, column and box.
    pub fn set_field(&mut self, cur_field: Addr, cur_num: usize)
        requires
            old(self).wf(),
            cur_field.wf(),
            cur_num < 9,
            old(self)@.cells[cur_field.index()] == Field::Empty,
        ensures
            final(self).wf(),
            final(self)@ == old(self)@.place(cur_field, cur_num as int),
    {
        self.get_h_mut(cur_field).clear(cur_num);
        self.get_v_mut(cur_field).clear(cur_num);
        self.get_b_mut(cur_field).clear(cur_num);
        let i: usize = cur_field.offset();
        self.fields[i] = Field::Digit(cur_num as u8);
        proof {
            let v = old(self)@.place(cur_field, cur_num as int);
            assert(self@.rows =~= v.rows);
            assert(self@.cols =~= v.cols);
            assert(self@.boxes =~= v.boxes);
            assert(self@.cells =~= v.cells);
        }
    }

    /// Takes the digit out of cell `cur_field` and returns it to the
    /// candidates of the cell's row, column and box.
    pub fn clear_field(&mut self, cur_field: Addr)
        requires
            old(self).wf(),
            cur_field.wf(),
            old(self)@.cells[cur_field.index()] != Field::Empty,
        ensures
            final(self).wf(),
            final(self)@ == old(self)@.unplace(cur_field),
    {
        let i: usize = cur_field.offset();
        match self.fields[i] {
            Field::Digit(n) => {
                let cur_num: usize = n as usize;
                self.get_h_mut(cur_field).set(cur_num);
                self.get_v_mut(cur_field).set(cur_num);
                self.get_b_mut(cur_field).set(cur_num);
                self.fields[i] = Field::Empty;
            },
            Field::Empty => {},
        }
        proof {
            let v = old(self)@.unplace(cur_field);
            assert(self@.rows =~= v.rows);
            assert(self@.cols =~= v.cols);
            assert(self@.boxes =~= v.boxes);
            assert(self@.cells =~= v.cells);
        }
    }

    /// Places digit `num` in the empty cell `addr` and returns the record
    /// of the placement.
    pub fn manipulate(&mut self, addr: Addr, num: usize) -> (edit: Edit)
        requires
            old(self).wf(),
            addr.wf(),
            num < 9,
            old(self)@.cells[addr.index()] == Field::Empty,
        ensures
            final(self).wf(),
            final(self)@ == old(self)@.place(addr, num as int),
            edit == (Edit { addr, num: num as u8 }),
    {
        self.set_field(addr, num);
        Edit { addr, num: num as u8 }
    }

    /// Places the digit of `edit` in its cell, which must be empty.
    pub fn apply(&mut self, edit: &Edit)
        requires
            old(self).wf(),
            edit.addr.wf(),
            edit.num < 9,
            old(self)@.cells[edit.addr.index()] == Field::Empty,
        ensures
            final(self).wf(),
            final(self)@ == old(self)@.place(edit.addr, edit.num as int),
    {
        self.set_field(edit.addr, edit.num as usize);
    }

    /// Undoes `edit`: its cell, which must hold its digit, becomes empty
    /// and the digit returns to the three candidate sets.
    pub fn rollback(&mut self, edit: Edit)
        requires
            old(self).wf(),
            edit.addr.wf(),
            old(self)@.cells[edit.addr.index()] == Field::Digit(edit.num),
        ensures
            final(self).wf(),
            final(self)@ == old(self)@.unplace(edit.addr),
    {
        self.clear_field(edit.addr);
    }

    /// The candidates of cell `addr`: what its row, its column and its box
    /// all still admit.
    pub fn candidates_for(&self, addr: Addr) -> (r: D)
        requires
            self.wf(),
            addr.wf(),
        ensures
            r.wf(),
            r.digits() == self@.candidates(addr),
    {
        let hv: D = self.get_h(addr).meet(self.get_v(addr));
        hv.meet(self.get_b(addr))
    }

    /// The candidates of the open cell at position `tmp_open_field` of the
    /// open list.
    pub fn candidates_for_tmp_field(&self, tmp_open_field: usize) -> (r: D)
        requires
            self.wf(),
            tmp_open_field < self.open@.len(),
        ensures
            r.wf(),
            r.digits() == self@.candidates(self@.open[tmp_open_field as int]),
    {
        self.candidates_for(self.open[tmp_open_field])
    }

    /// Appends `field` to the open cells.
    pub fn push_open(&mut self, field: Addr)
        requires
            old(self).wf(),
            field.wf(),
        ensures
            final(self).wf(),
            final(self)@ == old(self)@.push_open(field),
    {
        self.open.push(field);
        proof {
            let v = old(self)@.push_open(field);
            assert(self@.rows =~= v.rows);
            assert(self@.cols =~= v.cols);
            assert(self@.boxes =~= v.boxes);
        }
    }

    /// Takes the open cell at position `i` out of the list; the last open
    /// cell takes its place.
    pub fn remove_open(&mut self, i: usize) -> (field: Addr)
        requires
            old(self).wf(),
            i < old(self)@.open.len(),
        ensures
            final(self).wf(),
            final(self)@ == old(self)@.remove_open(i as int),
            field == old(self)@.open[i as int],
    {
        let field: Addr = self.open.swap_remove(i);
        proof {
            let v = old(self)@.remove_open(i as int);
            assert(self@.open =~= v.open);
            assert(self@.rows =~= v.rows);
            assert(self@.cols =~= v.cols);
            assert(self@.boxes =~= v.boxes);
        }
        field
    }

    /// Takes the open cell at position `i` out of the list; the later ones
    /// keep their order.
    pub fn remove_open_ordered(&mut self, i: usize) -> (field: Addr)
        requires
            old(self).wf(),
            i < old(self)@.open.len(),
        ensures
            final(self).wf(),
            final(self)@ == old(self)@.remove_open_ordered(i as int),
            field == old(self)@.open[i as int],
    {
        let field: Addr = self.open.remove(i);
        proof {
            let v = old(self)@.remove_open_ordered(i as int);
            assert(self@.rows =~= v.rows);
            assert(self@.cols =~= v.cols);
            assert(self@.boxes =~= v.boxes);
        }
        field
    }
}

impl BoardView {
    /// The board before anything is placed: every cell empty, every digit
    /// free everywhere, all 81 cells open, row by row.
    pub open spec fn initial() -> BoardView {
        BoardView {
            cells: Seq::new(81, |i: int| Field::Empty),
            rows: Seq::new(9, |i: int| all_digits()),
            cols: Seq::new(9, |i: int| all_digits()),
            boxes: Seq::new(9, |i: int| all_digits()),
            open: Seq::new(81, |i: int| Addr::at(i % 9, i / 9)),
        }
    }
}

/// Nine candidate sets that hold every digit.
fn full_domains<D: Domain>() -> (r: Vec<D>)
    ensures
        r@.len() == 9,
        forall|i: int| 0 <= i < 9 ==> (#[trigger] r@[i]).wf() && r@[i].digits() == all_digits(),
{
    let mut out: Vec<D> = Vec::new();
    let mut i: usize = 0;
    while i < 9
        invariant
            i <= 9,
            out@.len() == i,
            forall|k: int|
                0 <= k < i ==> (#[trigger] out@[k]).wf() && out@[k].digits() == all_digits(),
        decreases 9 - i,
    {
        out.push(D::full());
        i += 1;
    }
    out
}

impl<D: Domain> Default for Board<D> {
    /// The board before anything is placed; it is in order.
    fn default() -> (r: Self)
        ensures
            r.wf(),
            r@ == BoardView::initial(),
            r@.consistent(),
    {
        proof {
            crate::rules::lemma_initial_consistent();
        }
        let mut open: Vec<Addr> = Vec::new();
        let mut fields: Vec<Field> = Vec::new();
        let mut y: usize = 0;
        while y < 9
            invariant
                y <= 9,
                open@.len() == y * 9,
                fields@.len() == y * 9,
                forall|i: int| 0 <= i < y * 9 ==> #[trigger] open@[i] == Addr::at(i % 9, i / 9),
                forall|i: int| 0 <= i < y * 9 ==> #[trigger] fields@[i] == Field::Empty,
            decreases 9 - y,
        {
            let mut x: usize = 0;
            while x < 9
                invariant
                    y < 9,
                    x <= 9,
                    open@.len() == y * 9 + x,
                    fields@.len() == y * 9 + x,
                    forall|i: int|
                        0 <= i < y * 9 + x ==> #[trigger] open@[i] == Addr::at(i % 9, i / 9),
                    forall|i: int| 0 <= i < y * 9 + x ==> #[trigger] fields@[i] == Field::Empty,
                decreases 9 - x,
            {
                open.push(Addr::new(x, y));
                fields.push(Field::Empty);
                x += 1;
            }
            y += 1;
        }
        let r = Board {
            open,
            fields,
            h_free: full_domains(),
            v_free: full_domains(),
            b_free: full_domains(),
        };
        proof {
            let v = BoardView::initial();
            assert(r@.cells =~= v.cells);
            assert(r@.open =~= v.open);
            assert(r@.rows =~= v.rows);
            assert(r@.cols =~= v.cols);
            assert(r@.boxes =~= v.boxes);
            assert forall|i: int| 0 <= i < r.open@.len() implies (#[trigger] r.open@[i]).wf() by {
                assert(r.open@[i] == Addr::at(i % 9, i / 9));
            }
        }
        r
    }
}

} // verus!
