//! The grid as text: nine lines, each cell followed by a blank, digits
//! written from 1 to 9 and empty cells as a dot.
use vstd::prelude::*;
use vstd::string::*;
use crate::board::{Board, Field};
use crate::domain::Domain;

verus! {

/// The character that stands for digit `n`.
pub open spec fn digit_char(n: u8) -> char {
    match n {
        0 => '1',
        1 => '2',
        2 => '3',
        3 => '4',
        4 => '5',
        5 => '6',
        6 => '7',
        7 => '8',
        _ => '9',
    }
}

/// The text of one cell.
pub open spec fn cell_text(f: Field) -> Seq<char> {
    match f {
        Field::Empty => seq!['.', ' '],
        Field::Digit(n) => seq![digit_char(n), ' '],
    }
}

/// The text of the first `k` cells, with a line feed after every ninth.
pub open spec fn render_upto(cells: Seq<Field>, k: int) -> Seq<char>
    decreases k,
{
    if k <= 0 {
        Seq::empty()
    } else {
        render_upto(cells, k - 1) + cell_text(cells[k - 1]) + if k % 9 == 0 {
            seq!['\n']
        } else {
            Seq::empty()
        }
    }
}

/// The text of the whole grid.
pub open spec fn render_cells(cells: Seq<Field>) -> Seq<char> {
    render_upto(cells, 81)
}

/// The text of one cell.
fn cell_str(f: Field) -> (r: &'static str)
    requires
        f matches Field::Digit(n) ==> n < 9,
    ensures
        r@ == cell_text(f),
{
    proof {
        reveal_strlit(". ");
        reveal_strlit("1 ");
        reveal_strlit("2 ");
        reveal_strlit("3 ");
        reveal_strlit("4 ");
        reveal_strlit("5 ");
        reveal_strlit("6 ");
        reveal_strlit("7 ");
        reveal_strlit("8 ");
        reveal_strlit("9 ");
    }
    let r = match f {
        Field::Empty => ". ",
        Field::Digit(0) => "1 ",
        Field::Digit(1) => "2 ",
        Field::Digit(2) => "3 ",
        Field::Digit(3) => "4 ",
        Field::Digit(4) => "5 ",
        Field::Digit(5) => "6 ",
        Field::Digit(6) => "7 ",
        Field::Digit(7) => "8 ",
        Field::Digit(_) => "9 ",
    };
    assert(r@ =~= cell_text(f));
    r
}

impl<D: Domain> Board<D> {
    /// The grid as text.
    pub fn render(&self) -> (r: String)
        requires
            self.wf(),
        ensures
            r@ == render_cells(self@.cells),
    {
        let mut out: String = String::new();
        let mut pos: usize = 0;
        while pos < 81
            invariant
                pos <= 81,
                self.wf(),
                out@ == render_upto(self@.cells, pos as int),
            decreases 81 - pos,
        {
            out.append(cell_str(self.fields[pos]));
            if pos % 9 == 8 {
                proof {
                    reveal_strlit("\n");
                }
                out.append("\n");
                assert("\n"@ =~= seq!['\n']);
            } else {
                assert(out@ + Seq::<char>::empty() =~= out@);
            }
            pos += 1;
        }
        out
    }
}

} // verus!
