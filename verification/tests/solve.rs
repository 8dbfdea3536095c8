use bit_vec::BitVec;
use sudoku_solver::addr::Addr;
use sudoku_solver::board::{Board, Edit, Field};
use sudoku_solver::bytepair::BytePair;
use sudoku_solver::domain::Domain;
use sudoku_solver::iterative;
use sudoku_solver::iterative::Stats;
use sudoku_solver::load::LoadError;
use sudoku_solver::nineset::NineSet;

const PUZZLE: &str =
    "53..7....6..195....98....6.8...6...34..8.3..17...2...6.6....28....419..5....8..79";
const SOLUTION: &str =
    "534678912672195348198342567859761423426853791713924856961537284287419635345286179";

fn digits<D: Domain>(board: &Board<D>) -> String {
    board
        .fields
        .iter()
        .map(|f| match f {
            Field::Empty => '.',
            Field::Digit(n) => char::from(b'1' + *n),
        })
        .collect()
}

fn assert_valid<D: Domain>(board: &Board<D>) {
    for u in 0..9 {
        let mut row = [false; 9];
        let mut col = [false; 9];
        let mut blk = [false; 9];
        for k in 0..9 {
            let cells = [
                (u * 9 + k, &mut row),
                (k * 9 + u, &mut col),
                (((u / 3) * 3 + k / 3) * 9 + (u % 3) * 3 + k % 3, &mut blk),
            ];
            for (i, seen) in cells {
                match board.fields[i] {
                    Field::Digit(n) => {
                        assert!(!seen[n as usize]);
                        seen[n as usize] = true;
                    }
                    Field::Empty => panic!("cell {} is empty", i),
                }
            }
        }
        assert!(row.iter().all(|b| *b));
        assert!(col.iter().all(|b| *b));
        assert!(blk.iter().all(|b| *b));
    }
}

#[test]
fn recursive_solves_known_puzzle() {
    let mut board: Board<u16> = Board::from_line(PUZZLE).unwrap();
    let path = board.solve().expect("solvable");
    assert_eq!(digits(&board), SOLUTION);
    assert_valid(&board);
    assert_eq!(path.len(), 51);
    assert!(board.open.is_empty());
}

#[test]
fn iterative_solves_known_puzzle() {
    let mut board: Board<u16> = Board::from_line(PUZZLE).unwrap();
    let path = iterative::solve(&mut board).expect("solvable");
    assert_eq!(digits(&board), SOLUTION);
    assert_valid(&board);
    assert_eq!(path.len(), 51);
}

#[test]
fn path_replayed_from_the_end_gives_the_solution() {
    let mut board: Board<u16> = Board::from_line(PUZZLE).unwrap();
    let mut path: Vec<Edit> = board.solve().unwrap();
    let mut fresh: Board<u16> = Board::from_line(PUZZLE).unwrap();
    while let Some(edit) = path.pop() {
        fresh.apply(&edit);
    }
    assert_eq!(digits(&fresh), SOLUTION);
}

#[test]
fn iterative_and_recursive_agree() {
    let lines = [
        PUZZLE,
        "4.....8.5.3..........7......2.....6.....8.4......1.......6.3.7.5..2.....1.4......",
        "52...6.........7.13...........4..8..6......5...........418.........3..2...87.....",
        ".................................................................................",
        "12345678.........9...............................................................",
    ];
    for line in lines {
        let mut a: Board<u16> = Board::from_line(line).unwrap();
        let mut b: Board<u16> = Board::from_line(line).unwrap();
        let ra = a.solve();
        let rb = iterative::solve(&mut b);
        assert_eq!(ra, rb);
        assert_eq!(a.fields, b.fields);
        assert_eq!(a.open, b.open);
        assert_eq!(a.h_free, b.h_free);
        assert_eq!(a.v_free, b.v_free);
        assert_eq!(a.b_free, b.b_free);
        if ra.is_some() {
            assert_valid(&a);
        }
    }
}

#[test]
fn unsolvable_grid_is_reported_and_restored() {
    // The clues obey the rules, but the last cell of the first row has no
    // candidate left.
    let line =
        "12345678.........9...............................................................";
    let mut board: Board<u16> = Board::from_line(line).unwrap();
    let before = digits(&board);
    let masks = (board.h_free.clone(), board.v_free.clone(), board.b_free.clone());
    let mut open_before = board.open.clone();
    assert_eq!(board.solve(), None);
    assert_eq!(digits(&board), before);
    assert_eq!((board.h_free.clone(), board.v_free.clone(), board.b_free.clone()), masks);
    let mut open_after = board.open.clone();
    open_before.sort_by_key(|a| a.y * 9 + a.x);
    open_after.sort_by_key(|a| a.y * 9 + a.x);
    assert_eq!(open_before, open_after);
    assert_eq!(iterative::solve(&mut board), None);
    assert_eq!(digits(&board), before);
}

#[test]
fn repeated_clue_in_a_row_is_rejected() {
    let line =
        "5...5............................................................................";
    let r: Result<Board<u16>, LoadError> = Board::from_line(line);
    assert_eq!(r.err(), Some(LoadError::Conflict));
}

#[test]
fn full_valid_grid_is_solved_at_once() {
    let mut board: Board<u16> = Board::from_line(SOLUTION).unwrap();
    assert!(board.open.is_empty());
    assert_eq!(board.solve(), Some(Vec::new()));
    assert_eq!(digits(&board), SOLUTION);
    assert_eq!(iterative::solve(&mut board), Some(Vec::new()));
    assert_eq!(digits(&board), SOLUTION);
}

#[test]
fn load_errors() {
    let short: Result<Board<u16>, LoadError> = Board::from_line(&PUZZLE[..80]);
    assert_eq!(short.err(), Some(LoadError::LineEndedEarly));
    let zero = PUZZLE.replacen('.', "0", 1);
    let r: Result<Board<u16>, LoadError> = Board::from_line(&zero);
    assert_eq!(r.err(), Some(LoadError::BadNum));
    let sup = PUZZLE.replacen('.', "\u{b2}", 1);
    let r: Result<Board<u16>, LoadError> = Board::from_line(&sup);
    assert_eq!(r.err(), Some(LoadError::NotADigit));
    let col = format!("5{}5{}", ".".repeat(8), ".".repeat(71));
    let r: Result<Board<u16>, LoadError> = Board::from_line(&col);
    assert_eq!(r.err(), Some(LoadError::Conflict));
    let blk = format!("5{}.5{}", ".".repeat(8), ".".repeat(70));
    let r: Result<Board<u16>, LoadError> = Board::from_line(&blk);
    assert_eq!(r.err(), Some(LoadError::Conflict));
    // The first fault in reading order decides.
    let both = format!("0{}", ".".repeat(10));
    let r: Result<Board<u16>, LoadError> = Board::from_line(&both);
    assert_eq!(r.err(), Some(LoadError::BadNum));
}

#[test]
fn load_reads_clues_and_open_cells() {
    let line = format!("{}x", PUZZLE.replace('.', " "));
    let board: Board<u16> = Board::from_line(&line).unwrap();
    assert_eq!(digits(&board), PUZZLE);
    assert_eq!(board.open.len(), 51);
    assert_eq!(board.open[0], Addr::new(2, 0));
    assert_eq!(board.open[50], Addr::new(6, 8));
    assert_eq!(board.h_free[0], 0b1_1010_1011);
    assert_eq!(board.v_free[0], 0b1_0000_0111);
    assert_eq!(board.b_free[0], 0b0_0100_1011);
}

fn solve_with<D: Domain>() {
    let mut board: Board<D> = Board::from_line(PUZZLE).unwrap();
    let path = board.solve().expect("solvable");
    assert_eq!(digits(&board), SOLUTION);
    assert_valid(&board);
    let mut other: Board<D> = Board::from_line(PUZZLE).unwrap();
    assert_eq!(iterative::solve(&mut other), Some(path.clone()));
    assert_eq!(digits(&other), SOLUTION);
    let mut reference: Board<u16> = Board::from_line(PUZZLE).unwrap();
    assert_eq!(reference.solve(), Some(path));
    for u in 0..9 {
        assert_eq!(board.h_free[u].count(), 0);
        assert_eq!(board.v_free[u].count(), 0);
        assert_eq!(board.b_free[u].count(), 0);
    }
}

#[test]
fn every_representation_finds_the_same_path() {
    solve_with::<u16>();
    solve_with::<BytePair>();
    solve_with::<BitVec>();
    solve_with::<NineSet>();
}

#[test]
fn stack_search_counts_steps_and_depth() {
    let mut board: Board<u16> = Board::from_line(SOLUTION).unwrap();
    let (path, stats) = iterative::solve_counting(&mut board).unwrap();
    assert!(path.is_empty());
    assert_eq!(stats, Stats { max_depth: 1, num_steps: 0 });

    // One open cell: it is selected once and never taken up again.
    let mut one = String::from(SOLUTION);
    one.replace_range(40..41, ".");
    let mut board: Board<u16> = Board::from_line(&one).unwrap();
    let (path, stats) = iterative::solve_counting(&mut board).unwrap();
    assert_eq!(path, vec![Edit { addr: Addr::new(4, 4), num: 4 }]);
    assert_eq!(stats, Stats { max_depth: 2, num_steps: 1 });
    assert_eq!(digits(&board), SOLUTION);

    let mut board: Board<u16> = Board::from_line(PUZZLE).unwrap();
    let (path, stats) = iterative::solve_counting(&mut board).unwrap();
    assert_eq!(path.len(), 51);
    assert_eq!(stats.max_depth, 52);
    assert!(stats.num_steps >= 51);

    let line =
        "12345678.........9...............................................................";
    let mut board: Board<u16> = Board::from_line(line).unwrap();
    assert_eq!(iterative::solve_counting(&mut board), None);
}

#[test]
fn search_picks_the_cell_with_fewest_candidates_first() {
    // Rows 0 and 1 leave one candidate each for the cells (8, 0) and
    // (8, 1); the scan stops at the first of them.
    let line =
        "12345678.45678912................................................................";
    let mut board: Board<u16> = Board::from_line(line).unwrap();
    let path = board.solve().unwrap();
    assert_eq!(path.len(), 65);
    assert_eq!(path[64], Edit { addr: Addr::new(8, 0), num: 8 });
    assert_eq!(path[63], Edit { addr: Addr::new(8, 1), num: 2 });
    assert_valid(&board);
}

#[test]
fn reading_order_search_solves_known_puzzle() {
    let mut board: Board<u16> = Board::from_line(PUZZLE).unwrap();
    let path = board.solve_by_scan().expect("solvable");
    assert_eq!(digits(&board), SOLUTION);
    assert_eq!(path.len(), 51);
    // The first empty cell in reading order is filled first, the last one
    // last; the path lists the last placement first.
    assert_eq!(path[50], Edit { addr: Addr::new(2, 0), num: 3 });
    assert_eq!(path[0], Edit { addr: Addr::new(6, 8), num: 0 });
    assert!(board.open.is_empty());
    assert_eq!(board.first_empty(), None);

    let line =
        "12345678.........9...............................................................";
    let mut board: Board<u16> = Board::from_line(line).unwrap();
    let before = digits(&board);
    assert_eq!(board.first_empty(), Some(8));
    assert_eq!(board.solve_by_scan(), None);
    assert_eq!(digits(&board), before);
    assert_eq!(board.open.len(), 72);
    assert_eq!(board.h_free[0], 0b1_0000_0000);
}

fn brute_force(cells: &mut Vec<Option<u8>>, found: &mut Vec<String>) {
    let pos = match cells.iter().position(|c| c.is_none()) {
        Some(pos) => pos,
        None => {
            found.push(cells.iter().map(|c| char::from(b'1' + c.unwrap())).collect());
            return;
        }
    };
    let (x, y) = (pos % 9, pos / 9);
    for d in 0..9u8 {
        let clash = (0..81).any(|j| {
            let (jx, jy) = (j % 9, j / 9);
            let shared = jx == x || jy == y || (jx / 3 == x / 3 && jy / 3 == y / 3);
            shared && cells[j] == Some(d)
        });
        if !clash {
            cells[pos] = Some(d);
            brute_force(cells, found);
            cells[pos] = None;
        }
    }
}

#[test]
fn all_solutions_are_found() {
    // The solved grid without its digits 1, 2 and 3.
    let line: String = SOLUTION
        .chars()
        .map(|c| if c == '1' || c == '2' || c == '3' { '.' } else { c })
        .collect();
    let mut cells: Vec<Option<u8>> = line
        .chars()
        .map(|c| c.to_digit(10).map(|d| d as u8 - 1))
        .collect();
    let mut expected = Vec::new();
    brute_force(&mut cells, &mut expected);
    assert!(expected.len() > 1);
    assert!(expected.contains(&String::from(SOLUTION)));

    let mut board: Board<u16> = Board::from_line(&line).unwrap();
    let before = digits(&board);
    let masks = (board.h_free.clone(), board.v_free.clone(), board.b_free.clone());
    let paths = board.solve_all().expect("solvable");
    assert_eq!(digits(&board), before);
    assert_eq!((board.h_free.clone(), board.v_free.clone(), board.b_free.clone()), masks);
    assert_eq!(board.open.len(), 27);

    let mut found = Vec::new();
    for path in &paths {
        assert_eq!(path.len(), 27);
        let mut fresh: Board<u16> = Board::from_line(&line).unwrap();
        let mut path = path.clone();
        while let Some(edit) = path.pop() {
            fresh.apply(&edit);
        }
        assert_valid(&fresh);
        found.push(digits(&fresh));
    }
    let mut sorted_found = found.clone();
    sorted_found.sort();
    sorted_found.dedup();
    assert_eq!(sorted_found.len(), found.len());
    expected.sort();
    assert_eq!(sorted_found, expected);

    // The search for one solution returns the first of them all.
    let mut single: Board<u16> = Board::from_line(&line).unwrap();
    assert_eq!(single.solve().as_ref(), Some(&paths[0]));
    assert_eq!(digits(&single), found[0]);
}

#[test]
fn all_solutions_of_special_grids() {
    let mut full: Board<u16> = Board::from_line(SOLUTION).unwrap();
    assert_eq!(full.solve_all(), Some(vec![Vec::new()]));
    let line =
        "12345678.........9...............................................................";
    let mut dead: Board<u16> = Board::from_line(line).unwrap();
    assert_eq!(dead.solve_all(), None);
    assert_eq!(dead.open.len(), 72);
    let mut known: Board<u16> = Board::from_line(PUZZLE).unwrap();
    let paths = known.solve_all().unwrap();
    assert_eq!(paths.len(), 1);
    let mut single: Board<u16> = Board::from_line(PUZZLE).unwrap();
    assert_eq!(single.solve(), Some(paths[0].clone()));
}

#[test]
fn init_replaces_the_board_or_leaves_it() {
    let mut board: Board<u16> = Board::default();
    assert_eq!(board.init(PUZZLE), Ok(()));
    assert_eq!(digits(&board), PUZZLE);
    assert_eq!(board.open.len(), 51);
    assert_eq!(board.init("123"), Err(LoadError::LineEndedEarly));
    assert_eq!(digits(&board), PUZZLE);
    assert_eq!(board.init(SOLUTION), Ok(()));
    assert_eq!(digits(&board), SOLUTION);
    assert!(board.open.is_empty());
}

#[test]
fn unplacing_the_clues_in_reverse_fills_every_mask() {
    let mut board: Board<u16> = Board::from_line(PUZZLE).unwrap();
    let clues: Vec<Edit> = PUZZLE
        .chars()
        .enumerate()
        .filter_map(|(i, c)| {
            c.to_digit(10).map(|d| Edit { addr: Addr::new(i % 9, i / 9), num: d as u8 - 1 })
        })
        .collect();
    assert_eq!(clues.len(), 30);
    for edit in clues.into_iter().rev() {
        board.rollback(edit);
    }
    assert_eq!(board.h_free, vec![0x1ff; 9]);
    assert_eq!(board.v_free, vec![0x1ff; 9]);
    assert_eq!(board.b_free, vec![0x1ff; 9]);
    assert_eq!(board.fields, vec![Field::Empty; 81]);
}
