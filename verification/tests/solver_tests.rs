use sudoku_solver::{CannotSolve, Digit, Grid, PossibleValues, Sudoku, SudokuPossibilities, SudokuSolution};

fn blank_board() -> SudokuPossibilities {
    let blank: Sudoku = Grid::splat(None);
    SudokuPossibilities::from_sudoku(&blank)
}

fn narrow(sp: &mut SudokuPossibilities, row: usize, col: usize, d: u8) {
    let cell = sp.get(row, col).intersect(PossibleValues::from_digit(Digit::unchecked(d)));
    sp.set(row, col, cell);
}

const FULL: [[u8; 9]; 9] = [
    [5, 3, 4, 6, 7, 8, 9, 1, 2],
    [6, 7, 2, 1, 9, 5, 3, 4, 8],
    [1, 9, 8, 3, 4, 2, 5, 6, 7],
    [8, 5, 9, 7, 6, 1, 4, 2, 3],
    [4, 2, 6, 8, 5, 3, 7, 9, 1],
    [7, 1, 3, 9, 2, 4, 8, 5, 6],
    [9, 6, 1, 5, 3, 7, 2, 8, 4],
    [2, 8, 7, 4, 1, 9, 6, 3, 5],
    [3, 4, 5, 2, 8, 6, 1, 7, 9],
];

fn puzzle_without(blanks: &[(usize, usize)]) -> Sudoku {
    let mut s: Sudoku = Grid::splat(None);
    for r in 0..9 {
        for c in 0..9 {
            if !blanks.contains(&(r, c)) {
                s.set(r, c, Some(Digit::unchecked(FULL[r][c])));
            }
        }
    }
    s
}

fn digit_at(sol: &SudokuSolution, r: usize, c: usize) -> u8 {
    sol.get(r, c).index() + 1
}

fn assert_valid_solution(sol: &SudokuSolution) {
    for i in 0..9 {
        let mut row_seen = [false; 10];
        let mut col_seen = [false; 10];
        let mut blk_seen = [false; 10];
        for j in 0..9 {
            let rv = digit_at(sol, i, j) as usize;
            assert!((1..=9).contains(&rv) && !row_seen[rv]);
            row_seen[rv] = true;
            let cv = digit_at(sol, j, i) as usize;
            assert!(!col_seen[cv]);
            col_seen[cv] = true;
            let bv = digit_at(sol, (i / 3) * 3 + j / 3, (i % 3) * 3 + j % 3) as usize;
            assert!(!blk_seen[bv]);
            blk_seen[bv] = true;
        }
    }
}

#[test]
fn lib_possibilities_broken_simple() {
    let mut sp = blank_board();
    assert!(!sp.is_broken());

    narrow(&mut sp, 0, 0, 2);
    assert!(!sp.is_broken());
    narrow(&mut sp, 0, 1, 3);
    assert!(!sp.is_broken());
    narrow(&mut sp, 0, 2, 2);
    assert!(sp.is_broken());
}

#[test]
fn lib_possibilities_broken_cell() {
    let mut sp = blank_board();
    assert!(!sp.is_broken());

    narrow(&mut sp, 4, 4, 2);
    narrow(&mut sp, 5, 5, 2);
    assert!(sp.is_broken());
}

#[test]
fn solver_possibilities_broken_simple() {
    let mut sp = blank_board();
    assert!(!sp.is_broken());

    narrow(&mut sp, 0, 0, 2);
    assert!(!sp.is_broken());
    narrow(&mut sp, 0, 1, 3);
    assert!(!sp.is_broken());
    narrow(&mut sp, 0, 2, 2);
    assert!(sp.is_broken());
}

#[test]
fn solver_possibilities_broken_cell() {
    let mut sp = blank_board();
    assert!(!sp.is_broken());

    narrow(&mut sp, 4, 4, 2);
    narrow(&mut sp, 5, 5, 2);
    assert!(sp.is_broken());
}

#[test]
fn broken_in_column_and_distinct_ok() {
    let mut sp = blank_board();
    narrow(&mut sp, 1, 3, 7);
    narrow(&mut sp, 6, 3, 7);
    assert!(sp.is_broken());

    let mut sp2 = blank_board();
    narrow(&mut sp2, 0, 0, 1);
    narrow(&mut sp2, 0, 1, 2);
    narrow(&mut sp2, 1, 0, 3);
    narrow(&mut sp2, 5, 5, 1);
    assert!(!sp2.is_broken());
}

#[test]
fn infer_reaches_a_fixed_point() {
    // a puzzle with the main diagonal blanked: one sweep pins every blank
    let blanks: Vec<(usize, usize)> = (0..9).map(|i| (i, i)).collect();
    let puzzle = puzzle_without(&blanks);
    let mut sp = SudokuPossibilities::from_sudoku(&puzzle);
    assert!(sp.infer().is_ok());
    let snapshot = sp;
    // a second run of infer on its own output changes nothing
    assert!(sp.infer().is_ok());
    assert!(sp.same(&snapshot));
    // and so does a single further sweep
    assert!(sp.infer_step().is_ok());
    assert!(sp.same(&snapshot));
}

#[test]
fn propagation_alone_solves_easy_puzzle() {
    let blanks: Vec<(usize, usize)> = (0..9).map(|i| (i, i)).collect();
    let puzzle = puzzle_without(&blanks);
    let mut sp = SudokuPossibilities::from_sudoku(&puzzle);
    assert!(sp.infer().is_ok());
    let sol = sp.solved().expect("propagation should pin every cell");
    for r in 0..9 {
        for c in 0..9 {
            assert_eq!(digit_at(&sol, r, c), FULL[r][c]);
        }
    }
}

#[test]
fn solve_unique_puzzle_returns_the_solution() {
    let blanks: Vec<(usize, usize)> = (0..9).map(|i| (i, i)).collect();
    let puzzle = puzzle_without(&blanks);
    let sol = puzzle.solve().expect("puzzle is solvable");
    for r in 0..9 {
        for c in 0..9 {
            assert_eq!(digit_at(&sol, r, c), FULL[r][c]);
        }
    }
    assert_valid_solution(&sol);
}

#[test]
fn solve_contradictory_row_is_unsolvable() {
    // two equal digits placed in the same row
    let mut s: Sudoku = Grid::splat(None);
    s.set(0, 0, Some(Digit::unchecked(2)));
    s.set(0, 5, Some(Digit::unchecked(2)));
    assert!(s.solve().is_none());

    let sp = SudokuPossibilities::from_sudoku(&s);
    assert!(sp.solve().is_err());
}

#[test]
fn solve_hard_puzzle_needs_a_branch() {
    // four blanks forming a swappable rectangle: propagation stalls with two
    // candidates in each, and one speculative branch finishes the board
    let blanks = [(3usize, 5usize), (3, 8), (4, 5), (4, 8)];
    let puzzle = puzzle_without(&blanks);

    let mut sp = SudokuPossibilities::from_sudoku(&puzzle);
    assert!(sp.infer().is_ok());
    assert!(sp.solved().is_none(), "propagation alone must not finish this one");

    let sol = puzzle.solve().expect("still solvable by branching");
    assert_valid_solution(&sol);
    for r in 0..9 {
        for c in 0..9 {
            if !blanks.contains(&(r, c)) {
                assert_eq!(digit_at(&sol, r, c), FULL[r][c]);
            }
        }
    }
}

#[test]
fn search_node_failure_kinds() {
    // a broken board fails a node with the broken kind
    let mut s: Sudoku = Grid::splat(None);
    s.set(0, 0, Some(Digit::unchecked(2)));
    s.set(0, 5, Some(Digit::unchecked(2)));
    let mut sp = SudokuPossibilities::from_sudoku(&s);
    match sp.recursive_hypothetical(1, 1) {
        Err(CannotSolve::Broken) => {}
        _ => panic!("expected the broken failure"),
    }

    // an empty board at depth budget 1 runs out of depth
    let mut sp2 = blank_board();
    match sp2.recursive_hypothetical(1, 1) {
        Err(CannotSolve::DepthLimit(g)) => {
            assert!(!g.is_broken());
        }
        _ => panic!("expected the depth-limit failure"),
    }
}

#[test]
fn round_trip_determined_grid() {
    let puzzle = puzzle_without(&[]);
    let sp = SudokuPossibilities::from_sudoku(&puzzle);
    assert!(!sp.is_broken());
    let sol = sp.solved().expect("a fully given grid is already determined");
    for r in 0..9 {
        for c in 0..9 {
            assert_eq!(digit_at(&sol, r, c), FULL[r][c]);
        }
    }
}

#[test]
fn grid_container_ops() {
    let g: Grid<u8> = Grid::splat(3);
    let h = g.map(|x: u8| x); // identity copy
    assert_eq!(h.get(4, 7), 3);
    let all = g.iter();
    assert_eq!(all.len(), 81);
    assert!(all.iter().all(|&x| x == 3));
    let s: Grid<u8> = Grid::splat(4);
    let m = g.binop(s, |a: u8, b: u8| if a > b { a } else { b });
    assert_eq!(m.get(0, 0), 4);
    let t = g.try_map(|x: u8| if x == 3 { Some(x) } else { None });
    assert!(t.is_some());
    let u = s.try_map(|x: u8| if x == 3 { Some(x) } else { None });
    assert!(u.is_none());
}
