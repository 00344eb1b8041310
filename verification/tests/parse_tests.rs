use sudoku_solver::{Digit, Sudoku};

const EASY_TEXT: &str = "\
.34678912
6.2195348
19.342567
859.61423
4268.3791
71392.856
961537.84
2874196.5
34528617.";

#[test]
fn parse_reads_digits_and_blanks() {
    let s = Sudoku::parse(EASY_TEXT).expect("well-formed text");
    assert_eq!(s.get(0, 0), None);
    assert_eq!(s.get(0, 1), Some(Digit::unchecked(3)));
    assert_eq!(s.get(8, 7), Some(Digit::unchecked(7)));
    assert_eq!(s.get(8, 8), None);
}

#[test]
fn parse_accepts_whitespace_as_blank() {
    let dotted = Sudoku::parse("5.3\n").unwrap();
    let spaced = Sudoku::parse("5 3\n").unwrap();
    for r in 0..9 {
        for c in 0..9 {
            assert_eq!(dotted.get(r, c), spaced.get(r, c));
        }
    }
    assert_eq!(spaced.get(0, 0), Some(Digit::unchecked(5)));
    assert_eq!(spaced.get(0, 1), None);
    assert_eq!(spaced.get(0, 2), Some(Digit::unchecked(3)));
}

#[test]
fn parse_rejects_bad_input() {
    // an invalid character
    assert!(Sudoku::parse("12x").is_none());
    // zero is not a Sudoku digit
    assert!(Sudoku::parse("120").is_none());
    // a digit beyond the ninth column
    assert!(Sudoku::parse("1234567891").is_none());
    // a digit beyond the ninth row
    assert!(Sudoku::parse("\n\n\n\n\n\n\n\n\n5").is_none());
}

#[test]
fn parse_then_solve() {
    let s = Sudoku::parse(EASY_TEXT).expect("well-formed text");
    let sol = s.solve().expect("solvable");
    // the givens survive into the solution
    assert_eq!(sol.get(0, 1), Digit::unchecked(3));
    assert_eq!(sol.get(4, 4), Digit::unchecked(5));
}
