use sudoku::puzzle::SudokuPuzzle;

const EXAMPLE: &str = "410036000\n007000850\n600000000\n090000200\n006070008\n000000091\n002014000\n000003000\n740008509\n";

fn parse(text: &str) -> SudokuPuzzle {
    SudokuPuzzle::from_string(text).unwrap()
}

fn keeps_givens(puzzle: &SudokuPuzzle, solution: &SudokuPuzzle) -> bool {
    for row in 0..9 {
        for col in 0..9 {
            if let Some(v) = puzzle.get(row, col) {
                if solution.get(row, col) != Some(v) {
                    return false;
                }
            }
        }
    }
    true
}

fn each_digit_once_everywhere(p: &SudokuPuzzle) -> bool {
    for g in 0..9 {
        let mut row = [0u8; 10];
        let mut col = [0u8; 10];
        let mut sqr = [0u8; 10];
        for j in 0..9 {
            match (p.get(g, j), p.get(j, g), p.get(g / 3 * 3 + j / 3, g % 3 * 3 + j % 3)) {
                (Some(a), Some(b), Some(c)) => {
                    row[a as usize] += 1;
                    col[b as usize] += 1;
                    sqr[c as usize] += 1;
                }
                _ => return false,
            }
        }
        for v in 1..=9 {
            if row[v] != 1 || col[v] != 1 || sqr[v] != 1 {
                return false;
            }
        }
    }
    true
}

fn same_cells(a: &SudokuPuzzle, b: &SudokuPuzzle) -> bool {
    (0..9).all(|r| (0..9).all(|c| a.get(r, c) == b.get(r, c)))
}

#[test]
fn parses_rows_of_digits() {
    let p = parse(EXAMPLE);
    assert_eq!(Some(4), p.get(0, 0));
    assert_eq!(Some(1), p.get(0, 1));
    assert_eq!(None, p.get(0, 2));
    assert_eq!(Some(9), p.get(8, 8));
    assert_eq!(Some(5), p.get(8, 6));
    assert!(!p.is_solved());
}

#[test]
fn parse_skips_whitespace_and_ignores_extra_digits() {
    let spaced = format!("  {}  \r\n\t1234", EXAMPLE.replace('\n', "\n "));
    let p = parse(&spaced);
    assert!(same_cells(&p, &parse(EXAMPLE)));
}

#[test]
fn parse_rejects_bad_text() {
    assert!(SudokuPuzzle::from_string("").is_none());
    assert!(SudokuPuzzle::from_string(&"0".repeat(80)).is_none());
    let mut bad = "0".repeat(81);
    bad.push('x');
    assert!(SudokuPuzzle::from_string(&bad).is_none());
    assert!(SudokuPuzzle::from_string(&"0".repeat(81)).is_some());
}

#[test]
fn solves_the_example_puzzle() {
    let puzzle = parse(EXAMPLE);
    let solution = puzzle.solve().expect("the example has a solution");
    assert!(solution.is_solved());
    assert!(keeps_givens(&puzzle, &solution));
    assert!(each_digit_once_everywhere(&solution));
}

#[test]
fn solved_grid_is_returned_unchanged() {
    let solution = parse(EXAMPLE).solve().unwrap();
    let again = solution.solve().expect("a solved grid solves itself");
    assert!(same_cells(&solution, &again));
}

#[test]
fn duplicate_in_a_row_has_no_solution() {
    let mut text = "0".repeat(81);
    text.replace_range(0..1, "5");
    text.replace_range(4..5, "5");
    let puzzle = parse(&text);
    assert!(puzzle.solve().is_none());
}

#[test]
fn full_but_broken_grid_has_no_solution() {
    let solution = parse(EXAMPLE).solve().unwrap();
    let mut text = String::new();
    for row in 0..9 {
        for col in 0..9 {
            let v = solution.get(row, col).unwrap();
            let v = if row == 4 && col == 4 { v % 9 + 1 } else { v };
            text.push_str(&v.to_string());
        }
    }
    let broken = parse(&text);
    assert!(!broken.is_solved());
    assert!(broken.solve().is_none());
}

#[test]
fn few_givens_give_some_solution() {
    let text = "100000000\n000020000\n000000300\n000400000\n050000000\n000000600\n007000000\n000000080\n000900000\n";
    let puzzle = parse(text);
    let solution = puzzle.solve().expect("an open puzzle has a solution");
    assert!(solution.is_solved());
    assert!(keeps_givens(&puzzle, &solution));
}

#[test]
fn empty_grid_gets_solved() {
    let puzzle = parse(&"0".repeat(81));
    let solution = puzzle.solve().expect("the empty grid has a solution");
    assert!(solution.is_solved());
    assert!(each_digit_once_everywhere(&solution));
}

#[test]
fn solved_means_each_digit_once() {
    let solution = parse(EXAMPLE).solve().unwrap();
    assert!(solution.is_solved());
    assert!(each_digit_once_everywhere(&solution));
    let empty = parse(&"0".repeat(81));
    assert!(!empty.is_solved());
    assert!(!each_digit_once_everywhere(&empty));
}
