use sudoku::sudoku::{Sudoku, SudokuError};

const PUZZLE: &str = "53..7....6..195....98....6.8...6...34..8.3..17...2...6.6....28....419..5....8..79";
const SOLUTION: &str = "534678912672195348198342567859761423426853791713924856961537284287419635345286179";

fn keeps_givens(puzzle: &str, solution: &str) -> bool {
    puzzle.chars().zip(solution.chars()).all(|(p, s)| p == '.' || p == s)
}

#[test]
fn test_constructor() {
    let sudoku_str = String::from(".................................................................................");
    let sudoku_str2 = String::from("............2...........9........................45............3...........8.....");

    assert_eq!(sudoku_str, Sudoku::from_str(sudoku_str.clone()).unwrap().to_str());
    assert_eq!(sudoku_str2, Sudoku::from_str(sudoku_str2.clone()).unwrap().to_str());
}

#[test]
fn test_too_short() {
    assert!(Sudoku::from_str(String::from("..")).is_err());
}

#[test]
fn test_invalid() {
    assert!(Sudoku::from_str(String::from("123456789123456789123456789123456789123456789123456789123456789123456789")).is_err());
}

#[test]
fn round_trip_of_a_partial_puzzle() {
    let b = Sudoku::from_str(String::from(PUZZLE)).unwrap();
    assert_eq!(b.to_str(), PUZZLE);
}

#[test]
fn length_errors() {
    assert_eq!(Sudoku::from_str(String::from("..")).err(), Some(SudokuError::LengthError));
    assert_eq!(Sudoku::from_str(String::new()).err(), Some(SudokuError::LengthError));
    let long = format!("{}.", PUZZLE);
    assert_eq!(Sudoku::from_str(long).err(), Some(SudokuError::LengthError));
    let short = String::from(&PUZZLE[..80]);
    assert_eq!(Sudoku::from_str(short).err(), Some(SudokuError::LengthError));
}

#[test]
fn repeated_rows_are_invalid() {
    let text = "123456789".repeat(9);
    assert_eq!(Sudoku::from_str(text).err(), Some(SudokuError::InvalidBoardError));
}

#[test]
fn duplicate_in_one_box_is_invalid() {
    let mut text: Vec<char> = ".".repeat(81).chars().collect();
    text[0] = '4';
    text[10] = '4';
    let text: String = text.into_iter().collect();
    assert_eq!(Sudoku::from_str(text).err(), Some(SudokuError::InvalidBoardError));
}

#[test]
fn foreign_character_is_invalid() {
    let mut text = String::from("0");
    text.push_str(&".".repeat(80));
    assert_eq!(Sudoku::from_str(text).err(), Some(SudokuError::InvalidBoardError));
}

#[test]
fn solves_a_classic_puzzle() {
    let b = Sudoku::from_str(String::from(PUZZLE)).unwrap();
    let sol = b.solve().unwrap();
    assert!(sol.is_solved());
    assert_eq!(sol.to_str(), SOLUTION);
    assert_eq!(b.to_str(), PUZZLE);
}

#[test]
fn solves_the_blank_board() {
    let b = Sudoku::new();
    assert!(!b.is_solved());
    assert!(b.is_valid());
    let sol = b.solve().unwrap();
    assert!(sol.is_solved());
    let parsed = Sudoku::from_str(String::from(".".repeat(81))).unwrap();
    assert!(parsed.solve().unwrap().is_solved());
}

#[test]
fn solving_twice_gives_the_same_board() {
    let b = Sudoku::new();
    assert_eq!(b.solve().unwrap().to_str(), b.solve().unwrap().to_str());
    let p = Sudoku::from_str(String::from(PUZZLE)).unwrap();
    assert_eq!(p.solve().unwrap().to_str(), p.solve().unwrap().to_str());
}

#[test]
fn one_blank_per_row_column_and_box() {
    let mut cells: Vec<char> = SOLUTION.chars().collect();
    for r in 0..9 {
        let c = (r * 3 + r / 3) % 9;
        cells[r * 9 + c] = '.';
    }
    let puzzle: String = cells.into_iter().collect();
    let b = Sudoku::from_str(puzzle.clone()).unwrap();
    assert!(!b.is_solved());
    let sol = b.solve().unwrap();
    assert_eq!(sol.to_str(), SOLUTION);
    assert!(keeps_givens(&puzzle, &sol.to_str()));
}

#[test]
fn unsolvable_puzzle_gives_none() {
    let mut text = String::from("12345678.");
    text.push_str("........9");
    text.push_str(&".".repeat(63));
    let b = Sudoku::from_str(text).unwrap();
    assert!(b.is_valid());
    assert!(b.solve().is_none());
}

#[test]
fn solution_keeps_placed_digits() {
    let puzzle = "............2...........9........................45............3...........8.....";
    let b = Sudoku::from_str(String::from(puzzle)).unwrap();
    let sol = b.solve().unwrap();
    assert!(sol.is_solved());
    assert!(keeps_givens(puzzle, &sol.to_str()));
}

#[test]
fn solved_board_is_solved_and_valid() {
    let b = Sudoku::from_str(String::from(SOLUTION)).unwrap();
    assert!(b.is_valid());
    assert!(b.is_solved());
    assert_eq!(b.solve().unwrap().to_str(), SOLUTION);
}

#[test]
fn update_cell_edits_and_revalidates() {
    let mut b = Sudoku::new();
    b.update_cell(0, '5');
    assert!(b.to_str().starts_with('5'));
    assert!(b.is_valid());
    b.update_cell(80, '5');
    assert!(b.is_valid());
    b.update_cell(8, '5');
    assert!(!b.is_valid());
    b.update_cell(8, '.');
    assert!(b.is_valid());
    assert_eq!(b.to_str().chars().filter(|&c| c == '5').count(), 2);
}

#[test]
fn grid_has_nine_lines_of_nine() {
    let b = Sudoku::from_str(String::from(SOLUTION)).unwrap();
    let grid = b.to_grid_str();
    let lines: Vec<&str> = grid.lines().collect();
    assert_eq!(lines.len(), 9);
    assert_eq!(lines[0], "534678912");
    assert_eq!(lines[8], "345286179");
    assert!(grid.ends_with('\n'));
    assert_eq!(grid.replace('\n', ""), SOLUTION);
}

#[test]
fn solving_a_solution_returns_it_unchanged() {
    let b = Sudoku::from_str(String::from(PUZZLE)).unwrap();
    let sol = b.solve().unwrap();
    let again = sol.solve().unwrap();
    assert_eq!(again.to_str(), sol.to_str());
    let blank = Sudoku::new().solve().unwrap();
    assert_eq!(blank.solve().unwrap().to_str(), blank.to_str());
}
