use solver::sudoku::Sudoku;
use solver::varset::VarSet;

fn lines(bytes: Vec<u8>) -> Vec<String> {
    String::from_utf8(bytes)
        .expect("ASCII")
        .lines()
        .map(|l| l.to_string())
        .collect()
}

fn digit_of(solution: &VarSet, n: usize, r: usize, c: usize) -> usize {
    let held: Vec<usize> = (0..n)
        .filter(|d| solution.contains(r * n * n + c * n + d + 1))
        .collect();
    assert_eq!(held.len(), 1);
    held[0] + 1
}

fn solved(size: usize, data: &[usize]) -> Vec<usize> {
    let n = size * size;
    let mut cnf = Sudoku { size, data: data.to_vec() }.to_cnf();
    let solution = cnf.dpll(&VarSet::new(), &VarSet::new()).expect("solvable");
    assert!(cnf.validate(&solution));
    let mut grid = Vec::new();
    for r in 0..n {
        for c in 0..n {
            grid.push(digit_of(&solution, n, r, c));
        }
    }
    grid
}

fn check_grid(size: usize, data: &[usize], grid: &[usize]) {
    let n = size * size;
    for i in 0..n * n {
        assert!(1 <= grid[i] && grid[i] <= n);
        if data[i] != 0 {
            assert_eq!(grid[i], data[i]);
        }
    }
    for a in 0..n {
        let mut row = vec![false; n + 1];
        let mut column = vec![false; n + 1];
        let mut block = vec![false; n + 1];
        for b in 0..n {
            let in_row = grid[a * n + b];
            let in_column = grid[b * n + a];
            let in_block = grid[(a / size * size + b / size) * n + a % size * size + b % size];
            assert!(!row[in_row]);
            assert!(!column[in_column]);
            assert!(!block[in_block]);
            row[in_row] = true;
            column[in_column] = true;
            block[in_block] = true;
        }
    }
}

#[test]
fn board_of_one_cell() {
    let empty = Sudoku { size: 1, data: vec![0] }.to_cnf();
    assert_eq!(empty.to_text(), b"p cnf 1 4\n1 0\n1 0\n1 0\n1 0\n".to_vec());
    let given = Sudoku { size: 1, data: vec![1] }.to_cnf();
    assert_eq!(given.to_text(), b"p cnf 1 5\n1 0\n1 0\n1 0\n1 0\n1 0\n".to_vec());
    assert_eq!(solved(1, &[0]), vec![1]);
}

#[test]
fn board_without_cells() {
    let mut cnf = Sudoku { size: 0, data: vec![] }.to_cnf();
    assert_eq!(cnf.to_text(), b"p cnf 0 0\n".to_vec());
    assert!(cnf.dpll(&VarSet::new(), &VarSet::new()).is_some());
}

#[test]
fn clauses_of_a_board_of_four_rows() {
    let mut data = vec![0; 16];
    data[5] = 3;
    data[15] = 4;
    let text = lines(Sudoku { size: 2, data }.to_cnf().to_text());
    assert_eq!(text.len(), 1 + 2 + 4 * (16 + 16 * 6));
    assert_eq!(text[0], "p cnf 64 450");
    // The filled cells.
    assert_eq!(text[1], "23 0");
    assert_eq!(text[2], "64 0");
    // The cells: a digit in each, and no two digits.
    assert_eq!(text[3], "1 2 3 4 0");
    assert_eq!(text[4], "5 6 7 8 0");
    assert_eq!(text[18], "61 62 63 64 0");
    assert_eq!(text[19], "-1 -2 0");
    assert_eq!(text[20], "-1 -3 0");
    assert_eq!(text[21], "-1 -4 0");
    assert_eq!(text[22], "-2 -3 0");
    assert_eq!(text[23], "-2 -4 0");
    assert_eq!(text[24], "-3 -4 0");
    assert_eq!(text[25], "-5 -6 0");
    assert_eq!(text[114], "-63 -64 0");
    // The rows.
    assert_eq!(text[115], "1 5 9 13 0");
    assert_eq!(text[116], "2 6 10 14 0");
    assert_eq!(text[119], "17 21 25 29 0");
    assert_eq!(text[131], "-1 -5 0");
    // The columns.
    assert_eq!(text[227], "1 17 33 49 0");
    assert_eq!(text[228], "2 18 34 50 0");
    assert_eq!(text[231], "5 21 37 53 0");
    assert_eq!(text[243], "-1 -17 0");
    // The blocks.
    assert_eq!(text[339], "1 5 17 21 0");
    assert_eq!(text[343], "9 13 25 29 0");
    assert_eq!(text[347], "33 37 49 53 0");
    assert_eq!(text[354], "44 48 60 64 0");
    assert_eq!(text[355], "-1 -5 0");
    assert_eq!(text[450], "-60 -64 0");
}

#[test]
fn solves_a_board_of_four_rows() {
    let data = [1, 0, 0, 0, 0, 0, 3, 0, 0, 4, 0, 0, 0, 0, 0, 2];
    let grid = solved(2, &data);
    check_grid(2, &data, &grid);
}

#[test]
fn solves_an_empty_board_of_four_rows() {
    let data = [0; 16];
    let grid = solved(2, &data);
    check_grid(2, &data, &grid);
}

#[test]
fn refutes_a_board_with_a_digit_twice_in_a_row() {
    let mut data = vec![0; 16];
    data[0] = 1;
    data[3] = 1;
    let mut cnf = Sudoku { size: 2, data }.to_cnf();
    assert!(cnf.dpll(&VarSet::new(), &VarSet::new()).is_none());
    assert_eq!(cnf.height(), 0);
}

#[test]
fn solves_a_board_of_nine_rows() {
    let data = [
        5, 3, 0, 0, 7, 0, 0, 0, 0, //
        6, 0, 0, 1, 9, 5, 0, 0, 0, //
        0, 9, 8, 0, 0, 0, 0, 6, 0, //
        8, 0, 0, 0, 6, 0, 0, 0, 3, //
        4, 0, 0, 8, 0, 3, 0, 0, 1, //
        7, 0, 0, 0, 2, 0, 0, 0, 6, //
        0, 6, 0, 0, 0, 0, 2, 8, 0, //
        0, 0, 0, 4, 1, 9, 0, 0, 5, //
        0, 0, 0, 0, 8, 0, 0, 7, 9,
    ];
    let grid = solved(3, &data);
    check_grid(3, &data, &grid);
    assert_eq!(
        grid,
        vec![
            5, 3, 4, 6, 7, 8, 9, 1, 2, //
            6, 7, 2, 1, 9, 5, 3, 4, 8, //
            1, 9, 8, 3, 4, 2, 5, 6, 7, //
            8, 5, 9, 7, 6, 1, 4, 2, 3, //
            4, 2, 6, 8, 5, 3, 7, 9, 1, //
            7, 1, 3, 9, 2, 4, 8, 5, 6, //
            9, 6, 1, 5, 3, 7, 2, 8, 4, //
            2, 8, 7, 4, 1, 9, 6, 3, 5, //
            3, 4, 5, 2, 8, 6, 1, 7, 9,
        ]
    );
}

#[test]
fn encodable_boards_are_told_apart() {
    assert!(Sudoku { size: 2, data: vec![0; 16] }.is_encodable());
    assert!(Sudoku { size: 2, data: vec![4; 16] }.is_encodable());
    assert!(Sudoku { size: 0, data: vec![] }.is_encodable());
    assert!(Sudoku { size: 3, data: vec![9; 81] }.is_encodable());
    assert!(!Sudoku { size: 2, data: vec![0; 15] }.is_encodable());
    assert!(!Sudoku { size: 2, data: vec![0; 17] }.is_encodable());
    assert!(!Sudoku { size: 0, data: vec![0] }.is_encodable());
    let mut beyond = vec![0; 16];
    beyond[7] = 5;
    assert!(!Sudoku { size: 2, data: beyond }.is_encodable());
    assert!(!Sudoku { size: usize::MAX, data: vec![] }.is_encodable());
    assert!(!Sudoku { size: 1 << 20, data: vec![] }.is_encodable());
}
