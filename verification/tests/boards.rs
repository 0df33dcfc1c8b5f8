use sudoku::sudoku::{Digits, Puzzle};

fn naive_board() -> [[usize; 9]; 9] {
    [
        [3, 1, 2, 6, 0, 5, 4, 0, 0],
        [6, 0, 4, 2, 1, 0, 0, 8, 3],
        [9, 0, 8, 0, 3, 0, 0, 2, 0],
        [2, 4, 7, 5, 6, 0, 0, 3, 0],
        [8, 6, 0, 1, 0, 0, 0, 0, 0],
        [0, 0, 5, 3, 0, 2, 6, 7, 0],
        [0, 8, 0, 0, 0, 0, 0, 0, 4],
        [0, 3, 0, 0, 0, 0, 7, 6, 2],
        [5, 0, 0, 0, 7, 0, 8, 0, 9],
    ]
}

fn naive_solution() -> [[usize; 9]; 9] {
    [
        [3, 1, 2, 6, 8, 5, 4, 9, 7],
        [6, 7, 4, 2, 1, 9, 5, 8, 3],
        [9, 5, 8, 7, 3, 4, 1, 2, 6],
        [2, 4, 7, 5, 6, 8, 9, 3, 1],
        [8, 6, 3, 1, 9, 7, 2, 4, 5],
        [1, 9, 5, 3, 4, 2, 6, 7, 8],
        [7, 8, 1, 9, 2, 6, 3, 5, 4],
        [4, 3, 9, 8, 5, 1, 7, 6, 2],
        [5, 2, 6, 4, 7, 3, 8, 1, 9],
    ]
}

fn text_of(grid: &[[usize; 9]; 9]) -> String {
    let mut out = String::new();
    for row in grid.iter() {
        for v in row.iter() {
            out.push_str(&format!("{} ", v));
        }
        out.push('\n');
    }
    out
}

fn sorted(mut v: Vec<usize>) -> Vec<usize> {
    v.sort();
    v
}

#[test]
fn digits_default_is_empty() {
    let d = Digits::default();
    assert_eq!(d.len(), 0);
    assert!(d.iter().is_empty());
}

#[test]
fn digits_set_one_digit() {
    let mut d = Digits::default();
    d.set(5);
    assert_eq!(d.len(), 1);
    assert_eq!(d.iter(), vec![5]);
    d.set(42);
    assert_eq!(d.iter(), vec![42]);
}

#[test]
fn digits_set_zero_opens_every_digit() {
    let mut d = Digits::default();
    d.set(7);
    d.set(0);
    assert_eq!(d.len(), 9);
    assert_eq!(sorted(d.iter()), vec![1, 2, 3, 4, 5, 6, 7, 8, 9]);
}

#[test]
fn digits_clone_keeps_digits() {
    let mut d = Digits::default();
    d.set(0);
    let e = d.clone();
    assert_eq!(sorted(e.iter()), vec![1, 2, 3, 4, 5, 6, 7, 8, 9]);
    d.set(3);
    assert_eq!(e.len(), 9);
    assert_eq!(d.iter(), vec![3]);
}

#[test]
fn puzzle_new_reads_back_the_board() {
    let p = Puzzle::new(&naive_board());
    assert_eq!(p.get(0, 0), vec![3]);
    assert_eq!(p.get(8, 8), vec![9]);
    assert_eq!(sorted(p.get(0, 4)), vec![1, 2, 3, 4, 5, 6, 7, 8, 9]);
}

#[test]
fn puzzle_set_at_then_get() {
    let mut p = Puzzle::new(&naive_board());
    p.set_at(0, 4, 8);
    assert_eq!(p.get(0, 4), vec![8]);
    p.set_at(0, 4, 0);
    assert_eq!(p.get(0, 4).len(), 9);
    // other cells are untouched
    assert_eq!(p.get(0, 3), vec![6]);
}

#[test]
fn puzzle_is_valid_row_column_box() {
    let p = Puzzle::new(&naive_board());
    // (0, 4): row holds 3 1 2 6 5 4, column holds 1 3 6 7, box holds 6 5 2 1 3
    assert!(!p.is_valid(0, 4, 3)); // row
    assert!(!p.is_valid(0, 4, 7)); // column
    assert!(!p.is_valid(0, 4, 2)); // row and box
    assert!(p.is_valid(0, 4, 8));
    assert!(p.is_valid(0, 4, 9));
    // box only: (4, 2) is in the box of (3, 0), which holds 2 4 7 8 6 5
    assert!(!p.is_valid(4, 2, 5));
    // 0 is never a decided digit
    assert!(p.is_valid(0, 0, 0));
}

#[test]
fn puzzle_is_valid_counts_the_cell_itself() {
    let p = Puzzle::new(&naive_board());
    assert!(!p.is_valid(0, 0, 3));
}

#[test]
fn puzzle_to_string_of_solved_board() {
    let p = Puzzle::new(&naive_solution());
    let text = p.to_string();
    assert_eq!(text, text_of(&naive_solution()));
    assert!(text.starts_with("3 1 2 6 8 5 4 9 7 \n6 7 4"));
}

#[test]
fn puzzle_to_string_large_numbers() {
    let mut b = naive_solution();
    b[0][0] = 1234;
    let p = Puzzle::new(&b);
    assert!(p.to_string().starts_with("1234 1 2 "));
}

#[test]
fn puzzle_to_string_open_cell_shows_a_candidate() {
    let p = Puzzle::new(&naive_board());
    let text = p.to_string();
    let first_line: Vec<&str> = text.lines().next().unwrap().split(' ').collect();
    assert_eq!(first_line[0], "3");
    let shown: usize = first_line[4].parse().unwrap();
    assert!((1..=9).contains(&shown));
    assert_eq!(text.lines().count(), 9);
}

#[test]
fn puzzle_clone_is_independent() {
    let p = Puzzle::new(&naive_board());
    let mut q = p.clone();
    q.set_at(0, 4, 8);
    assert_eq!(q.get(0, 4), vec![8]);
    assert_eq!(p.get(0, 4).len(), 9);
    assert_eq!(q.get(0, 0), vec![3]);
}
