use sudoku::parallel::{branch, pick_cell, try_fill};
use sudoku::sequential::solve;
use sudoku::sudoku::Puzzle;

fn naive_board() -> [[usize; 9]; 9] {
    [
        [3, 1, 2, 6, 0, 5, 4, 0, 0],
        [6, 0, 4, 2, 1, 0, 0, 8, 3],
        [9, 0, 8, 0, 3, 0, 0, 2, 0],
        [2, 4, 7, 5, 6, 0, 0, 3, 0],
        [8, 6, 0, 1, 0, 0, 0, 0, 0],
        [0, 0, 5, 3, 0, 2, 6, 7, 0],
        [0, 8, 0, 0, 0, 0, 0, 0, 4],
        [0, 3, 0, 0, 0, 0, 7, 6, 2],
        [5, 0, 0, 0, 7, 0, 8, 0, 9],
    ]
}

fn naive_solution() -> [[usize; 9]; 9] {
    [
        [3, 1, 2, 6, 8, 5, 4, 9, 7],
        [6, 7, 4, 2, 1, 9, 5, 8, 3],
        [9, 5, 8, 7, 3, 4, 1, 2, 6],
        [2, 4, 7, 5, 6, 8, 9, 3, 1],
        [8, 6, 3, 1, 9, 7, 2, 4, 5],
        [1, 9, 5, 3, 4, 2, 6, 7, 8],
        [7, 8, 1, 9, 2, 6, 3, 5, 4],
        [4, 3, 9, 8, 5, 1, 7, 6, 2],
        [5, 2, 6, 4, 7, 3, 8, 1, 9],
    ]
}

fn simp_board() -> [[usize; 9]; 9] {
    [
        [0, 0, 0, 1, 0, 4, 0, 0, 0],
        [0, 0, 1, 0, 0, 0, 9, 0, 0],
        [0, 9, 0, 7, 0, 3, 0, 6, 0],
        [8, 0, 7, 0, 0, 0, 1, 0, 6],
        [0, 0, 0, 0, 0, 0, 0, 0, 0],
        [3, 0, 4, 0, 0, 0, 5, 0, 9],
        [0, 5, 0, 4, 0, 2, 0, 3, 0],
        [0, 0, 8, 0, 0, 0, 6, 0, 0],
        [0, 0, 0, 8, 0, 6, 0, 0, 0],
    ]
}

fn simp_solution() -> [[usize; 9]; 9] {
    [
        [6, 8, 2, 1, 9, 4, 3, 5, 7],
        [7, 3, 1, 5, 6, 8, 9, 2, 4],
        [4, 9, 5, 7, 2, 3, 8, 6, 1],
        [8, 2, 7, 9, 3, 5, 1, 4, 6],
        [5, 1, 9, 6, 4, 7, 2, 8, 3],
        [3, 6, 4, 2, 8, 1, 5, 7, 9],
        [9, 5, 6, 4, 1, 2, 7, 3, 8],
        [2, 4, 8, 3, 7, 9, 6, 1, 5],
        [1, 7, 3, 8, 5, 6, 4, 9, 2],
    ]
}

fn values(p: &Puzzle) -> [[usize; 9]; 9] {
    let mut g = [[0usize; 9]; 9];
    for r in 0..9 {
        for c in 0..9 {
            let d = p.get(r, c);
            g[r][c] = if d.len() == 1 { d[0] } else { 0 };
        }
    }
    g
}

fn is_solution(g: &[[usize; 9]; 9]) -> bool {
    for r in 0..9 {
        for c in 0..9 {
            let v = g[r][c];
            if !(1..=9).contains(&v) {
                return false;
            }
            for r2 in 0..9 {
                for c2 in 0..9 {
                    let peer = r2 == r || c2 == c || (r2 / 3 == r / 3 && c2 / 3 == c / 3);
                    if peer && (r2, c2) != (r, c) && g[r2][c2] == v {
                        return false;
                    }
                }
            }
        }
    }
    true
}

#[test]
fn sequential_solves_naive_board() {
    let mut p = Puzzle::new(&naive_board());
    assert!(solve(&mut p, 0, 0));
    assert_eq!(values(&p), naive_solution());
    assert!(is_solution(&values(&p)));
}

#[test]
fn sequential_solves_simple_techniques_board() {
    let mut p = Puzzle::new(&simp_board());
    assert!(solve(&mut p, 0, 0));
    assert_eq!(values(&p), simp_solution());
}

#[test]
fn sequential_solved_board_is_kept() {
    let mut p = Puzzle::new(&naive_solution());
    assert!(solve(&mut p, 0, 0));
    assert_eq!(values(&p), naive_solution());
}

#[test]
fn sequential_past_last_row_succeeds() {
    let mut p = Puzzle::new(&naive_board());
    assert!(solve(&mut p, 9, 0));
    assert!(solve(&mut p, 9, 123));
    assert_eq!(values(&p), naive_board());
}

#[test]
fn sequential_from_later_cell_keeps_earlier_cells() {
    let mut p = Puzzle::new(&naive_board());
    // fill from row 8 on: (8, 1) must take the one digit free in row 8, column 1 and its box
    let mut b = naive_solution();
    for c in 0..9 {
        b[8][c] = naive_board()[8][c];
    }
    let mut q = Puzzle::new(&b);
    assert!(solve(&mut q, 8, 0));
    assert_eq!(values(&q), naive_solution());
    // starting past them, earlier undecided cells stay open; the last row gets filled
    assert!(solve(&mut p, 8, 0));
    let g = values(&p);
    assert_eq!(g[0][4], 0);
    assert!(g[8].iter().all(|v| (1..=9).contains(v)));
    assert_eq!(g[8][0], 5);
}

#[test]
fn sequential_unsolvable_board_is_unchanged() {
    // (0, 8) sees 1..8 in its row and 9 in its column: nothing fits
    let mut b = [[0usize; 9]; 9];
    for c in 0..8 {
        b[0][c] = c + 1;
    }
    b[5][8] = 9;
    let mut p = Puzzle::new(&b);
    let before = p.to_string();
    assert!(!solve(&mut p, 0, 0));
    assert_eq!(values(&p), b);
    assert_eq!(p.to_string().lines().count(), before.lines().count());
}

#[test]
fn sequential_clashing_givens_are_not_checked() {
    // two givens 5 in the same row: the solver keeps them and fills the rest around them
    let mut b = naive_solution();
    b[0][0] = 5;
    b[0][1] = 0;
    let mut p = Puzzle::new(&b);
    let found = solve(&mut p, 0, 0);
    if found {
        assert_eq!(values(&p)[0][0], 5);
    } else {
        assert_eq!(values(&p), b);
    }
}

#[test]
fn pick_cell_takes_first_open_cell() {
    let p = Puzzle::new(&naive_board());
    let (row, clm, mut cands) = pick_cell(&p);
    assert_eq!((row, clm), (0, 4));
    cands.sort();
    assert_eq!(cands, vec![1, 2, 3, 4, 5, 6, 7, 8, 9]);
}

#[test]
fn pick_cell_on_solved_board_is_empty() {
    let p = Puzzle::new(&naive_solution());
    let (row, clm, cands) = pick_cell(&p);
    assert_eq!((row, clm), (0, 0));
    assert!(cands.is_empty());
}

#[test]
fn branch_decides_one_cell() {
    let p = Puzzle::new(&naive_board());
    let q = branch(&p, 0, 4, 8);
    assert_eq!(q.get(0, 4), vec![8]);
    assert_eq!(p.get(0, 4).len(), 9);
}

#[test]
fn try_fill_good_and_bad_branches() {
    let p = Puzzle::new(&naive_board());
    let mut good = branch(&p, 0, 4, 8);
    assert!(try_fill(&mut good));
    assert_eq!(values(&good), naive_solution());
    let mut bad = branch(&p, 0, 4, 9);
    assert!(!try_fill(&mut bad));
    assert_eq!(values(&bad)[0][4], 9);
    assert_eq!(values(&bad)[0][7], 0);
}

#[test]
fn some_branch_of_a_solvable_board_succeeds() {
    let p = Puzzle::new(&naive_board());
    let (row, clm, cands) = pick_cell(&p);
    let mut winners = Vec::new();
    for num in cands {
        let mut q = branch(&p, row, clm, num);
        if try_fill(&mut q) {
            winners.push((num, values(&q)));
        }
    }
    winners.sort();
    // the allowed digit leads to the solution
    let allowed: Vec<_> = winners.iter().filter(|(n, _)| p.is_valid(row, clm, *n)).collect();
    assert_eq!(allowed.len(), 1);
    assert_eq!(allowed[0].0, 8);
    assert_eq!(allowed[0].1, naive_solution());
}

#[test]
fn branch_on_a_clashing_digit_is_filled_around_it() {
    // 3 clashes with the given 3 at (0, 0); the branch takes it as given and still completes
    let p = Puzzle::new(&naive_board());
    assert!(!p.is_valid(0, 4, 3));
    let mut q = branch(&p, 0, 4, 3);
    assert!(try_fill(&mut q));
    let g = values(&q);
    assert_eq!(g[0][0], 3);
    assert_eq!(g[0][4], 3);
    assert!(!is_solution(&g));
}
