use sudoku::concurrent::cell;
use sudoku::concurrent::detective::{self, Candidates};
use sudoku::concurrent::network::Network;
use sudoku::concurrent::restriction::{Restriction, RestrictionType};
use sudoku::concurrent::rivals::Rivals;
use sudoku::concurrent::rule::{Rule, RuleType};
use sudoku::concurrent::solver::{prepare_cell, record_discoveries, Clue, Setup};
use sudoku::sudoku::Puzzle;

fn naive_board() -> [[usize; 9]; 9] {
    [
        [3, 1, 2, 6, 0, 5, 4, 0, 0],
        [6, 0, 4, 2, 1, 0, 0, 8, 3],
        [9, 0, 8, 0, 3, 0, 0, 2, 0],
        [2, 4, 7, 5, 6, 0, 0, 3, 0],
        [8, 6, 0, 1, 0, 0, 0, 0, 0],
        [0, 0, 5, 3, 0, 2, 6, 7, 0],
        [0, 8, 0, 0, 0, 0, 0, 0, 4],
        [0, 3, 0, 0, 0, 0, 7, 6, 2],
        [5, 0, 0, 0, 7, 0, 8, 0, 9],
    ]
}

fn naive_solution() -> [[usize; 9]; 9] {
    [
        [3, 1, 2, 6, 8, 5, 4, 9, 7],
        [6, 7, 4, 2, 1, 9, 5, 8, 3],
        [9, 5, 8, 7, 3, 4, 1, 2, 6],
        [2, 4, 7, 5, 6, 8, 9, 3, 1],
        [8, 6, 3, 1, 9, 7, 2, 4, 5],
        [1, 9, 5, 3, 4, 2, 6, 7, 8],
        [7, 8, 1, 9, 2, 6, 3, 5, 4],
        [4, 3, 9, 8, 5, 1, 7, 6, 2],
        [5, 2, 6, 4, 7, 3, 8, 1, 9],
    ]
}

/// The solution with only (0, 4) left open.
fn one_open() -> [[usize; 9]; 9] {
    let mut b = naive_solution();
    b[0][4] = 0;
    b
}

fn positions(msgs: &[((usize, usize), Rule)]) -> Vec<(usize, usize)> {
    let mut v: Vec<(usize, usize)> = msgs.iter().map(|(p, _)| *p).collect();
    v.sort();
    v
}

fn discovery(digit: usize, row: usize, clm: usize) -> Rule {
    Rule { type_id: RuleType::Discovery, digit, row, clm }
}

fn clue(digit: usize, row: usize, clm: usize) -> Rule {
    Rule { type_id: RuleType::Clue, digit, row, clm }
}

#[test]
fn network_rows_columns_boxes() {
    let p = Puzzle::new(&naive_board());
    let net = Network::new(&p);
    let row = net.get_row_txs(0);
    assert_eq!(row.len(), 9);
    let mut open: Vec<usize> = row.iter().filter(|(_, v)| **v).map(|(k, _)| *k).collect();
    open.sort();
    assert_eq!(open, vec![4, 7, 8]);
    let clm = net.get_clm_txs(4);
    let mut open: Vec<usize> = clm.iter().filter(|(_, v)| **v).map(|(k, _)| *k).collect();
    open.sort();
    assert_eq!(open, vec![0, 4, 5, 6, 7]);
    let bx = net.get_box_txs(1, 4);
    let mut keys: Vec<usize> = bx.keys().cloned().collect();
    keys.sort();
    assert_eq!(keys, vec![3, 4, 5, 12, 13, 14, 21, 22, 23]);
    let mut open: Vec<usize> = bx.iter().filter(|(_, v)| **v).map(|(k, _)| *k).collect();
    open.sort();
    assert_eq!(open, vec![4, 14, 21, 23]);
}

#[test]
fn network_hands_out_an_inbox_once() {
    let p = Puzzle::new(&naive_board());
    let mut net = Network::new(&p);
    assert!(net.take_rx_at(0, 4));
    assert!(!net.take_rx_at(0, 4));
    assert!(!net.take_rx_at(0, 0));
    // the cell still takes messages
    assert_eq!(net.get_row_txs(0).get(&4), Some(&true));
}

#[test]
fn rivals_notify_open_peers() {
    let p = Puzzle::new(&naive_board());
    let net = Network::new(&p);
    let rivals = Rivals::new(0, 4, &net);
    assert!(!rivals.lose());
    let msgs = rivals.notify(clue(3, 0, 4));
    // row: columns 7 and 8; column: rows 4 to 7; box: (1, 5), (2, 3), (2, 5)
    assert_eq!(
        positions(&msgs),
        vec![(0, 7), (0, 8), (1, 5), (2, 3), (2, 5), (4, 4), (5, 4), (6, 4), (7, 4)]
    );
    assert!(msgs.iter().all(|(_, r)| r.digit == 3 && r.type_id == RuleType::Clue));
    // the row part comes first
    let first_two = positions(&msgs[0..2]);
    assert_eq!(first_two, vec![(0, 7), (0, 8)]);
}

#[test]
fn rivals_lose_once_a_group_is_gone() {
    let p = Puzzle::new(&one_open());
    let net = Network::new(&p);
    let mut rivals = Rivals::new(0, 4, &net);
    assert!(rivals.notify(clue(8, 0, 4)).is_empty());
    for c in [0, 1, 2, 3, 5, 6, 7] {
        rivals.remove_at(0, c, 0, 4);
        assert!(!rivals.lose());
    }
    rivals.remove_at(0, 8, 0, 4);
    assert!(rivals.lose());
    // removing more keeps it lost, out-of-grid positions change nothing
    rivals.remove_at(3, 4, 0, 4);
    rivals.remove_at(20, 30, 0, 4);
    assert!(rivals.lose());
}

#[test]
fn rivals_box_group_runs_out() {
    let p = Puzzle::new(&one_open());
    let net = Network::new(&p);
    let mut rivals = Rivals::new(0, 4, &net);
    // cells of the box that share neither row nor column with (0, 4)
    for (r, c) in [(1, 3), (1, 5), (2, 3), (2, 5)] {
        rivals.remove_at(r, c, 0, 4);
    }
    assert!(!rivals.lose());
    for (r, c) in [(0, 3), (0, 5), (1, 4), (2, 4)] {
        rivals.remove_at(r, c, 0, 4);
    }
    assert!(rivals.lose());
}

#[test]
fn cell_finds_last_digit_left() {
    let p = Puzzle::new(&one_open());
    let net = Network::new(&p);
    let mut cell = cell::Cell::new(0, 4, Rivals::new(0, 4, &net));
    let row = one_open()[0];
    let mut found = None;
    for c in [0, 1, 2, 3, 5, 6, 7, 8] {
        let (announce, msgs) = cell.react(discovery(row[c], 0, c));
        assert!(msgs.is_empty());
        if announce.is_some() {
            found = announce;
            assert_eq!(c, 8);
        }
    }
    let r = found.unwrap();
    assert_eq!((r.digit, r.row, r.clm), (8, 0, 4));
    assert!(r.type_id == RuleType::Discovery);
}

#[test]
fn cell_wins_a_digit_by_clues() {
    let p = Puzzle::new(&one_open());
    let net = Network::new(&p);
    let mut cell = cell::Cell::new(0, 4, Rivals::new(0, 4, &net));
    let mut found = None;
    for c in [0, 1, 2, 3, 5, 6, 7, 8] {
        let (announce, _) = cell.react(clue(8, 0, c));
        if announce.is_some() {
            found = announce;
        }
    }
    assert_eq!(found.map(|r| r.digit), Some(8));
    // a clue about a digit already given up changes nothing
    let (again, msgs) = cell.react(clue(42, 0, 0));
    assert!(again.is_none() && msgs.is_empty());
}

#[test]
fn cell_discovery_of_absent_digit_is_ignored() {
    let p = Puzzle::new(&naive_board());
    let net = Network::new(&p);
    let mut cell = cell::Cell::new(0, 4, Rivals::new(0, 4, &net));
    let (first, msgs) = cell.react(discovery(3, 0, 0));
    assert!(first.is_none());
    // the clue about 3 goes to the open rivals of (0, 4)
    assert_eq!(msgs.len(), 9);
    assert!(msgs.iter().all(|(_, r)| r.type_id == RuleType::Clue && r.digit == 3 && r.row == 0 && r.clm == 4));
    let (second, msgs) = cell.react(discovery(3, 0, 0));
    assert!(second.is_none() && msgs.is_empty());
}

#[test]
fn detective_finds_last_digit_left() {
    let p = Puzzle::new(&one_open());
    let net = Network::new(&p);
    let mut det = detective::Cell::new(0, 4, Candidates::new(0, 4, &net));
    let row = one_open()[0];
    let mut found = None;
    for c in [0, 1, 2, 3, 5, 6, 7, 8] {
        let (announce, msgs) = det.react(discovery(row[c], 0, c));
        assert!(msgs.is_empty());
        if announce.is_some() {
            found = announce;
            assert_eq!(c, 8);
        }
    }
    let r = found.unwrap();
    assert_eq!((r.digit, r.row, r.clm), (8, 0, 4));
}

#[test]
fn detective_wins_a_digit_by_clues() {
    let p = Puzzle::new(&one_open());
    let net = Network::new(&p);
    let mut det = detective::Cell::new(0, 4, Candidates::new(0, 4, &net));
    let mut found = None;
    for r in [1, 2, 3, 4, 5, 6, 7, 8] {
        let (announce, _) = det.react(clue(8, r, 4));
        if announce.is_some() {
            found = announce;
            assert_eq!(r, 8);
        }
    }
    assert_eq!(found.map(|r| (r.digit, r.row, r.clm)), Some((8, 0, 4)));
}

#[test]
fn detective_discovery_sends_clue_then_nothing() {
    let p = Puzzle::new(&naive_board());
    let net = Network::new(&p);
    let mut det = detective::Cell::new(0, 4, Candidates::new(0, 4, &net));
    let (first, msgs) = det.react(discovery(3, 0, 0));
    assert!(first.is_none());
    assert_eq!(
        positions(&msgs),
        vec![(0, 7), (0, 8), (1, 5), (2, 3), (2, 5), (4, 4), (5, 4), (6, 4), (7, 4)]
    );
}

#[test]
fn detective_suspects_notify() {
    let p = Puzzle::new(&naive_board());
    let net = Network::new(&p);
    let cs = Candidates::new(8, 8, &net);
    let msgs = cs.notify(discovery(9, 8, 8));
    // row 8: columns 1, 2, 3, 5, 7; column 8: rows 0, 2, 3, 4, 5; box: (6, 6), (6, 7), (8, 7):
    // (8, 7) is both in the row and in the box, and hears the message twice
    assert_eq!(
        positions(&msgs),
        vec![(0, 8), (2, 8), (3, 8), (4, 8), (5, 8), (6, 6), (6, 7), (8, 1), (8, 2), (8, 3), (8, 5), (8, 7), (8, 7)]
    );
}

#[test]
fn prepare_cells_of_a_board() {
    let p = Puzzle::new(&naive_board());
    let mut net = Network::new(&p);
    match prepare_cell(&p, &mut net, 0, 0) {
        Setup::Given(msgs) => {
            assert!(msgs.iter().all(|(_, r)| r.type_id == RuleType::Discovery && r.digit == 3));
            // row 0: columns 4, 7, 8; column 0: rows 5, 6, 7; box: (1, 1), (2, 1)
            assert_eq!(positions(&msgs), vec![(0, 4), (0, 7), (0, 8), (1, 1), (2, 1), (5, 0), (6, 0), (7, 0)]);
        }
        Setup::Open(_) => panic!("(0, 0) is decided"),
    }
    match prepare_cell(&p, &mut net, 0, 4) {
        Setup::Open(mut det) => {
            let (found, _) = det.react(discovery(3, 0, 0));
            assert!(found.is_none());
        }
        Setup::Given(_) => panic!("(0, 4) is open"),
    }
    assert!(!net.take_rx_at(0, 4));
}

#[test]
fn record_discoveries_in_order() {
    let mut p = Puzzle::new(&naive_board());
    record_discoveries(&mut p, &vec![discovery(7, 0, 4), discovery(8, 0, 4), discovery(9, 0, 7)]);
    assert_eq!(p.get(0, 4), vec![8]);
    assert_eq!(p.get(0, 7), vec![9]);
    assert_eq!(p.get(0, 8).len(), 9);
}

#[test]
fn restriction_getters() {
    let r = Restriction { type_id: RestrictionType::Clue, digit: 4, row: 2, clm: 7 };
    assert_eq!(r.row(), 2);
    assert_eq!(r.clm(), 7);
    assert_eq!(r.digit(), 4);
    assert!(r.of_type() == RestrictionType::Clue);
}

#[test]
fn clue_holds_its_fields() {
    let c = Clue { row: 1, clm: 2, digit: 3, reason: RuleType::Discovery };
    assert_eq!((c.row, c.clm, c.digit), (1, 2, 3));
    assert!(format!("{:?}", c).contains("Discovery"));
}
