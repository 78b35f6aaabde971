use nqueens::{BoardError, NQueens};

fn board(state: &[usize]) -> NQueens {
    NQueens::new(state.len()).unwrap().with_state(state).unwrap()
}

#[test]
fn new_rejects_boards_below_four() {
    assert_eq!(NQueens::new(0).err(), Some(BoardError::InvalidSize));
    assert_eq!(NQueens::new(3).err(), Some(BoardError::InvalidSize));
    assert!(NQueens::new(4).is_ok());
}

#[test]
fn new_is_all_zero_with_empty_history() {
    let a = NQueens::new(8).unwrap();
    let b = NQueens::new(8).unwrap();
    assert_eq!(a.queens(), &[0usize; 8][..]);
    assert_eq!(a.queens(), b.queens());
    assert_eq!(a.size(), 8);
    assert_eq!(a.history_len(), 0);
    assert_eq!(b.history_len(), 0);
    assert!(!a.is_verbose());
}

#[test]
fn with_verbose_sets_the_flag() {
    let b = NQueens::new(5).unwrap().with_verbose(true);
    assert!(b.is_verbose());
    assert!(!b.with_verbose(false).is_verbose());
}

#[test]
fn with_state_rejects_wrong_length() {
    let b = NQueens::new(4).unwrap();
    assert_eq!(b.clone().with_state(&[0, 1, 2]).err(), Some(BoardError::SizeMismatch));
    assert_eq!(b.with_state(&[0, 1, 2, 3, 0]).err(), Some(BoardError::SizeMismatch));
}

#[test]
fn with_state_rejects_column_off_the_board() {
    let b = NQueens::new(4).unwrap();
    assert_eq!(b.with_state(&[0, 4, 2, 1]).err(), Some(BoardError::OutOfRange));
}

#[test]
fn with_state_copies_and_clears_history() {
    let mut b = board(&[0, 0, 0, 0]);
    b.step();
    assert_eq!(b.history_len(), 1);
    let b = b.with_state(&[0, 3, 2, 1]).unwrap();
    assert_eq!(b.queens(), &[0, 3, 2, 1][..]);
    assert_eq!(b.history_len(), 0);
}

#[test]
fn cost_of_all_in_one_column() {
    let b = board(&[0, 0, 0, 0]);
    for i in 0..4 {
        assert_eq!(b.cost_of(i), (3, 0, 0));
        assert_eq!(b.queen_cost(i), 3);
    }
    assert_eq!(b.overall_cost(), 12);
}

#[test]
fn cost_of_main_diagonal() {
    let b = board(&[0, 1, 2, 3]);
    assert_eq!(b.cost_of(0), (0, 0, 3));
    assert_eq!(b.cost_of(1), (0, 1, 2));
    assert_eq!(b.cost_of(2), (0, 2, 1));
    assert_eq!(b.cost_of(3), (0, 3, 0));
    assert_eq!(b.overall_cost(), 12);
}

#[test]
fn cost_of_counts_lines_without_wrapping() {
    // Queen 0 in the last column: its higher-column diagonal leaves the board.
    let b = board(&[3, 2, 0, 0]);
    assert_eq!(b.cost_of(0), (0, 2, 0));
    assert_eq!(b.cost_of(1), (0, 1, 1));
    assert_eq!(b.cost_of(2), (1, 0, 0));
    assert_eq!(b.cost_of(3), (1, 0, 2));
    assert_eq!(b.overall_cost(), 8);
}

#[test]
fn solution_costs_nothing() {
    let b = board(&[1, 3, 0, 2]);
    assert_eq!(b.overall_cost(), 0);
    let b = board(&[0, 4, 7, 5, 2, 6, 1, 3]);
    assert_eq!(b.overall_cost(), 0);
}

#[test]
fn total_cost_is_even() {
    let states: [&[usize]; 5] = [
        &[0, 0, 0, 0],
        &[3, 2, 0, 0],
        &[1, 1, 3, 0, 2],
        &[5, 0, 4, 1, 1, 3],
        &[7, 6, 5, 4, 3, 2, 1, 0],
    ];
    for s in states {
        let b = board(s);
        let total = b.overall_cost();
        assert_eq!(total % 2, 0);
        let sum: usize = (0..s.len()).map(|i| b.queen_cost(i)).sum();
        assert_eq!(sum, total);
        let mut pairs = 0;
        for i in 0..s.len() {
            for j in (i + 1)..s.len() {
                if s[i] == s[j] || s[i].abs_diff(s[j]) == j - i {
                    pairs += 1;
                }
            }
        }
        assert_eq!(total, 2 * pairs);
    }
}

#[test]
fn conflicts_are_symmetric() {
    let b = board(&[2, 0, 2, 4, 1, 3]);
    let total_left: usize = (0..6).map(|i| b.cost_of(i).1).sum();
    let total_right: usize = (0..6).map(|i| b.cost_of(i).2).sum();
    let total_column: usize = (0..6).map(|i| b.cost_of(i).0).sum();
    assert_eq!(total_left, total_right);
    assert_eq!(total_column % 2, 0);
    // Queens 0 and 2 share column 2, and queen 2 sees queen 0 as well.
    assert_eq!(b.cost_of(0).0, 1);
    assert_eq!(b.cost_of(2).0, 1);
}

#[test]
fn worst_queens_are_all_tied_on_one_column() {
    let b = board(&[0, 0, 0, 0]);
    assert_eq!(b.worst_queens(), vec![0, 1, 2, 3]);
}

#[test]
fn worst_queens_picks_the_maximum() {
    let b = board(&[3, 2, 0, 0]);
    assert_eq!(b.worst_queens(), vec![3]);
    let b = board(&[0, 1, 3, 0]);
    // Costs: queen 0 has 2, queen 1 has 1, queen 2 has 0, queen 3 has 1.
    assert_eq!(b.queen_cost(0), 2);
    assert_eq!(b.worst_queens(), vec![0]);
}

#[test]
fn best_columns_exclude_the_current_one() {
    let b = board(&[0, 0, 0, 0]);
    assert_eq!(b.best_columns(0), vec![1, 2, 3]);
    assert_eq!(b.best_columns(1), vec![3]);
}

#[test]
fn step_on_one_column_reduces_cost() {
    let mut b = board(&[0, 0, 0, 0]);
    let before = b.overall_cost();
    assert_eq!(before, 12);
    let after = b.step();
    assert!(after < before);
    assert_eq!(after, b.overall_cost());
    let moved: Vec<usize> = (0..4).filter(|&i| b.queens()[i] != 0).collect();
    assert_eq!(moved.len(), 1);
    let w = moved[0];
    assert!(b.queen_cost(w) < 3);
    assert_eq!(b.history_len(), 1);
}

#[test]
fn step_with_applies_the_given_move() {
    let mut b = board(&[0, 0, 0, 0]);
    let cost = b.step_with(0, 2, 3, 3);
    assert_eq!(b.queens(), &[2, 0, 0, 0][..]);
    assert_eq!(cost, 8);
    assert_eq!(b.history_len(), 1);
}

#[test]
fn step_with_perturbs_a_revisited_board() {
    let mut b = board(&[0, 0, 0, 0]);
    b.step_with(0, 2, 0, 0);
    b.step_with(0, 0, 0, 0);
    assert_eq!(b.queens(), &[0, 0, 0, 0][..]);
    assert_eq!(b.history_len(), 2);
    // The board is in the history: row 3 goes to column 1, then queen 1 moves.
    let cost = b.step_with(1, 3, 3, 1);
    assert_eq!(b.queens(), &[0, 3, 0, 1][..]);
    assert_eq!(b.history_len(), 2);
    assert_eq!(cost, b.overall_cost());
}

#[test]
fn step_on_a_solution_still_moves_a_queen() {
    let mut b = board(&[1, 3, 0, 2]);
    b.step();
    assert_eq!(b.history_len(), 1);
    let changed = (0..4).filter(|&i| b.queens()[i] != [1, 3, 0, 2][i]).count();
    assert_eq!(changed, 1);
}

#[test]
fn random_state_clears_history_and_stays_on_board() {
    for n in [4usize, 5, 9, 16] {
        let mut b = NQueens::new(n).unwrap();
        b.step();
        b.step();
        let b = b.into_random_state();
        assert_eq!(b.history_len(), 0);
        assert_eq!(b.queens().len(), n);
        assert!(b.queens().iter().all(|&c| c < n));
    }
}

#[test]
fn random_state_varies() {
    let mut seen = std::collections::HashSet::new();
    for _ in 0..20 {
        let b = NQueens::new(10).unwrap().into_random_state();
        seen.insert(b.queens().to_vec());
    }
    assert!(seen.len() > 1);
}

#[test]
fn eight_queens_are_solved() {
    let mut b = NQueens::new(8).unwrap().into_random_state();
    let mut iterations = 0;
    while b.step() != 0 {
        iterations += 1;
        assert!(iterations < 10_000);
    }
    assert_eq!(b.overall_cost(), 0);
    let q = b.queens();
    for i in 0..8 {
        for j in 0..8 {
            if i != j {
                assert_ne!(q[i], q[j]);
                assert_ne!(q[i].abs_diff(q[j]), i.abs_diff(j));
            }
        }
    }
}

#[test]
fn ten_queens_from_one_column_are_solved() {
    let mut b = board(&[0; 10]);
    let mut iterations = 0;
    while b.step() != 0 {
        iterations += 1;
        assert!(iterations < 10_000);
    }
    assert_eq!(b.overall_cost(), 0);
}

#[test]
fn render_plain() {
    let b = board(&[1, 3, 0, 2]);
    assert_eq!(b.render(), ". * . . \n. . . * \n* . . . \n. . * . ");
}

#[test]
fn render_verbose() {
    let b = board(&[0, 1, 3, 3]).with_verbose(true);
    let expected = "* . . .  | ld: 0 rd: 2 cc: 0 | tt: 2\n\
                    . * . .  | ld: 1 rd: 1 cc: 0 | tt: 2\n\
                    . . . *  | ld: 0 rd: 0 cc: 1 | tt: 1\n\
                    . . . *  | ld: 2 rd: 0 cc: 1 | tt: 3";
    assert_eq!(b.render(), expected);
}

#[test]
fn render_verbose_two_digit_costs() {
    let b = board(&[0; 12]).with_verbose(true);
    let text = b.render();
    let first = text.lines().next().unwrap();
    assert_eq!(first, "* . . . . . . . . . . .  | ld: 0 rd: 0 cc:11 | tt:11");
    assert_eq!(text.lines().count(), 12);
}

#[test]
fn set_state_failure_leaves_board_untouched() {
    let mut b = board(&[0, 0, 0, 0]);
    b.step_with(0, 2, 0, 0);
    assert_eq!(b.set_state(&[1, 2]), Err(BoardError::SizeMismatch));
    assert_eq!(b.queens(), &[2, 0, 0, 0][..]);
    assert_eq!(b.history_len(), 1);
    assert_eq!(b.set_state(&[1, 2, 9, 0]), Err(BoardError::OutOfRange));
    assert_eq!(b.queens(), &[2, 0, 0, 0][..]);
    assert_eq!(b.history_len(), 1);
    assert_eq!(b.set_state(&[1, 3, 0, 2]), Ok(()));
    assert_eq!(b.queens(), &[1, 3, 0, 2][..]);
    assert_eq!(b.history_len(), 0);
}

#[test]
fn with_draws_reduces_each_draw_modulo_size() {
    let mut b = board(&[0, 0, 0, 0, 0]);
    b.step();
    let b = b.with_draws(&[7, 0, 14, usize::MAX, 3]);
    assert_eq!(b.queens(), &[2, 0, 4, usize::MAX % 5, 3][..]);
    assert_eq!(b.history_len(), 0);
}
