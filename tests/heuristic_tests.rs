use tic_tac_toe::board::Board;
use tic_tac_toe::heuristics::{NEAR_WIN_BONUS, NEAR_WIN_PENALTY};
use tic_tac_toe::player::Player;

fn board_with(n: u32, moves: &[u32]) -> Board {
    let mut b = Board::create_board(n);
    for &m in moves {
        b.make_move(m).unwrap();
    }
    b
}

#[test]
fn line_potential_of_centre() {
    let b = board_with(3, &[4]);
    assert_eq!(b.lines_heuristic(Player::X), 4);
    assert_eq!(b.lines_heuristic(Player::O), -4);
    assert_eq!(Board::create_board(4).lines_heuristic(Player::X), 0);
}

#[test]
fn line_potential_on_larger_board() {
    // X in a corner of a 5x5 board touches its row, its column and a diagonal.
    let b = board_with(5, &[0]);
    assert_eq!(b.lines_heuristic(Player::X), 3);
    // O then takes the centre: its row, its column and both diagonals, one of
    // which X shares.
    let b = board_with(5, &[0, 12]);
    assert_eq!(b.lines_heuristic(Player::X), 8 - 9);
}

#[test]
fn near_win_rewards_own_and_punishes_other() {
    let b = board_with(3, &[0, 4, 1]);
    assert_eq!(b.better_heuristic(Player::X), NEAR_WIN_BONUS);
    assert_eq!(b.better_heuristic(Player::O), -NEAR_WIN_PENALTY);
    assert_eq!(NEAR_WIN_BONUS, 5);
    assert_eq!(NEAR_WIN_PENALTY, 100);
}

#[test]
fn near_win_ignores_blocked_lines() {
    // X: 0 1, O: 2 -> the top row is blocked; X still threatens nothing else.
    let b = board_with(3, &[0, 2, 1]);
    assert_eq!(b.better_heuristic(Player::X), 0);
    assert_eq!(Board::create_board(3).better_heuristic(Player::X), 0);
}

#[test]
fn sorted_children_put_best_key_first() {
    let b = board_with(3, &[0, 4, 1]);
    let kids = b.generate_sorted_lines_heuristic();
    assert_eq!(kids.len(), 6);
    let keys: Vec<i32> = kids.iter().map(|k| k.lines_heuristic(Player::O)).collect();
    for w in keys.windows(2) {
        assert!(w[0] >= w[1]);
    }
    let near = b.generate_own_heuristic();
    assert_eq!(near.len(), 6);
    // Blocking at 2 is the only move that clears the penalty.
    assert_eq!(*near[0].moves.last().unwrap(), 2);
    let keys: Vec<i32> = near.iter().map(|k| k.better_heuristic(Player::O)).collect();
    for w in keys.windows(2) {
        assert!(w[0] >= w[1]);
    }
}

#[test]
fn equal_keys_keep_ascending_moves() {
    // On the empty board every corner scores alike, as do the edges.
    let b = Board::create_board(3);
    let kids = b.generate_sorted_lines_heuristic();
    let order: Vec<u32> = kids.iter().map(|k| *k.moves.last().unwrap()).collect();
    assert_eq!(order, vec![4, 0, 2, 6, 8, 1, 3, 5, 7]);
    let near = b.generate_own_heuristic();
    let order: Vec<u32> = near.iter().map(|k| *k.moves.last().unwrap()).collect();
    assert_eq!(order, vec![0, 1, 2, 3, 4, 5, 6, 7, 8]);
}
