use tic_tac_toe::board::Board;
use tic_tac_toe::game::Game;
use tic_tac_toe::player::{Field, GameResult, Player};
use tic_tac_toe::search::{
    alpha_beta, alpha_beta_h1, alpha_beta_h2, alpha_beta_lookup, alpha_beta_lookup_sym,
    alpha_beta_lookup_sym_h1, alpha_beta_lookup_sym_h2, min_max, min_max_lookup, search, Strategy,
};
use tic_tac_toe::table::{check_for_rotation, TranspositionTable};

fn board_with(n: u32, moves: &[u32]) -> Board {
    let mut b = Board::create_board(n);
    for &m in moves {
        b.make_move(m).unwrap();
    }
    b
}

fn low() -> GameResult {
    GameResult::Player(Player::O)
}

fn high() -> GameResult {
    GameResult::Player(Player::X)
}

#[test]
fn empty_three_by_three_is_a_draw_under_every_search() {
    let mut b = Board::create_board(3);
    let mm = min_max(&mut b, Player::X);
    assert_eq!(mm.result, GameResult::Draw);
    assert_eq!(mm.visited, 549946);
    let ab = alpha_beta(&mut b, low(), high(), Player::X);
    assert_eq!(ab.result, GameResult::Draw);
    assert!(ab.visited <= mm.visited);
    assert_eq!(alpha_beta_h1(&mut b, low(), high(), Player::X).result, GameResult::Draw);
    assert_eq!(alpha_beta_h2(&mut b, low(), high(), Player::X).result, GameResult::Draw);
    let mut t = TranspositionTable::new(3);
    assert_eq!(alpha_beta_lookup(&mut b, low(), high(), Player::X, &mut t).result, GameResult::Draw);
    let mut t = TranspositionTable::new(3);
    assert_eq!(min_max_lookup(&mut b, Player::X, &mut t).result, GameResult::Draw);
    let mut t = TranspositionTable::new(3);
    assert_eq!(alpha_beta_lookup_sym(&mut b, low(), high(), Player::X, &mut t).result, GameResult::Draw);
    assert!(b.moves.is_empty());
    assert!(b.fields.iter().all(|f| *f == Field::Free));
    assert_eq!(b.player_turn, Player::X);
}

#[test]
fn every_strategy_agrees_on_empty_board() {
    for strategy in [
        Strategy::Minimax,
        Strategy::AlphaBeta,
        Strategy::AlphaBetaCached,
        Strategy::AlphaBetaCachedSymmetric,
    ] {
        let mut b = Board::create_board(3);
        assert_eq!(search(&mut b, strategy, Player::X).result, GameResult::Draw);
    }
}

#[test]
fn two_by_two_is_won_by_first_player() {
    let mut b = Board::create_board(2);
    assert_eq!(min_max(&mut b, Player::X).result, high());
    assert_eq!(alpha_beta(&mut b, low(), high(), Player::X).result, high());
    let mut t = TranspositionTable::new(2);
    assert_eq!(alpha_beta_lookup(&mut b, low(), high(), Player::X, &mut t).result, high());
}

#[test]
fn pruning_keeps_value_and_visits_no_more() {
    let positions: [&[u32]; 5] = [&[], &[4], &[0, 4], &[0, 3, 1], &[4, 0, 8, 2]];
    for moves in positions {
        let mut b = board_with(3, moves);
        let side = b.player_turn;
        let mm = min_max(&mut b, side);
        let ab = alpha_beta(&mut b, low(), high(), side);
        assert_eq!(ab.result, mm.result);
        assert!(ab.visited <= mm.visited);
        assert_eq!(alpha_beta_h1(&mut b, low(), high(), side).result, mm.result);
        assert_eq!(alpha_beta_h2(&mut b, low(), high(), side).result, mm.result);
    }
}

#[test]
fn table_keeps_value_and_evaluates_no_more() {
    let positions: [&[u32]; 4] = [&[], &[4], &[0, 3, 1], &[4, 0, 8, 2]];
    for moves in positions {
        let mut b = board_with(3, moves);
        let side = b.player_turn;
        let ab = alpha_beta(&mut b, low(), high(), side);
        let mut t = TranspositionTable::new(3);
        let cached = alpha_beta_lookup(&mut b, low(), high(), side, &mut t);
        assert_eq!(cached.result, ab.result);
        assert!(cached.visited <= ab.visited);
        assert!(!t.entries.is_empty());
        let mut t2 = TranspositionTable::new(3);
        assert_eq!(min_max_lookup(&mut b, side, &mut t2).result, ab.result);
    }
}

#[test]
fn four_by_four_endgame_values_agree() {
    // X: 0 5 10 12 14 ; O: 1 2 3 6 11 ; X to move... O to move after ten plies is X.
    let mut b = board_with(4, &[0, 1, 5, 2, 10, 3, 12, 6, 14, 11]);
    let side = b.player_turn;
    let mm = min_max(&mut b, side);
    let ab = alpha_beta(&mut b, low(), high(), side);
    assert_eq!(ab.result, mm.result);
    let mut t = TranspositionTable::new(4);
    assert_eq!(alpha_beta_lookup(&mut b, low(), high(), side, &mut t).result, mm.result);
    let mut t = TranspositionTable::new(4);
    let sym = alpha_beta_lookup_sym_h1(&mut b, low(), high(), side, &mut t);
    assert_eq!(sym.result, mm.result);
    let mut t = TranspositionTable::new(4);
    assert_eq!(alpha_beta_lookup_sym_h2(&mut b, low(), high(), side, &mut t).result, mm.result);
}

#[test]
fn completing_own_line_is_chosen() {
    // X holds 0 and 1, O holds 3 and 4, X to move.
    let b = board_with(3, &[0, 3, 1, 4]);
    assert_eq!(b.player_turn, Player::X);
    assert_eq!(b.find_best_move(), 2);
    assert_eq!(b.find_best_move_alfa_beta(), 2);
    assert_eq!(b.find_best_move_lookup(), 2);
}

#[test]
fn blocking_move_is_chosen_for_second_player() {
    // X holds 0 and 1, O holds 4, O to move: only 2 saves the game.
    let b = board_with(3, &[0, 4, 1]);
    assert_eq!(b.player_turn, Player::O);
    assert_eq!(b.find_best_move(), 2);
    assert_eq!(b.find_best_move_alfa_beta(), 2);
}

#[test]
fn equal_moves_keep_lowest_index() {
    let b = Board::create_board(3);
    assert_eq!(b.find_best_move_alfa_beta(), 0);
}

#[test]
fn rotated_position_is_found_in_table() {
    let seed = board_with(3, &[0, 4, 1]);
    let mut t = TranspositionTable::new(3);
    t.store(&seed, GameResult::Draw);
    let mut turned = seed.rot90board();
    for _ in 0..3 {
        assert_eq!(check_for_rotation(&turned, &t), Some(GameResult::Draw));
        turned = turned.rot90board();
    }
    assert_eq!(check_for_rotation(&seed, &t), Some(GameResult::Draw));
    assert!(t.lookup(&seed.rot90board()).is_none());
    let other = board_with(3, &[0, 4, 2]);
    assert_eq!(check_for_rotation(&other, &t), None);
}

#[test]
fn game_plays_best_and_random_moves() {
    let mut g = Game::new(3);
    assert_eq!(g.winner, GameResult::InProgress);
    g.make_best_move_a_b();
    assert_eq!(g.board.moves, vec![0]);
    assert_eq!(g.board.player_turn, Player::O);
    g.make_rand_move();
    assert_eq!(g.board.moves.len(), 2);
    let last = *g.board.moves.last().unwrap() as usize;
    assert_eq!(g.board.fields[last], Field::Player(Player::O));
    assert_ne!(last, 0);
    g.make_best_move_lookup();
    assert_eq!(g.board.moves.len(), 3);
    g.next_player();
    assert_eq!(g.board.player_turn, Player::X);
    assert_eq!(g.board.moves.len(), 3);
}

#[test]
fn random_moves_fill_small_board() {
    let mut g = Game::new(2);
    for k in 0..4 {
        g.make_rand_move();
        assert_eq!(g.board.moves.len(), k + 1);
    }
    assert!(g.board.legal_moves().is_empty());
    let mut seen: Vec<u32> = g.board.moves.clone();
    seen.sort();
    assert_eq!(seen, vec![0, 1, 2, 3]);
}

#[test]
fn plain_minimax_move_matches_pruned_choice() {
    let mut g = Game::new(3);
    g.board.make_move(4).unwrap();
    let a = g.board.find_best_move();
    let b = g.board.find_best_move_alfa_beta();
    assert_eq!(a, b);
    g.make_best_move();
    assert_eq!(*g.board.moves.last().unwrap(), a);
}

#[test]
fn table_searches_agree_for_second_player() {
    let positions: [&[u32]; 3] = [&[4], &[0], &[0, 4, 8]];
    for moves in positions {
        let mut b = board_with(3, moves);
        let side = b.player_turn;
        let mm = min_max(&mut b, side);
        let mut t = TranspositionTable::new(3);
        let sym = alpha_beta_lookup_sym(&mut b, low(), high(), side, &mut t);
        assert_eq!(sym.result, mm.result);
        assert!(sym.visited <= mm.visited);
        let mut t = TranspositionTable::new(3);
        let cached = min_max_lookup(&mut b, side, &mut t);
        assert_eq!(cached.result, mm.result);
        assert!(cached.visited <= mm.visited);
    }
}

#[test]
fn search_for_other_side_than_the_mover() {
    // X to move, but the root is searched for O: it takes the worst of X's
    // moves for X, and a move that leaves row 3-4-5 open loses.
    let mut b = board_with(3, &[0, 3, 1, 4]);
    assert_eq!(min_max(&mut b, Player::O).result, low());
    assert_eq!(alpha_beta(&mut b, low(), high(), Player::O).result, low());
    let mut t = TranspositionTable::new(3);
    assert_eq!(alpha_beta_lookup(&mut b, low(), high(), Player::O, &mut t).result, low());
    // Searched for X, the root takes the winning move.
    assert_eq!(min_max(&mut b, Player::X).result, high());
}

#[test]
fn narrow_window_bounds_the_value() {
    // The empty board is a draw; a window above it fails low.
    let mut b = Board::create_board(3);
    let r = alpha_beta(&mut b, GameResult::Draw, high(), Player::X);
    assert!(r.result <= GameResult::Draw);
    let r = alpha_beta(&mut b, low(), GameResult::Draw, Player::X);
    assert!(r.result >= GameResult::Draw);
}

#[test]
fn table_hit_returns_entry_without_search() {
    // A position in progress, O to move, whose entry is seeded under a turn.
    let b0 = board_with(3, &[0, 4, 1]);
    let mut t = TranspositionTable::new(3);
    t.store(&b0.rot90board(), GameResult::Draw);
    let mut b = board_with(3, &[0, 4, 1]);
    let side = b.player_turn;
    let r = alpha_beta_lookup_sym(&mut b, low(), high(), side, &mut t);
    assert_eq!(r.result, GameResult::Draw);
    assert_eq!(r.visited, 0);
    assert_eq!(t.entries.len(), 1);
    // The exact-key search does not see the turned entry and searches.
    let r = alpha_beta_lookup(&mut b, low(), high(), side, &mut t);
    assert!(r.visited > 0);
    // An entry for the cells themselves is a hit for both.
    let mut exact = TranspositionTable::new(3);
    exact.store(&b0, GameResult::Player(Player::X));
    let r = alpha_beta_lookup(&mut b, low(), high(), side, &mut exact);
    assert_eq!(r.result, GameResult::Player(Player::X));
    assert_eq!(r.visited, 0);
    assert_eq!(exact.entries.len(), 1);
}

#[test]
fn table_search_keeps_old_entries() {
    let mut b = board_with(3, &[4, 0]);
    let side = b.player_turn;
    let mut t = TranspositionTable::new(3);
    let other = board_with(3, &[8, 6, 2]);
    let mut probe = other.duplicate();
    let other_side = probe.player_turn;
    let value = alpha_beta_lookup(&mut probe, low(), high(), other_side, &mut t).result;
    let kept: Vec<(u64, GameResult)> = t.entries.iter().map(|(k, v)| (*k, *v)).collect();
    alpha_beta_lookup_sym(&mut b, low(), high(), side, &mut t);
    for (k, v) in kept {
        assert_eq!(t.entries.get(&k), Some(&v));
    }
    assert_eq!(t.lookup(&other), Some(value));
}

#[test]
fn alpha_beta_counts_are_stable() {
    let mut b = Board::create_board(3);
    let first = alpha_beta(&mut b, low(), high(), Player::X);
    let second = alpha_beta(&mut b, low(), high(), Player::X);
    assert_eq!(first.visited, second.visited);
    let h1 = alpha_beta_h1(&mut b, low(), high(), Player::X);
    assert!(h1.visited <= min_max(&mut b, Player::X).visited);
}

#[test]
fn table_search_stores_searched_positions() {
    let mut b = board_with(3, &[0, 4, 1]);
    let side = b.player_turn;
    let mut t = TranspositionTable::new(3);
    let r = alpha_beta_lookup(&mut b, low(), high(), side, &mut t);
    assert_eq!(t.lookup(&b), Some(r.result));
    let mut s = TranspositionTable::new(3);
    let r = alpha_beta_lookup_sym(&mut b, low(), high(), side, &mut s);
    assert_eq!(s.lookup(&b), Some(r.result));
    let mut m = TranspositionTable::new(3);
    let r = min_max_lookup(&mut b, side, &mut m);
    assert_eq!(m.lookup(&b), Some(r.result));
}

#[test]
fn table_hit_for_any_side_and_final_positions() {
    // An entry is returned whoever is searched for.
    let b0 = board_with(3, &[0, 4, 1]);
    let mut t = TranspositionTable::new(3);
    t.store(&b0, GameResult::Draw);
    let mut b = board_with(3, &[0, 4, 1]);
    let r = alpha_beta_lookup(&mut b, low(), high(), Player::X, &mut t);
    assert_eq!(r.result, GameResult::Draw);
    assert_eq!(r.visited, 0);
    // A final position held by the table is not classified again.
    let won = board_with(3, &[0, 3, 1, 4, 2]);
    let mut t = TranspositionTable::new(3);
    t.store(&won, GameResult::Draw);
    let mut w = board_with(3, &[0, 3, 1, 4, 2]);
    let side = w.player_turn;
    let r = alpha_beta_lookup_sym(&mut w, low(), high(), side, &mut t);
    assert_eq!(r.result, GameResult::Draw);
    assert_eq!(r.visited, 0);
    assert_eq!(t.entries.len(), 1);
}

#[test]
fn game_records_winner() {
    let mut g = Game::new(3);
    assert!(!g.check_winner());
    assert_eq!(g.winner, GameResult::InProgress);
    for m in [0u32, 3, 1, 4, 2] {
        g.board.make_move(m).unwrap();
    }
    assert!(g.check_winner());
    assert_eq!(g.winner, GameResult::Player(Player::X));
}
