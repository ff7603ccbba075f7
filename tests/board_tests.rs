use tic_tac_toe::board::{line_index, Board, MoveError};
use tic_tac_toe::player::{Field, GameResult, Player};

fn board_with(n: u32, moves: &[u32]) -> Board {
    let mut b = Board::create_board(n);
    for &m in moves {
        b.make_move(m).unwrap();
    }
    b
}

fn x() -> Field {
    Field::Player(Player::X)
}

fn o() -> Field {
    Field::Player(Player::O)
}

#[test]
fn player_order_puts_x_above_o() {
    assert!(Player::X > Player::O);
    assert!(Player::O < Player::X);
    assert_eq!(Player::X.opponent(), Player::O);
    assert_eq!(Player::O.opponent(), Player::X);
}

#[test]
fn result_order_matches_outcome_scale() {
    assert!(GameResult::Player(Player::X) > GameResult::Player(Player::O));
    assert!(GameResult::Player(Player::O) < GameResult::Draw);
    assert!(GameResult::Player(Player::X) > GameResult::Draw);
    assert!(GameResult::Player(Player::X) > GameResult::InProgress);
    assert!(GameResult::Player(Player::O) < GameResult::InProgress);
    assert_ne!(GameResult::InProgress > GameResult::Draw, true);
    assert_ne!(GameResult::InProgress < GameResult::Draw, true);
    assert!(GameResult::Draw >= GameResult::InProgress);
    assert!(GameResult::Draw.beats(&GameResult::Player(Player::O)));
    assert!(!GameResult::Draw.beats(&GameResult::InProgress));
}

#[test]
fn new_board_is_empty_with_x_to_move() {
    for n in 2..=5u32 {
        let b = Board::create_board(n);
        assert_eq!(b.fields.len(), (n * n) as usize);
        assert!(b.fields.iter().all(|f| *f == Field::Free));
        assert_eq!(b.player_turn, Player::X);
        assert!(b.moves.is_empty());
        assert_eq!(b.size, n);
        assert_eq!(b.get_result(), GameResult::InProgress);
    }
}

#[test]
fn move_marks_cell_and_flips_turn() {
    let mut b = Board::create_board(3);
    assert_eq!(b.make_move(4), Ok(()));
    assert_eq!(b.fields[4], x());
    assert_eq!(b.player_turn, Player::O);
    assert_eq!(b.moves, vec![4]);
    assert_eq!(b.make_move(0), Ok(()));
    assert_eq!(b.fields[0], o());
    assert_eq!(b.player_turn, Player::X);
    assert_eq!(b.moves, vec![4, 0]);
}

#[test]
fn move_on_occupied_cell_is_refused_and_board_kept() {
    let mut b = board_with(3, &[4, 0]);
    let fields = b.fields.clone();
    let moves = b.moves.clone();
    assert_eq!(b.make_move(4), Err(MoveError::OccupiedCell));
    assert_eq!(b.fields, fields);
    assert_eq!(b.moves, moves);
    assert_eq!(b.player_turn, Player::X);
}

#[test]
fn move_out_of_range_is_refused() {
    let mut b = Board::create_board(3);
    assert_eq!(b.make_move(9), Err(MoveError::OutOfRange));
    assert_eq!(b.make_move(100), Err(MoveError::OutOfRange));
    assert!(b.moves.is_empty());
    assert!(b.fields.iter().all(|f| *f == Field::Free));
    let mut big = Board::create_board(5);
    assert_eq!(big.make_move(24), Ok(()));
    assert_eq!(big.make_move(25), Err(MoveError::OutOfRange));
}

#[test]
fn undo_on_empty_history_is_refused() {
    let mut b = Board::create_board(4);
    assert_eq!(b.undo_last_move(), Err(MoveError::NoMoveToUndo));
    assert_eq!(b.player_turn, Player::X);
}

#[test]
fn move_then_undo_restores_board() {
    let mut b = board_with(3, &[0, 8, 4]);
    let fields = b.fields.clone();
    let moves = b.moves.clone();
    let turn = b.player_turn;
    b.make_move(2).unwrap();
    assert_eq!(b.undo_last_move(), Ok(()));
    assert_eq!(b.fields, fields);
    assert_eq!(b.moves, moves);
    assert_eq!(b.moves.len(), 3);
    assert_eq!(b.player_turn, turn);
}

#[test]
fn legal_moves_and_marks_fill_board() {
    let b = board_with(4, &[0, 5, 10, 15, 3]);
    let free = b.legal_moves();
    assert_eq!(free, vec![1, 2, 4, 6, 7, 8, 9, 11, 12, 13, 14]);
    let occupied = b.fields.iter().filter(|f| **f != Field::Free).count();
    assert_eq!(free.len() + occupied, 16);
    let b2 = board_with(2, &[0]);
    assert_eq!(b2.legal_moves().len() + 1, 4);
}

#[test]
fn line_table_follows_rows_columns_diagonals() {
    assert_eq!(line_index(3, 0, 2), 2);
    assert_eq!(line_index(3, 1, 0), 3);
    assert_eq!(line_index(3, 4, 2), 7);
    assert_eq!(line_index(3, 6, 1), 4);
    assert_eq!(line_index(3, 7, 0), 2);
    assert_eq!(line_index(3, 7, 2), 6);
    assert_eq!(line_index(2, 5, 0), 1);
    assert_eq!(line_index(2, 5, 1), 2);
    assert_eq!(line_index(5, 11, 4), 20);
}

#[test]
fn result_detects_row_column_and_diagonals() {
    // X takes the top row.
    assert_eq!(board_with(3, &[0, 3, 1, 4, 2]).get_result(), GameResult::Player(Player::X));
    // O takes the middle column.
    assert_eq!(board_with(3, &[0, 1, 2, 4, 8, 7]).get_result(), GameResult::Player(Player::O));
    // X takes the main diagonal of a 4x4 board.
    assert_eq!(
        board_with(4, &[0, 1, 5, 2, 10, 3, 15]).get_result(),
        GameResult::Player(Player::X)
    );
    // X takes the anti-diagonal of a 3x3 board.
    assert_eq!(board_with(3, &[2, 0, 4, 1, 6]).get_result(), GameResult::Player(Player::X));
    // Any two cells of a 2x2 board form a line.
    assert_eq!(board_with(2, &[1, 0, 2]).get_result(), GameResult::Player(Player::X));
}

#[test]
fn full_board_without_line_is_draw() {
    // X O X / X O O / O X X
    let b = board_with(3, &[0, 1, 2, 4, 3, 5, 7, 6, 8]);
    assert_eq!(b.get_result(), GameResult::Draw);
    assert!(b.legal_moves().is_empty());
    let partial = board_with(3, &[0, 1, 2, 4, 3, 5, 7, 6]);
    assert_eq!(partial.get_result(), GameResult::InProgress);
}

#[test]
fn rotation_turns_cells_and_keeps_history() {
    let b = board_with(3, &[0, 1, 5]);
    let r = b.rot90board();
    // (0,0) -> (0,2), (0,1) -> (1,2), (1,2) -> (2,1)
    assert_eq!(r.fields[2], x());
    assert_eq!(r.fields[5], o());
    assert_eq!(r.fields[7], x());
    assert_eq!(r.fields.iter().filter(|f| **f != Field::Free).count(), 3);
    assert_eq!(r.moves, b.moves);
    assert_eq!(r.player_turn, b.player_turn);
    let back = r.rot90board().rot90board().rot90board();
    assert_eq!(back.fields, b.fields);
}

#[test]
fn generated_children_follow_index_order() {
    let b = board_with(3, &[4]);
    let kids = b.generate_moves();
    assert_eq!(kids.len(), 8);
    let last: Vec<u32> = kids.iter().map(|k| *k.moves.last().unwrap()).collect();
    assert_eq!(last, vec![0, 1, 2, 3, 5, 6, 7, 8]);
    for k in &kids {
        assert_eq!(k.player_turn, Player::X);
        assert_eq!(k.fields[*k.moves.last().unwrap() as usize], o());
    }
}

#[test]
fn duplicate_copies_everything() {
    let b = board_with(4, &[3, 7, 9]);
    let d = b.duplicate();
    assert_eq!(d.fields, b.fields);
    assert_eq!(d.moves, b.moves);
    assert_eq!(d.player_turn, b.player_turn);
    assert_eq!(d.size, b.size);
}

#[test]
fn side_by_counts_follows_marks() {
    let mut b = board_with(3, &[0, 4]);
    assert_eq!(b.side_by_counts(), Player::X);
    b.make_move(8).unwrap();
    assert_eq!(b.side_by_counts(), Player::O);
}

#[test]
fn field_symbols() {
    assert_eq!(x().symbol(), 'X');
    assert_eq!(o().symbol(), 'O');
    assert_eq!(Field::Free.symbol(), ' ');
}

#[test]
fn turned_board_keeps_its_result() {
    let positions: [&[u32]; 4] = [&[0, 3, 1, 4, 2], &[2, 0, 4, 1, 6], &[0, 4], &[0, 1, 2, 4, 3, 5, 7, 6, 8]];
    for moves in positions {
        let b = board_with(3, moves);
        let r = b.rot90board();
        assert_eq!(r.get_result(), b.get_result());
        assert_eq!(r.rot90board().get_result(), b.get_result());
    }
}
