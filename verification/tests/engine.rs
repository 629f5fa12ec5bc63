//! Game-level behaviour: setup, the selection state machine, turn taking,
//! capture, and the occupancy invariant.

use chess_engine::board::Board;
use chess_engine::game::Game;
use chess_engine::pieces::{spawn_pieces, Color, Kind, Piece, Square};

fn sq(x: u8, y: u8) -> Square {
    Square { x, y }
}

fn piece(color: Color, kind: Kind, x: u8, y: u8) -> Piece {
    Piece { color, kind, position: sq(x, y) }
}

fn board_with(pieces: &[Piece]) -> Board {
    let mut b = Board::new();
    for p in pieces {
        assert!(b.spawn(*p), "square already taken or off the board");
    }
    b
}

fn assert_distinct_positions(b: &Board) {
    let pieces = b.all_pieces();
    for i in 0..pieces.len() {
        for j in (i + 1)..pieces.len() {
            assert_ne!(pieces[i].position, pieces[j].position);
        }
    }
}

#[test]
fn initial_position_has_the_standard_arrangement() {
    let g = Game::new();
    assert_eq!(g.active_color(), Color::White);
    assert_eq!(g.board().all_pieces().len(), 32);
    let b = g.board();
    assert_eq!(b.piece_at(sq(0, 0)), Some(piece(Color::White, Kind::Rook, 0, 0)));
    assert_eq!(b.piece_at(sq(4, 0)), Some(piece(Color::White, Kind::King, 4, 0)));
    assert_eq!(b.piece_at(sq(3, 0)), Some(piece(Color::White, Kind::Queen, 3, 0)));
    assert_eq!(b.piece_at(sq(6, 7)), Some(piece(Color::Black, Kind::Knight, 6, 7)));
    assert_eq!(b.piece_at(sq(2, 7)), Some(piece(Color::Black, Kind::Bishop, 2, 7)));
    for x in 0..8u8 {
        assert_eq!(b.piece_at(sq(x, 1)), Some(piece(Color::White, Kind::Pawn, x, 1)));
        assert_eq!(b.piece_at(sq(x, 6)), Some(piece(Color::Black, Kind::Pawn, x, 6)));
        for y in 2..6u8 {
            assert_eq!(b.piece_at(sq(x, y)), None);
        }
    }
    assert_distinct_positions(b);
}

#[test]
fn spawn_pieces_builds_all_thirty_two() {
    let v = spawn_pieces();
    assert_eq!(v.len(), 32);
    assert_eq!(v.iter().filter(|p| p.color == Color::White).count(), 16);
    assert_eq!(v.iter().filter(|p| p.kind == Kind::Pawn).count(), 16);
    assert_eq!(v.iter().filter(|p| p.kind == Kind::King).count(), 2);
}

#[test]
fn spawn_rejects_taken_and_off_board_squares() {
    let mut b = Board::new();
    assert!(b.spawn(piece(Color::White, Kind::Rook, 0, 0)));
    assert!(!b.spawn(piece(Color::Black, Kind::Rook, 0, 0)));
    assert!(!b.spawn(piece(Color::White, Kind::Pawn, 8, 0)));
    assert!(!b.spawn(piece(Color::White, Kind::Pawn, 0, 200)));
    assert_eq!(b.all_pieces().len(), 1);
}

#[test]
fn piece_at_is_empty_off_the_board() {
    let b = Board::starting();
    assert_eq!(b.piece_at(sq(8, 0)), None);
    assert_eq!(b.piece_at(sq(0, 8)), None);
    assert_eq!(b.piece_at(sq(255, 255)), None);
}

#[test]
fn successful_move_toggles_the_turn() {
    let mut g = Game::new();
    g.pick(sq(4, 1));
    assert_eq!(g.selected_piece(), Some(piece(Color::White, Kind::Pawn, 4, 1)));
    g.release(sq(4, 3));
    assert_eq!(g.active_color(), Color::Black);
    assert_eq!(g.selected_piece(), None);
}

#[test]
fn illegal_release_leaves_the_turn_and_board_alone() {
    let mut g = Game::new();
    g.pick(sq(4, 1));
    g.release(sq(4, 4));
    assert_eq!(g.active_color(), Color::White);
    assert_eq!(g.selected_piece(), None);
    assert_eq!(g.board().piece_at(sq(4, 1)), Some(piece(Color::White, Kind::Pawn, 4, 1)));
    assert_eq!(g.board().all_pieces().len(), 32);
}

#[test]
fn picking_an_empty_square_is_a_noop() {
    let mut g = Game::new();
    g.pick(sq(4, 4));
    assert_eq!(g.selected_piece(), None);
}

#[test]
fn picking_an_opponent_piece_is_a_noop() {
    let mut g = Game::new();
    g.pick(sq(4, 6));
    assert_eq!(g.selected_piece(), None);
}

#[test]
fn picking_while_selected_keeps_the_first_selection() {
    let mut g = Game::new();
    g.pick(sq(4, 1));
    g.pick(sq(0, 1));
    assert_eq!(g.selected_piece(), Some(piece(Color::White, Kind::Pawn, 4, 1)));
}

#[test]
fn releasing_while_idle_changes_nothing() {
    let mut g = Game::new();
    g.release(sq(4, 3));
    assert_eq!(g.active_color(), Color::White);
    assert_eq!(g.board().all_pieces().len(), 32);
    assert_eq!(g.board().piece_at(sq(4, 3)), None);
}

#[test]
fn off_board_squares_are_treated_as_empty() {
    let mut g = Game::new();
    g.pick(sq(9, 9));
    assert_eq!(g.selected_piece(), None);
    g.pick(sq(4, 1));
    g.release(sq(9, 9));
    assert_eq!(g.active_color(), Color::White);
    assert_eq!(g.board().all_pieces().len(), 32);
}

#[test]
fn capture_removes_the_captured_piece() {
    let b = board_with(&[
        piece(Color::White, Kind::Rook, 0, 0),
        piece(Color::Black, Kind::Pawn, 0, 3),
    ]);
    let mut g = Game::with_board(b, Color::White);
    g.pick(sq(0, 0));
    g.release(sq(0, 3));
    assert_eq!(g.active_color(), Color::Black);
    assert_eq!(g.board().all_pieces().len(), 1);
    assert_eq!(g.board().piece_at(sq(0, 3)), Some(piece(Color::White, Kind::Rook, 0, 3)));
    assert_eq!(g.board().piece_at(sq(0, 0)), None);
}

#[test]
fn own_color_squares_are_never_reachable() {
    let b = board_with(&[
        piece(Color::White, Kind::Rook, 0, 0),
        piece(Color::White, Kind::Pawn, 0, 3),
    ]);
    let rook = piece(Color::White, Kind::Rook, 0, 0);
    assert!(!rook.get_valid_moves(&b).contains(&sq(0, 3)));
    let mut g = Game::with_board(b, Color::White);
    g.pick(sq(0, 0));
    g.release(sq(0, 3));
    assert_eq!(g.active_color(), Color::White);
    assert_eq!(g.board().all_pieces().len(), 2);
    assert_eq!(g.board().piece_at(sq(0, 3)), Some(piece(Color::White, Kind::Pawn, 0, 3)));
}

#[test]
fn opening_move_end_to_end() {
    let mut g = Game::new();
    g.pick(sq(4, 1));
    g.release(sq(4, 3));
    assert_eq!(g.board().piece_at(sq(4, 3)), Some(piece(Color::White, Kind::Pawn, 4, 3)));
    assert_eq!(g.board().piece_at(sq(4, 1)), None);
    assert_eq!(g.active_color(), Color::Black);
    assert_eq!(g.board().all_pieces().len(), 32);
}

#[test]
fn occupancy_stays_distinct_through_a_sequence_of_moves() {
    let mut g = Game::new();
    assert_distinct_positions(g.board());
    // White pawn out, Black pawn out, White captures it.
    g.pick(sq(4, 1));
    g.release(sq(4, 3));
    assert_distinct_positions(g.board());
    g.pick(sq(3, 6));
    g.release(sq(3, 4));
    assert_distinct_positions(g.board());
    g.pick(sq(4, 3));
    g.release(sq(3, 4));
    assert_distinct_positions(g.board());
    assert_eq!(g.board().all_pieces().len(), 31);
    assert_eq!(g.board().piece_at(sq(3, 4)), Some(piece(Color::White, Kind::Pawn, 3, 4)));
    assert_eq!(g.active_color(), Color::Black);
}
