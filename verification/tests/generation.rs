//! Move-generation behaviour: ray casting, leapers, and the pawn rules.

use chess_engine::board::Board;
use chess_engine::pieces::{Color, Kind, Piece, Square};

fn sq(x: u8, y: u8) -> Square {
    Square { x, y }
}

fn piece(color: Color, kind: Kind, x: u8, y: u8) -> Piece {
    Piece { color, kind, position: sq(x, y) }
}

fn board_with(pieces: &[Piece]) -> Board {
    let mut b = Board::new();
    for p in pieces {
        assert!(b.spawn(*p), "square already taken or off the board");
    }
    b
}

#[test]
fn rook_on_empty_board_has_fourteen_candidates() {
    let rook = piece(Color::White, Kind::Rook, 0, 0);
    let b = board_with(&[rook]);
    let moves = rook.get_valid_moves(&b);
    assert_eq!(moves.len(), 14);
    for k in 1..8u8 {
        assert!(moves.contains(&sq(0, k)));
        assert!(moves.contains(&sq(k, 0)));
    }
}

#[test]
fn rook_ray_stops_on_enemy_inclusively() {
    let rook = piece(Color::White, Kind::Rook, 0, 0);
    let b = board_with(&[rook, piece(Color::Black, Kind::Pawn, 0, 3)]);
    let moves = rook.get_valid_moves(&b);
    // Vertical ray trimmed to (0,1), (0,2), (0,3); horizontal ray untouched.
    assert!(moves.contains(&sq(0, 1)));
    assert!(moves.contains(&sq(0, 2)));
    assert!(moves.contains(&sq(0, 3)));
    assert!(!moves.contains(&sq(0, 4)));
    assert!(!moves.contains(&sq(0, 7)));
    for k in 1..8u8 {
        assert!(moves.contains(&sq(k, 0)));
    }
    assert_eq!(moves.len(), 10);
}

#[test]
fn rook_ray_stops_before_own_piece() {
    let rook = piece(Color::White, Kind::Rook, 0, 0);
    let b = board_with(&[rook, piece(Color::White, Kind::Pawn, 0, 3)]);
    let moves = rook.get_valid_moves(&b);
    assert!(moves.contains(&sq(0, 1)));
    assert!(moves.contains(&sq(0, 2)));
    assert!(!moves.contains(&sq(0, 3)));
    assert_eq!(moves.len(), 9);
}

#[test]
fn white_pawn_double_step_from_start() {
    let pawn = piece(Color::White, Kind::Pawn, 0, 1);
    let b = board_with(&[pawn]);
    let moves = pawn.get_valid_moves(&b);
    assert_eq!(moves.len(), 2);
    assert!(moves.contains(&sq(0, 2)));
    assert!(moves.contains(&sq(0, 3)));
}

#[test]
fn blocked_pawn_offers_no_forward_moves() {
    let pawn = piece(Color::White, Kind::Pawn, 0, 1);
    let b = board_with(&[pawn, piece(Color::Black, Kind::Rook, 0, 2)]);
    let moves = pawn.get_valid_moves(&b);
    // The double step is suppressed together with the single step, even
    // though (0,3) itself is empty.
    assert!(moves.is_empty());
}

#[test]
fn blocked_pawn_still_captures_diagonally() {
    let pawn = piece(Color::White, Kind::Pawn, 0, 1);
    let b = board_with(&[
        pawn,
        piece(Color::Black, Kind::Rook, 0, 2),
        piece(Color::Black, Kind::Knight, 1, 2),
    ]);
    let moves = pawn.get_valid_moves(&b);
    assert_eq!(moves.len(), 1);
    assert!(moves.contains(&sq(1, 2)));
}

#[test]
fn pawn_diagonal_needs_an_enemy() {
    let pawn = piece(Color::White, Kind::Pawn, 4, 4);
    let b = board_with(&[
        pawn,
        piece(Color::White, Kind::Knight, 3, 5),
        piece(Color::Black, Kind::Knight, 5, 5),
    ]);
    let moves = pawn.get_valid_moves(&b);
    assert!(moves.contains(&sq(4, 5)));
    assert!(moves.contains(&sq(5, 5)));
    assert!(!moves.contains(&sq(3, 5)));
    assert_eq!(moves.len(), 2);
}

#[test]
fn black_pawn_advances_toward_lower_ranks() {
    let pawn = piece(Color::Black, Kind::Pawn, 0, 6);
    let b = board_with(&[pawn]);
    let moves = pawn.get_valid_moves(&b);
    assert_eq!(moves.len(), 2);
    assert!(moves.contains(&sq(0, 5)));
    assert!(moves.contains(&sq(0, 4)));
}

#[test]
fn pawn_on_last_rank_has_no_moves() {
    let pawn = piece(Color::White, Kind::Pawn, 3, 7);
    let b = board_with(&[pawn]);
    let moves = pawn.get_valid_moves(&b);
    assert!(moves.is_empty());
}

#[test]
fn knight_near_corner_has_three_leaps() {
    let knight = piece(Color::White, Kind::Knight, 1, 0);
    let b = board_with(&[knight]);
    let moves = knight.get_valid_moves(&b);
    assert_eq!(moves.len(), 3);
    assert!(moves.contains(&sq(0, 2)));
    assert!(moves.contains(&sq(2, 2)));
    assert!(moves.contains(&sq(3, 1)));
}

#[test]
fn knight_leaps_over_blockers() {
    let knight = piece(Color::White, Kind::Knight, 1, 0);
    let b = board_with(&[
        knight,
        piece(Color::White, Kind::Pawn, 1, 1),
        piece(Color::Black, Kind::Pawn, 1, 2),
        piece(Color::White, Kind::Pawn, 2, 1),
    ]);
    let moves = knight.get_valid_moves(&b);
    assert_eq!(moves.len(), 3);
    assert!(moves.contains(&sq(0, 2)));
    assert!(moves.contains(&sq(2, 2)));
    assert!(moves.contains(&sq(3, 1)));
}

#[test]
fn king_in_center_has_eight_distinct_moves() {
    let king = piece(Color::White, Kind::King, 4, 4);
    let b = board_with(&[king]);
    let moves = king.get_valid_moves(&b);
    assert_eq!(moves.len(), 8);
}

#[test]
fn king_in_corner_has_three_moves() {
    let king = piece(Color::Black, Kind::King, 0, 0);
    let b = board_with(&[king]);
    let moves = king.get_valid_moves(&b);
    assert_eq!(moves.len(), 3);
    assert!(moves.contains(&sq(0, 1)));
    assert!(moves.contains(&sq(1, 0)));
    assert!(moves.contains(&sq(1, 1)));
}

#[test]
fn king_steps_onto_enemy_but_not_own_piece() {
    let king = piece(Color::White, Kind::King, 0, 0);
    let b = board_with(&[
        king,
        piece(Color::White, Kind::Pawn, 0, 1),
        piece(Color::Black, Kind::Pawn, 1, 1),
    ]);
    let moves = king.get_valid_moves(&b);
    assert_eq!(moves.len(), 2);
    assert!(moves.contains(&sq(1, 0)));
    assert!(moves.contains(&sq(1, 1)));
}

#[test]
fn queen_in_center_unions_rook_and_bishop_rays() {
    let queen = piece(Color::Black, Kind::Queen, 3, 3);
    let b = board_with(&[queen]);
    let moves = queen.get_valid_moves(&b);
    assert_eq!(moves.len(), 27);
    assert!(moves.contains(&sq(3, 7)));
    assert!(moves.contains(&sq(7, 3)));
    assert!(moves.contains(&sq(7, 7)));
    assert!(moves.contains(&sq(0, 0)));
    assert!(moves.contains(&sq(0, 6)));
    assert!(moves.contains(&sq(6, 0)));
}

#[test]
fn bishop_stays_on_diagonals_and_respects_blockers() {
    let bishop = piece(Color::White, Kind::Bishop, 2, 0);
    let b = board_with(&[bishop, piece(Color::White, Kind::Pawn, 4, 2)]);
    let moves = bishop.get_valid_moves(&b);
    assert!(moves.contains(&sq(3, 1)));
    assert!(!moves.contains(&sq(4, 2)));
    assert!(moves.contains(&sq(1, 1)));
    assert!(moves.contains(&sq(0, 2)));
    assert!(!moves.contains(&sq(2, 1)));
    assert_eq!(moves.len(), 3);
}

#[test]
fn candidates_stay_on_board_and_off_own_pieces() {
    let b = Board::starting();
    let pieces = b.all_pieces().clone();
    for p in &pieces {
        for m in p.get_valid_moves(&b) {
            assert!(m.x < 8 && m.y < 8);
            if let Some(q) = b.piece_at(m) {
                assert_ne!(q.color, p.color);
            }
            assert_ne!(m, p.position);
        }
    }
}
