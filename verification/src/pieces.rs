//! Basic value types: squares, colors, piece kinds, pieces, and the standard
//! starting arrangement of the 32 pieces.

use vstd::prelude::*;

verus! {

/// A board cell, addressed by file (`x`) and rank (`y`).
///
/// Every square produced by a core operation lies inside `[0,7] x [0,7]`.
/// A square received from outside that range is harmless: it is treated as
/// empty and is never a candidate destination.
#[derive(Clone, Copy, Debug, PartialEq, Eq, Structural)]
pub struct Square {
    pub x: u8,
    pub y: u8,
}

/// Whether the point `(x, y)` lies on the 8x8 board.
pub open spec fn in_bounds(x: int, y: int) -> bool {
    0 <= x < 8 && 0 <= y < 8
}

impl Square {
    /// Whether this square lies on the 8x8 board.
    pub open spec fn on_board(self) -> bool {
        in_bounds(self.x as int, self.y as int)
    }
}

/// The color of a piece, and also whose turn it is.
#[derive(Clone, Copy, Debug, PartialEq, Eq, Structural)]
pub enum Color {
    Black,
    White,
}

impl Color {
    /// The other color.
    pub open spec fn opposite(self) -> Color {
        match self {
            Color::Black => Color::White,
            Color::White => Color::Black,
        }
    }

    /// Flip this color to the other one.
    pub fn switch(&mut self)
        ensures
            *final(self) == old(self).opposite(),
    {
        *self = match *self {
            Color::Black => Color::White,
            Color::White => Color::Black,
        };
    }
}

/// The six kinds of chess piece.
#[derive(Clone, Copy, Debug, PartialEq, Eq, Structural)]
pub enum Kind {
    King,
    Queen,
    Bishop,
    Knight,
    Rook,
    Pawn,
}

/// A piece: its color and kind are fixed for its lifetime, only its square
/// changes (and only through a successfully applied move).
#[derive(Clone, Copy, Debug, PartialEq, Eq, Structural)]
pub struct Piece {
    pub color: Color,
    pub kind: Kind,
    pub position: Square,
}

/// The piece `p` relocated to `to`, keeping its color and kind.
pub open spec fn moved_piece(p: Piece, to: Square) -> Piece {
    Piece { color: p.color, kind: p.kind, position: to }
}

/// The kind that starts on file `x` of each back rank: rooks in the corners,
/// then knights, then bishops, the queen on file 3 and the king on file 4.
pub open spec fn back_rank_kind(x: int) -> Kind {
    if x == 0 || x == 7 {
        Kind::Rook
    } else if x == 1 || x == 6 {
        Kind::Knight
    } else if x == 2 || x == 5 {
        Kind::Bishop
    } else if x == 3 {
        Kind::Queen
    } else {
        Kind::King
    }
}

/// Piece `i` of the starting arrangement, in the order produced by
/// [`spawn_pieces`]: the white back rank on rank 0 (indices 0..8), the white
/// pawns on rank 1 (8..16), the black pawns on rank 6 (16..24), and the black
/// back rank on rank 7 (24..32).
pub open spec fn initial_piece(i: int) -> Piece {
    if i < 8 {
        Piece {
            color: Color::White,
            kind: back_rank_kind(i),
            position: Square { x: i as u8, y: 0 },
        }
    } else if i < 16 {
        Piece { color: Color::White, kind: Kind::Pawn, position: Square { x: (i - 8) as u8, y: 1 } }
    } else if i < 24 {
        Piece { color: Color::Black, kind: Kind::Pawn, position: Square { x: (i - 16) as u8, y: 6 } }
    } else {
        Piece {
            color: Color::Black,
            kind: back_rank_kind(i - 24),
            position: Square { x: (i - 24) as u8, y: 7 },
        }
    }
}

/// The standard starting arrangement: 32 pieces, 16 per color.
pub open spec fn initial_pieces() -> Seq<Piece> {
    Seq::new(32, |i: int| initial_piece(i))
}

/// The eight back-rank pieces of `color` on rank `y`, by file.
pub open spec fn back_rank_seq(color: Color, y: u8) -> Seq<Piece> {
    Seq::new(
        8,
        |j: int|
            Piece { color, kind: back_rank_kind(j), position: Square { x: j as u8, y } },
    )
}

/// The eight pawns of `color` on rank `y`, by file.
pub open spec fn pawn_rank_seq(color: Color, y: u8) -> Seq<Piece> {
    Seq::new(
        8,
        |j: int| Piece { color, kind: Kind::Pawn, position: Square { x: j as u8, y } },
    )
}

/// Build the 32 pieces of the starting arrangement.
pub fn spawn_pieces() -> (v: Vec<Piece>)
    ensures
        v@ == initial_pieces(),
{
    let mut v: Vec<Piece> = Vec::new();
    push_back_rank(&mut v, Color::White, 0);
    push_pawn_rank(&mut v, Color::White, 1);
    push_pawn_rank(&mut v, Color::Black, 6);
    push_back_rank(&mut v, Color::Black, 7);
    proof {
        assert(v@ =~= initial_pieces());
    }
    v
}

/// Append the eight back-rank pieces of `color` on rank `y`.
fn push_back_rank(v: &mut Vec<Piece>, color: Color, y: u8)
    ensures
        final(v)@ == old(v)@ + back_rank_seq(color, y),
{
    v.push(Piece { color, kind: Kind::Rook, position: Square { x: 0, y } });
    v.push(Piece { color, kind: Kind::Knight, position: Square { x: 1, y } });
    v.push(Piece { color, kind: Kind::Bishop, position: Square { x: 2, y } });
    v.push(Piece { color, kind: Kind::Queen, position: Square { x: 3, y } });
    v.push(Piece { color, kind: Kind::King, position: Square { x: 4, y } });
    v.push(Piece { color, kind: Kind::Bishop, position: Square { x: 5, y } });
    v.push(Piece { color, kind: Kind::Knight, position: Square { x: 6, y } });
    v.push(Piece { color, kind: Kind::Rook, position: Square { x: 7, y } });
    proof {
        assert(v@ =~= old(v)@ + back_rank_seq(color, y));
    }
}

/// Append the eight pawns of `color` on rank `y`.
fn push_pawn_rank(v: &mut Vec<Piece>, color: Color, y: u8)
    ensures
        final(v)@ == old(v)@ + pawn_rank_seq(color, y),
{
    let mut x: u8 = 0;
    while x < 8
        invariant
            x <= 8,
            v@ == old(v)@ + pawn_rank_seq(color, y).take(x as int),
        decreases 8 - x,
    {
        v.push(Piece { color, kind: Kind::Pawn, position: Square { x, y } });
        x = x + 1;
        proof {
            assert(v@ =~= old(v)@ + pawn_rank_seq(color, y).take(x as int));
        }
    }
    proof {
        assert(v@ =~= old(v)@ + pawn_rank_seq(color, y));
    }
}

} // verus!
