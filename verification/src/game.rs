//! The turn controller: a two-state machine (Idle / Selected) that owns the
//! board and the active color. *Pick* selects an active-color piece and
//! caches its candidate moves; *Release* validates the target against the
//! cache, applies the move (capturing), switches the turn, and always
//! returns to Idle. Every invalid interaction is a silent no-op.

use vstd::prelude::*;

use crate::board::{
    all_on_board, distinct_positions, lemma_occupied_by_implies_at, lemma_unique_piece,
    occupied_at, occupied_by, piece_on, Board,
};
use crate::moves::is_candidate;
use crate::pieces::{initial_pieces, moved_piece, Color, Piece, Square};

verus! {

/// A selection: the picked piece together with its candidate destinations,
/// computed once at selection time against the occupancy as it then stood.
/// The cache stays valid because nothing mutates the board between Pick and
/// Release.
pub struct Selected {
    pub piece: Piece,
    pub moves: Vec<Square>,
}

/// One game: the occupancy model, whose turn it is, and the current
/// selection. State is per game value, so several games can run side by
/// side.
pub struct Game {
    board: Board,
    turn: Color,
    selected: Option<Selected>,
}

impl Game {
    /// The pieces on the board.
    pub closed spec fn pieces(self) -> Seq<Piece> {
        self.board@
    }

    /// The color allowed to select a piece.
    pub closed spec fn active(self) -> Color {
        self.turn
    }

    /// The selected piece, if the game is in the Selected state.
    pub closed spec fn selection(self) -> Option<Piece> {
        match self.selected {
            Some(sel) => Some(sel.piece),
            None => None,
        }
    }

    /// The cached candidate destinations; empty when Idle.
    pub closed spec fn cached_moves(self) -> Seq<Square> {
        match self.selected {
            Some(sel) => sel.moves@,
            None => Seq::<Square>::empty(),
        }
    }

    /// The state invariant: no two pieces share a square, every piece is on
    /// the board, and any selection names an on-board piece of the active
    /// color whose cache holds exactly its candidate moves.
    pub open spec fn wf(self) -> bool {
        &&& all_on_board(self.pieces())
        &&& distinct_positions(self.pieces())
        &&& match self.selection() {
            Some(p) => {
                &&& self.pieces().contains(p)
                &&& p.color == self.active()
                &&& forall|s: Square| #[trigger]
                    self.cached_moves().contains(s) <==> is_candidate(
                        p,
                        self.pieces(),
                        s.x as int,
                        s.y as int,
                    )
                &&& forall|s: Square| #[trigger] self.cached_moves().contains(s) ==> s != p.position
            },
            None => self.cached_moves() == Seq::<Square>::empty(),
        }
    }

    /// A new game: the standard starting position, White to move, Idle.
    pub fn new() -> (g: Game)
        ensures
            g.wf(),
            g.pieces() == initial_pieces(),
            g.active() == Color::White,
            g.selection() is None,
    {
        Game { board: Board::starting(), turn: Color::White, selected: None }
    }

    /// A game over an arbitrary well-formed board with `turn` to move, Idle.
    pub fn with_board(board: Board, turn: Color) -> (g: Game)
        requires
            board.wf(),
        ensures
            g.wf(),
            g.pieces() == board@,
            g.active() == turn,
            g.selection() is None,
    {
        Game { board, turn, selected: None }
    }

    /// Read-only view of the occupancy model, for presentation.
    pub fn board(&self) -> (b: &Board)
        ensures
            b@ == self.pieces(),
    {
        &self.board
    }

    /// Whose turn it is.
    pub fn active_color(&self) -> (c: Color)
        ensures
            c == self.active(),
    {
        self.turn
    }

    /// The selected piece, if any.
    pub fn selected_piece(&self) -> (r: Option<Piece>)
        ensures
            r == self.selection(),
    {
        match &self.selected {
            Some(sel) => Some(sel.piece),
            None => None,
        }
    }

    /// *Pick*: when Idle and `sq` holds a piece of the active color, select
    /// that piece and cache its candidate moves, computed once against the
    /// current occupancy. Every other pick is a no-op: picking while
    /// Selected, picking an empty square, an off-board square, or an
    /// opponent piece.
    pub fn pick(&mut self, sq: Square)
        requires
            old(self).wf(),
        ensures
            final(self).wf(),
            final(self).pieces() == old(self).pieces(),
            final(self).active() == old(self).active(),
            (old(self).selection() is Some || !occupied_by(
                old(self).pieces(),
                sq.x as int,
                sq.y as int,
                old(self).active(),
            )) ==> (final(self).selection() == old(self).selection() && final(self).cached_moves()
                == old(self).cached_moves()),
            (old(self).selection() is None && occupied_by(
                old(self).pieces(),
                sq.x as int,
                sq.y as int,
                old(self).active(),
            )) ==> {
                let p = piece_on(old(self).pieces(), sq.x as int, sq.y as int);
                &&& final(self).selection() == Some(p)
                &&& forall|s: Square| #[trigger]
                    final(self).cached_moves().contains(s) <==> is_candidate(
                        p,
                        old(self).pieces(),
                        s.x as int,
                        s.y as int,
                    )
            },
    {
        if self.selected.is_some() {
            return;
        }
        match self.board.piece_at(sq) {
            Some(p) => {
                proof {
                    lemma_unique_piece(self.board@, p, sq.x as int, sq.y as int);
                }
                if p.color == self.turn {
                    let moves = p.get_valid_moves(&self.board);
                    self.selected = Some(Selected { piece: p, moves });
                }
            },
            None => {
                proof {
                    if occupied_by(
                        self.board@,
                        sq.x as int,
                        sq.y as int,
                        self.turn,
                    ) {
                        lemma_occupied_by_implies_at(
                            self.board@,
                            sq.x as int,
                            sq.y as int,
                            self.turn,
                        );
                    }
                }
            },
        }
    }

    /// *Release*: unconditionally return to Idle. When a piece is selected
    /// and `sq` is one of its cached candidates, apply the move — any piece
    /// on `sq` is captured, the mover relocates there — and switch the
    /// active color. Otherwise (Idle, or a target outside the cache) the
    /// board and the turn stay as they were.
    pub fn release(&mut self, sq: Square)
        requires
            old(self).wf(),
        ensures
            final(self).wf(),
            final(self).selection() is None,
            (match old(self).selection() {
                None => true,
                Some(_) => !old(self).cached_moves().contains(sq),
            }) ==> (final(self).pieces() == old(self).pieces() && final(self).active() == old(
                self,
            ).active()),
            (old(self).selection() is Some && old(self).cached_moves().contains(sq)) ==> {
                let p = old(self).selection()->Some_0;
                &&& final(self).active() == old(self).active().opposite()
                &&& forall|q: Piece| #[trigger]
                    final(self).pieces().contains(q) <==> (q == moved_piece(p, sq) || (old(
                        self,
                    ).pieces().contains(q) && q.position != p.position && q.position != sq))
                &&& final(self).pieces().len() == old(self).pieces().len() - (if occupied_at(
                    old(self).pieces(),
                    sq.x as int,
                    sq.y as int,
                ) {
                    1int
                } else {
                    0int
                })
            },
    {
        let (do_move, from) = match &self.selected {
            None => (false, Square { x: 0, y: 0 }),
            Some(sel) => (contains_square(&sel.moves, sq), sel.piece.position),
        };
        if do_move {
            proof {
                let p = old(self).selection()->Some_0;
                let k = choose|k: int|
                    0 <= k < old(self).pieces().len() && old(self).pieces()[k] == p;
                assert(occupied_at(old(self).pieces(), from.x as int, from.y as int));
                lemma_unique_piece(old(self).pieces(), p, from.x as int, from.y as int);
                assert(old(self).cached_moves().contains(sq));
                assert(is_candidate(p, old(self).pieces(), sq.x as int, sq.y as int));
                assert(crate::pieces::in_bounds(sq.x as int, sq.y as int));
            }
            self.board.apply_move(from, sq);
            self.turn.switch();
        }
        self.selected = None;
    }
}

/// Linear membership test of a square in a candidate list.
fn contains_square(v: &Vec<Square>, sq: Square) -> (r: bool)
    ensures
        r == v@.contains(sq),
{
    let n = v.len();
    let mut i: usize = 0;
    while i < n
        invariant
            i <= n,
            n == v@.len(),
            forall|j: int| 0 <= j < i ==> v@[j] != sq,
        decreases n - i,
    {
        if v[i] == sq {
            return true;
        }
        i = i + 1;
    }
    false
}

} // verus!
