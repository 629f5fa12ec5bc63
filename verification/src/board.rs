//! The occupancy model: the authoritative collection of pieces, with the
//! invariant that no two pieces ever share a square.

use vstd::prelude::*;

use crate::pieces::{initial_pieces, moved_piece, spawn_pieces, Color, Piece, Square};

verus! {

/// Whether some piece of `ps` stands on `(x, y)`.
pub open spec fn occupied_at(ps: Seq<Piece>, x: int, y: int) -> bool {
    exists|i: int|
        0 <= i < ps.len() && (#[trigger] ps[i]).position.x == x && ps[i].position.y == y
}

/// Whether a piece of color `c` stands on `(x, y)`.
pub open spec fn occupied_by(ps: Seq<Piece>, x: int, y: int, c: Color) -> bool {
    exists|i: int|
        0 <= i < ps.len() && (#[trigger] ps[i]).position.x == x && ps[i].position.y == y
            && ps[i].color == c
}

/// Every piece stands on the 8x8 board.
pub open spec fn all_on_board(ps: Seq<Piece>) -> bool {
    forall|i: int| 0 <= i < ps.len() ==> (#[trigger] ps[i]).position.on_board()
}

/// No two pieces share a square.
pub open spec fn distinct_positions(ps: Seq<Piece>) -> bool {
    forall|i: int, j: int|
        0 <= i < j < ps.len() ==> (#[trigger] ps[i]).position != (#[trigger] ps[j]).position
}

/// The piece of `ps` standing on `(x, y)`; meaningful only when
/// `occupied_at(ps, x, y)` holds and positions are distinct.
pub open spec fn piece_on(ps: Seq<Piece>, x: int, y: int) -> Piece {
    ps[choose|i: int|
        0 <= i < ps.len() && (#[trigger] ps[i]).position.x == x && ps[i].position.y == y]
}

/// A piece of a well-formed board is the only piece on its square: it is what
/// `piece_on` denotes there, and the square holds a color `c` piece exactly
/// when `p` itself has color `c`.
pub proof fn lemma_unique_piece(ps: Seq<Piece>, p: Piece, x: int, y: int)
    requires
        distinct_positions(ps),
        ps.contains(p),
        p.position.x == x,
        p.position.y == y,
    ensures
        occupied_at(ps, x, y),
        piece_on(ps, x, y) == p,
        forall|c: Color| occupied_by(ps, x, y, c) <==> p.color == c,
{
    let i = choose|i: int| 0 <= i < ps.len() && ps[i] == p;
    assert(0 <= i < ps.len() && ps[i].position.x == x && ps[i].position.y == y);
    let k = choose|k: int|
        0 <= k < ps.len() && (#[trigger] ps[k]).position.x == x && ps[k].position.y == y;
    assert(ps[k] == p) by {
        if i != k {
            assert(ps[i].position != ps[k].position);
        }
    }
    assert forall|c: Color| occupied_by(ps, x, y, c) <==> p.color == c by {
        if occupied_by(ps, x, y, c) {
            let m = choose|m: int|
                0 <= m < ps.len() && (#[trigger] ps[m]).position.x == x && ps[m].position.y == y
                    && ps[m].color == c;
            if m != i {
                assert(ps[m].position != ps[i].position);
            }
        }
    }
}

/// A square holding a piece of color `c` holds a piece.
pub proof fn lemma_occupied_by_implies_at(ps: Seq<Piece>, x: int, y: int, c: Color)
    requires
        occupied_by(ps, x, y, c),
    ensures
        occupied_at(ps, x, y),
{
    let i = choose|i: int|
        0 <= i < ps.len() && (#[trigger] ps[i]).position.x == x && ps[i].position.y == y
            && ps[i].color == c;
    assert(0 <= i < ps.len() && ps[i].position.x == x && ps[i].position.y == y);
}

/// The occupancy model: owns the pieces. Its view is the sequence of pieces;
/// all mutation goes through [`Board::spawn`] and [`Board::apply_move`], which
/// preserve well-formedness.
pub struct Board {
    pieces: Vec<Piece>,
}

impl View for Board {
    type V = Seq<Piece>;

    closed spec fn view(&self) -> Seq<Piece> {
        self.pieces@
    }
}

impl Board {
    /// Well-formed: every piece on the board, at most one piece per square.
    pub open spec fn wf(self) -> bool {
        all_on_board(self@) && distinct_positions(self@)
    }

    /// An empty board.
    pub fn new() -> (b: Board)
        ensures
            b@ == Seq::<Piece>::empty(),
            b.wf(),
    {
        let b = Board { pieces: Vec::new() };
        proof {
            assert(b@ =~= Seq::<Piece>::empty());
        }
        b
    }

    /// The board holding the standard starting arrangement of 32 pieces.
    pub fn starting() -> (b: Board)
        ensures
            b@ == initial_pieces(),
            b.wf(),
    {
        let b = Board { pieces: spawn_pieces() };
        proof {
            assert forall|i: int| 0 <= i < b@.len() implies (#[trigger] b@[i]).position.on_board()
            by {
                assert(b@[i] == crate::pieces::initial_piece(i));
            }
            assert forall|i: int, j: int| 0 <= i < j < b@.len() implies (#[trigger] b@[i]).position
                != (#[trigger] b@[j]).position by {
                assert(b@[i] == crate::pieces::initial_piece(i));
                assert(b@[j] == crate::pieces::initial_piece(j));
            }
        }
        b
    }

    /// Read-only enumeration of the pieces, for presentation and move
    /// generation.
    pub fn all_pieces(&self) -> (r: &Vec<Piece>)
        ensures
            r@ == self@,
    {
        &self.pieces
    }

    /// Point query: the piece standing on `s`, if any. A square outside the
    /// board is empty by the well-formedness invariant.
    pub fn piece_at(&self, s: Square) -> (r: Option<Piece>)
        ensures
            r is Some <==> occupied_at(self@, s.x as int, s.y as int),
            r matches Some(p) ==> self@.contains(p) && p.position == s,
    {
        let n = self.pieces.len();
        let mut i: usize = 0;
        while i < n
            invariant
                i <= n,
                n == self@.len(),
                forall|j: int| 0 <= j < i ==> (#[trigger] self@[j]).position != s,
            decreases n - i,
        {
            let p = self.pieces[i];
            if p.position == s {
                return Some(p);
            }
            i = i + 1;
        }
        None
    }

    /// Place a piece on an empty on-board square; reports whether it was
    /// placed. Used for setup and for arranging test positions.
    pub fn spawn(&mut self, p: Piece) -> (ok: bool)
        ensures
            ok <==> (p.position.on_board() && !occupied_at(
                old(self)@,
                p.position.x as int,
                p.position.y as int,
            )),
            ok ==> final(self)@ == old(self)@.push(p),
            !ok ==> final(self)@ == old(self)@,
            old(self).wf() ==> final(self).wf(),
    {
        if p.position.x < 8 && p.position.y < 8 {
            match self.piece_at(p.position) {
                None => {
                    self.pieces.push(p);
                    proof {
                        if old(self).wf() {
                            assert forall|i: int, j: int|
                                0 <= i < j < self@.len() implies (#[trigger] self@[i]).position
                                != (#[trigger] self@[j]).position by {
                                if j < self@.len() - 1 {
                                    assert(old(self)@[i].position != old(self)@[j].position);
                                } else {
                                    assert(self@[j] == p);
                                    assert(old(self)@[i].position != p.position);
                                }
                            }
                            assert forall|i: int|
                                0 <= i < self@.len() implies (#[trigger] self@[i]).position.on_board()
                            by {
                                if i < self@.len() - 1 {
                                    assert(old(self)@[i].position.on_board());
                                }
                            }
                        }
                    }
                    true
                },
                Some(_) => false,
            }
        } else {
            false
        }
    }

    /// Apply a move: any piece standing on `to` is captured (removed) first,
    /// then the piece standing on `from` is relocated to `to`. This is the
    /// only mutating entry point for moves; it performs no legality check
    /// itself — the turn controller validates `to` against the candidate set
    /// before calling it.
    #[verifier::loop_isolation(false)]
    pub fn apply_move(&mut self, from: Square, to: Square)
        requires
            old(self).wf(),
            occupied_at(old(self)@, from.x as int, from.y as int),
            to.on_board(),
            from != to,
        ensures
            final(self).wf(),
            ({
                let mover = piece_on(old(self)@, from.x as int, from.y as int);
                forall|p: Piece|
                    #[trigger] final(self)@.contains(p) <==> (p == moved_piece(mover, to) || (old(
                        self,
                    )@.contains(p) && p.position != from && p.position != to))
            }),
            final(self)@.len() == old(self)@.len() - (if occupied_at(
                old(self)@,
                to.x as int,
                to.y as int,
            ) {
                1int
            } else {
                0int
            }),
            !occupied_at(final(self)@, from.x as int, from.y as int),
            occupied_at(final(self)@, to.x as int, to.y as int),
            forall|x: int, y: int|
                !(x == from.x as int && y == from.y as int) && !(x == to.x as int && y
                    == to.y as int) ==> (occupied_at(final(self)@, x, y) <==> occupied_at(
                    old(self)@,
                    x,
                    y,
                )),
    {
        let mover = self.piece_at(from).unwrap();
        proof {
            lemma_unique_piece(old(self)@, mover, from.x as int, from.y as int);
        }
        let ghost ps0 = self@;
        let n = self.pieces.len();
        let mut kept: Vec<Piece> = Vec::new();
        let mut i: usize = 0;
        let ghost mut seen_from: bool = false;
        let ghost mut seen_to: bool = false;
        while i < n
            invariant
                i <= n,
                self@ == ps0,
                seen_from <==> exists|j: int| 0 <= j < i && (#[trigger] ps0[j]).position == from,
                seen_to <==> exists|j: int| 0 <= j < i && (#[trigger] ps0[j]).position == to,
                kept@.len() == i - (if seen_from {
                    1int
                } else {
                    0int
                }) - (if seen_to {
                    1int
                } else {
                    0int
                }),
                forall|p: Piece|
                    #[trigger] kept@.contains(p) <==> (exists|j: int|
                        0 <= j < i && #[trigger] ps0[j] == p && p.position != from && p.position
                            != to),
                distinct_positions(kept@),
                all_on_board(kept@),
            decreases n - i,
        {
            let p = self.pieces[i];
            if p.position == from {
                proof {
                    if seen_from {
                        let j = choose|j: int| 0 <= j < i && (#[trigger] ps0[j]).position == from;
                        assert(ps0[j].position != ps0[i as int].position);
                    }
                    seen_from = true;
                }
            } else if p.position == to {
                proof {
                    if seen_to {
                        let j = choose|j: int| 0 <= j < i && (#[trigger] ps0[j]).position == to;
                        assert(ps0[j].position != ps0[i as int].position);
                    }
                    seen_to = true;
                }
            } else {
                proof {
                    assert forall|q: Piece| kept@.contains(q) implies q.position != p.position by {
                        let j = choose|j: int|
                            0 <= j < i && #[trigger] ps0[j] == q && q.position != from && q.position
                                != to;
                        assert(ps0[j].position != ps0[i as int].position);
                    }
                }
                let ghost kept0 = kept@;
                kept.push(p);
                proof {
                    assert forall|q: Piece| kept@.contains(q) implies (exists|j: int|
                        0 <= j < i + 1 && #[trigger] ps0[j] == q && q.position != from && q.position
                            != to) by {
                        let k = choose|k: int| 0 <= k < kept@.len() && kept@[k] == q;
                        if k < kept0.len() {
                            assert(kept0[k] == q);
                            assert(kept0.contains(q));
                        } else {
                            assert(ps0[i as int] == q);
                        }
                    }
                    assert forall|q: Piece|
                        (exists|j: int|
                            0 <= j < i + 1 && #[trigger] ps0[j] == q && q.position != from
                                && q.position != to) implies kept@.contains(q) by {
                        let j = choose|j: int|
                            0 <= j < i + 1 && #[trigger] ps0[j] == q && q.position != from
                                && q.position != to;
                        if j < i {
                            assert(kept0.contains(q));
                            let k = choose|k: int| 0 <= k < kept0.len() && kept0[k] == q;
                            assert(kept@[k] == q);
                        } else {
                            assert(kept@[kept@.len() - 1] == q);
                        }
                    }
                    assert forall|a: int, b: int| 0 <= a < b < kept@.len() implies (
                    #[trigger] kept@[a]).position != (#[trigger] kept@[b]).position by {
                        if b < kept0.len() {
                            assert(kept0[a].position != kept0[b].position);
                        } else {
                            assert(kept0.contains(kept0[a]));
                        }
                    }
                }
            }
            i = i + 1;
        }
        proof {
            assert(seen_from) by {
                let j = choose|j: int| 0 <= j < ps0.len() && ps0[j] == mover;
                assert(ps0[j].position == from);
            }
            assert(seen_to <==> occupied_at(ps0, to.x as int, to.y as int)) by {
                if seen_to {
                    let j = choose|j: int| 0 <= j < n && (#[trigger] ps0[j]).position == to;
                    assert(ps0[j].position.x == to.x && ps0[j].position.y == to.y);
                }
                if occupied_at(ps0, to.x as int, to.y as int) {
                    let j = choose|j: int|
                        0 <= j < ps0.len() && (#[trigger] ps0[j]).position.x == to.x as int
                            && ps0[j].position.y == to.y as int;
                    assert(ps0[j].position == to);
                }
            }
        }
        let moved = Piece { color: mover.color, kind: mover.kind, position: to };
        let ghost kept1 = kept@;
        kept.push(moved);
        self.pieces = kept;
        proof {
            let ghost psf = self@;
            assert(psf == kept1.push(moved));
            assert forall|p: Piece| psf.contains(p) implies (p == moved || (exists|j: int|
                0 <= j < n && #[trigger] ps0[j] == p && p.position != from && p.position != to))
            by {
                let k = choose|k: int| 0 <= k < psf.len() && psf[k] == p;
                if k < kept1.len() {
                    assert(kept1[k] == p);
                    assert(kept1.contains(p));
                }
            }
            assert forall|p: Piece|
                (p == moved || (exists|j: int|
                    0 <= j < n && #[trigger] ps0[j] == p && p.position != from && p.position != to))
                implies psf.contains(p) by {
                if p == moved {
                    assert(psf[psf.len() - 1] == p);
                } else {
                    assert(kept1.contains(p));
                    let k = choose|k: int| 0 <= k < kept1.len() && kept1[k] == p;
                    assert(psf[k] == p);
                }
            }
            assert forall|p: Piece| ps0.contains(p) <==> (exists|j: int|
                0 <= j < n && #[trigger] ps0[j] == p) by {}
            // Well-formedness of the result.
            assert(distinct_positions(psf)) by {
                assert forall|a: int, b: int| 0 <= a < b < psf.len() implies (#[trigger] psf[a]).position
                    != (#[trigger] psf[b]).position by {
                    if b < kept1.len() {
                        assert(kept1[a].position != kept1[b].position);
                    } else {
                        assert(psf[b] == moved);
                        assert(kept1.contains(kept1[a]));
                    }
                }
            }
            assert(all_on_board(psf)) by {
                assert forall|a: int| 0 <= a < psf.len() implies (#[trigger] psf[a]).position.on_board()
                by {
                    if a < kept1.len() {
                        assert(kept1[a].position.on_board());
                    }
                }
            }
            // Pointwise occupancy.
            assert(!occupied_at(psf, from.x as int, from.y as int)) by {
                if occupied_at(psf, from.x as int, from.y as int) {
                    let k = choose|k: int|
                        0 <= k < psf.len() && (#[trigger] psf[k]).position.x == from.x as int
                            && psf[k].position.y == from.y as int;
                    assert(psf[k].position == from);
                    assert(psf.contains(psf[k]));
                }
            }
            assert(occupied_at(psf, to.x as int, to.y as int)) by {
                assert(psf[psf.len() - 1] == moved);
            }
            assert forall|x: int, y: int|
                !(x == from.x as int && y == from.y as int) && !(x == to.x as int && y
                    == to.y as int) implies (occupied_at(psf, x, y) <==> occupied_at(ps0, x, y)) by {
                if occupied_at(psf, x, y) {
                    let k = choose|k: int|
                        0 <= k < psf.len() && (#[trigger] psf[k]).position.x == x
                            && psf[k].position.y == y;
                    assert(psf.contains(psf[k]));
                    assert(psf[k] != moved);
                    let j = choose|j: int|
                        0 <= j < n && #[trigger] ps0[j] == psf[k] && psf[k].position != from
                            && psf[k].position != to;
                    assert(occupied_at(ps0, x, y));
                }
                if occupied_at(ps0, x, y) {
                    let j = choose|j: int|
                        0 <= j < ps0.len() && (#[trigger] ps0[j]).position.x == x
                            && ps0[j].position.y == y;
                    assert(ps0[j].position != from && ps0[j].position != to);
                    assert(ps0.contains(ps0[j]));
                    assert(psf.contains(ps0[j]));
                    let k = choose|k: int| 0 <= k < psf.len() && psf[k] == ps0[j];
                    assert(occupied_at(psf, x, y));
                }
            }
        }
    }
}

} // verus!
