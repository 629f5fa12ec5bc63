//! Candidate-move generation: fixed offsets for the leapers (king, knight),
//! ray casting for the sliders (rook, bishop, queen), and the pawn special
//! cases. A destination is a candidate exactly when [`is_candidate`] holds.

use vstd::prelude::*;

use crate::board::{occupied_at, occupied_by, Board};
use crate::pieces::{in_bounds, Color, Kind, Piece, Square};

verus! {

broadcast use vstd::seq_lib::lemma_seq_contains_after_push;

/// One king step: to a neighbouring square in any of the 8 compass directions.
pub open spec fn king_offset(px: int, py: int, tx: int, ty: int) -> bool {
    &&& !(tx == px && ty == py)
    &&& px - 1 <= tx <= px + 1
    &&& py - 1 <= ty <= py + 1
}

/// One knight leap: an L-shaped offset, two squares one way and one the other.
pub open spec fn knight_offset(px: int, py: int, tx: int, ty: int) -> bool {
    ||| ((tx == px + 1 || tx == px - 1) && (ty == py + 2 || ty == py - 2))
    ||| ((tx == px + 2 || tx == px - 2) && (ty == py + 1 || ty == py - 1))
}

/// Steps a ray starting at `(x, y)` can still take before its moving
/// coordinate leaves the board; the ray recursion terminates because this
/// shrinks at every step taken inside the board.
pub open spec fn ray_metric(x: int, y: int, dx: int, dy: int) -> int {
    if dx > 0 {
        8 - x
    } else if dx < 0 {
        x
    } else if dy > 0 {
        8 - y
    } else {
        y
    }
}

/// Ray casting for a piece of color `c` standing at `(x, y)`: step once in
/// direction `(dx, dy)`. Off the board the ray stops. If the stepped square
/// is the target, it is seen exactly when it holds no piece of `c`'s own
/// color. An occupied stepped square stops the ray; an empty one lets it
/// continue.
pub open spec fn ray_sees(
    ps: Seq<Piece>,
    c: Color,
    x: int,
    y: int,
    dx: int,
    dy: int,
    tx: int,
    ty: int,
) -> bool
    decreases ray_metric(x, y, dx, dy),
{
    if dx < -1 || dx > 1 || dy < -1 || dy > 1 || (dx == 0 && dy == 0) {
        false
    } else {
        let nx = x + dx;
        let ny = y + dy;
        if !in_bounds(nx, ny) {
            false
        } else if nx == tx && ny == ty {
            !occupied_by(ps, nx, ny, c)
        } else if occupied_at(ps, nx, ny) {
            false
        } else {
            ray_sees(ps, c, nx, ny, dx, dy, tx, ty)
        }
    }
}

/// What a rook sees: the four orthogonal rays.
pub open spec fn rook_sees(ps: Seq<Piece>, c: Color, px: int, py: int, tx: int, ty: int) -> bool {
    ||| ray_sees(ps, c, px, py, 1, 0, tx, ty)
    ||| ray_sees(ps, c, px, py, -1, 0, tx, ty)
    ||| ray_sees(ps, c, px, py, 0, 1, tx, ty)
    ||| ray_sees(ps, c, px, py, 0, -1, tx, ty)
}

/// What a bishop sees: the four diagonal rays.
pub open spec fn bishop_sees(ps: Seq<Piece>, c: Color, px: int, py: int, tx: int, ty: int) -> bool {
    ||| ray_sees(ps, c, px, py, 1, 1, tx, ty)
    ||| ray_sees(ps, c, px, py, -1, 1, tx, ty)
    ||| ray_sees(ps, c, px, py, 1, -1, tx, ty)
    ||| ray_sees(ps, c, px, py, -1, -1, tx, ty)
}

/// The rank a pawn of color `c` starts on.
pub open spec fn pawn_start_rank(c: Color) -> int {
    if c is White {
        1
    } else {
        6
    }
}

/// The direction a pawn of color `c` advances in: White toward increasing
/// ranks, Black toward decreasing ranks.
pub open spec fn pawn_dir(c: Color) -> int {
    if c is White {
        1
    } else {
        -1
    }
}

/// The pawn rules, evaluated independently: a single forward step onto an
/// empty square; a double forward step from the starting rank when both
/// squares ahead are empty; a diagonal step only as a capture of an
/// opposite-color piece.
pub open spec fn pawn_sees(ps: Seq<Piece>, c: Color, px: int, py: int, tx: int, ty: int) -> bool {
    let d = pawn_dir(c);
    ||| (tx == px && ty == py + d && in_bounds(tx, ty) && !occupied_at(ps, tx, ty))
    ||| (tx == px && ty == py + d + d && py == pawn_start_rank(c) && in_bounds(tx, ty)
        && !occupied_at(ps, px, py + d) && !occupied_at(ps, tx, ty))
    ||| ((tx == px + 1 || tx == px - 1) && ty == py + d && in_bounds(tx, ty) && occupied_by(
        ps,
        tx,
        ty,
        c.opposite(),
    ))
}

/// Whether the movement rules of `p`'s kind let it reach `(tx, ty)` on the
/// occupancy `ps`.
pub open spec fn kind_reaches(p: Piece, ps: Seq<Piece>, tx: int, ty: int) -> bool {
    let px = p.position.x as int;
    let py = p.position.y as int;
    match p.kind {
        Kind::King => king_offset(px, py, tx, ty),
        Kind::Knight => knight_offset(px, py, tx, ty),
        Kind::Rook => rook_sees(ps, p.color, px, py, tx, ty),
        Kind::Bishop => bishop_sees(ps, p.color, px, py, tx, ty),
        Kind::Queen => rook_sees(ps, p.color, px, py, tx, ty) || bishop_sees(
            ps,
            p.color,
            px,
            py,
            tx,
            ty,
        ),
        Kind::Pawn => pawn_sees(ps, p.color, px, py, tx, ty),
    }
}

/// `(tx, ty)` is a candidate destination for `p` on occupancy `ps`: on the
/// board, not occupied by `p`'s own color, and reachable by `p`'s movement.
pub open spec fn is_candidate(p: Piece, ps: Seq<Piece>, tx: int, ty: int) -> bool {
    in_bounds(tx, ty) && !occupied_by(ps, tx, ty, p.color) && kind_reaches(p, ps, tx, ty)
}

/// Whatever a ray sees lies on the board, holds no piece of the caster's own
/// color, and lies strictly ahead of the caster in the ray's direction.
proof fn lemma_ray_sees_props(
    ps: Seq<Piece>,
    c: Color,
    x: int,
    y: int,
    dx: int,
    dy: int,
    tx: int,
    ty: int,
)
    requires
        ray_sees(ps, c, x, y, dx, dy, tx, ty),
    ensures
        in_bounds(tx, ty),
        !occupied_by(ps, tx, ty, c),
        dx == 1 ==> tx > x,
        dx == 0 ==> tx == x,
        dx == -1 ==> tx < x,
        dy == 1 ==> ty > y,
        dy == 0 ==> ty == y,
        dy == -1 ==> ty < y,
    decreases ray_metric(x, y, dx, dy),
{
    let nx = x + dx;
    let ny = y + dy;
    if nx == tx && ny == ty {
    } else {
        lemma_ray_sees_props(ps, c, nx, ny, dx, dy, tx, ty);
    }
}

/// Two distinct rays from one square never see the same target.
proof fn lemma_rays_disjoint(
    ps: Seq<Piece>,
    c: Color,
    px: int,
    py: int,
    dx1: int,
    dy1: int,
    dx2: int,
    dy2: int,
    tx: int,
    ty: int,
)
    requires
        ray_sees(ps, c, px, py, dx1, dy1, tx, ty),
        -1 <= dx1 <= 1,
        -1 <= dy1 <= 1,
        -1 <= dx2 <= 1,
        -1 <= dy2 <= 1,
        !(dx1 == dx2 && dy1 == dy2),
    ensures
        !ray_sees(ps, c, px, py, dx2, dy2, tx, ty),
{
    lemma_ray_sees_props(ps, c, px, py, dx1, dy1, tx, ty);
    if ray_sees(ps, c, px, py, dx2, dy2, tx, ty) {
        lemma_ray_sees_props(ps, c, px, py, dx2, dy2, tx, ty);
    }
}

/// Consider the single offset `(dx, dy)` from `from` for a leaping piece of
/// color `c`: append the target square when it is on the board and not
/// occupied by `c`'s own color.
fn try_leap(board: &Board, c: Color, from: Square, dx: i8, dy: i8, moves: &mut Vec<Square>)
    requires
        board.wf(),
        -2 <= dx <= 2,
        -2 <= dy <= 2,
        !(dx == 0 && dy == 0),
        old(moves)@.no_duplicates(),
        forall|s: Square| #[trigger]
            old(moves)@.contains(s) ==> !(s.x as int == from.x as int + dx as int && s.y as int
                == from.y as int + dy as int),
    ensures
        final(moves)@.no_duplicates(),
        forall|s: Square| #[trigger]
            final(moves)@.contains(s) <==> (old(moves)@.contains(s) || (s.x as int == from.x as int
                + dx as int && s.y as int == from.y as int + dy as int && in_bounds(
                s.x as int,
                s.y as int,
            ) && !occupied_by(board@, s.x as int, s.y as int, c))),
{
    let tx: i16 = from.x as i16 + dx as i16;
    let ty: i16 = from.y as i16 + dy as i16;
    if 0 <= tx && tx < 8 && 0 <= ty && ty < 8 {
        let t = Square { x: tx as u8, y: ty as u8 };
        let push = match board.piece_at(t) {
            None => true,
            Some(q) => {
                proof {
                    crate::board::lemma_unique_piece(board@, q, t.x as int, t.y as int);
                }
                q.color != c
            },
        };
        if push {
            proof {
                if occupied_by(board@, t.x as int, t.y as int, c) {
                    crate::board::lemma_occupied_by_implies_at(board@, t.x as int, t.y as int, c);
                }
            }
            let ghost m0 = moves@;
            moves.push(t);
            proof {
                assert forall|s: Square| #[trigger] moves@.contains(s) implies (m0.contains(s) || s
                    == t) by {
                    let k = choose|k: int| 0 <= k < moves@.len() && moves@[k] == s;
                    if k < m0.len() {
                        assert(m0[k] == s);
                    }
                }
                assert forall|s: Square| m0.contains(s) implies #[trigger] moves@.contains(s) by {
                    let k = choose|k: int| 0 <= k < m0.len() && m0[k] == s;
                    assert(moves@[k] == s);
                }
                assert(moves@.contains(t)) by {
                    assert(moves@[moves@.len() - 1] == t);
                }
                assert forall|a: int, b: int| 0 <= a < b < moves@.len() implies moves@[a]
                    != moves@[b] by {
                    if b < m0.len() {
                        assert(m0[a] != m0[b]);
                    } else {
                        assert(m0[a] == moves@[a]);
                        assert(m0.contains(m0[a]));
                    }
                }
            }
        }
    }
}

/// Appending a fresh element keeps a sequence duplicate-free.
proof fn lemma_push_keeps_no_duplicates<T>(s: Seq<T>, t: T)
    requires
        s.no_duplicates(),
        !s.contains(t),
    ensures
        s.push(t).no_duplicates(),
{
    assert forall|a: int, b: int| 0 <= a < b < s.push(t).len() implies s.push(t)[a] != s.push(t)[b]
    by {
        if b < s.len() {
            assert(s[a] != s[b]);
        } else {
            assert(s.push(t)[a] == s[a]);
            assert(s.contains(s[a]));
        }
    }
}

/// Cast one ray for a sliding piece of color `c` standing at `from`: step
/// repeatedly by `(dx, dy)`; an empty square is appended and the ray goes on;
/// an opposite-color square is appended and stops the ray; an own-color or
/// off-board square stops it with no addition.
#[verifier::loop_isolation(false)]
fn add_moves_in_direction(
    board: &Board,
    c: Color,
    from: Square,
    dx: i8,
    dy: i8,
    moves: &mut Vec<Square>,
)
    requires
        board.wf(),
        -1 <= dx <= 1,
        -1 <= dy <= 1,
        !(dx == 0 && dy == 0),
        old(moves)@.no_duplicates(),
        forall|s: Square| #[trigger]
            old(moves)@.contains(s) ==> !ray_sees(
                board@,
                c,
                from.x as int,
                from.y as int,
                dx as int,
                dy as int,
                s.x as int,
                s.y as int,
            ),
    ensures
        final(moves)@.no_duplicates(),
        forall|s: Square| #[trigger]
            final(moves)@.contains(s) <==> (old(moves)@.contains(s) || ray_sees(
                board@,
                c,
                from.x as int,
                from.y as int,
                dx as int,
                dy as int,
                s.x as int,
                s.y as int,
            )),
{
    let ghost ps = board@;
    let ghost m0 = moves@;
    let mut bx: i16 = from.x as i16;
    let mut by: i16 = from.y as i16;
    loop
        invariant
            0 <= bx <= 255,
            0 <= by <= 255,
            moves@.no_duplicates(),
            forall|s: Square| #[trigger]
                moves@.contains(s) ==> (m0.contains(s) || ray_sees(
                    ps,
                    c,
                    from.x as int,
                    from.y as int,
                    dx as int,
                    dy as int,
                    s.x as int,
                    s.y as int,
                )),
            forall|s: Square| m0.contains(s) ==> #[trigger] moves@.contains(s),
            forall|s: Square|
                ray_sees(
                    ps,
                    c,
                    from.x as int,
                    from.y as int,
                    dx as int,
                    dy as int,
                    s.x as int,
                    s.y as int,
                ) ==> #[trigger] moves@.contains(s) || ray_sees(
                    ps,
                    c,
                    bx as int,
                    by as int,
                    dx as int,
                    dy as int,
                    s.x as int,
                    s.y as int,
                ),
            forall|s: Square| #[trigger]
                ray_sees(ps, c, bx as int, by as int, dx as int, dy as int, s.x as int, s.y as int)
                    ==> !moves@.contains(s),
            forall|s: Square| #[trigger]
                ray_sees(ps, c, bx as int, by as int, dx as int, dy as int, s.x as int, s.y as int)
                    ==> ray_sees(
                    ps,
                    c,
                    from.x as int,
                    from.y as int,
                    dx as int,
                    dy as int,
                    s.x as int,
                    s.y as int,
                ),
        decreases ray_metric(bx as int, by as int, dx as int, dy as int),
    {
        let nx: i16 = bx + dx as i16;
        let ny: i16 = by + dy as i16;
        if !(0 <= nx && nx < 8 && 0 <= ny && ny < 8) {
            // Off the board: the rest of the ray sees nothing.
            break;
        }
        let t = Square { x: nx as u8, y: ny as u8 };
        match board.piece_at(t) {
            None => {
                proof {
                    if occupied_by(ps, nx as int, ny as int, c) {
                        crate::board::lemma_occupied_by_implies_at(ps, nx as int, ny as int, c);
                    }
                    assert(ray_sees(
                        ps,
                        c,
                        bx as int,
                        by as int,
                        dx as int,
                        dy as int,
                        t.x as int,
                        t.y as int,
                    ));
                }
                let ghost mprev = moves@;
                moves.push(t);
                proof {
                    lemma_push_keeps_no_duplicates(mprev, t);
                    assert forall|s: Square| #[trigger] moves@.contains(s) implies (mprev.contains(
                        s,
                    ) || s == t) by {
                        let k = choose|k: int| 0 <= k < moves@.len() && moves@[k] == s;
                        if k < mprev.len() {
                            assert(mprev[k] == s);
                        }
                    }
                    assert forall|s: Square| mprev.contains(s) implies #[trigger] moves@.contains(s)
                    by {
                        let k = choose|k: int| 0 <= k < mprev.len() && mprev[k] == s;
                        assert(moves@[k] == s);
                    }
                    assert(moves@[moves@.len() - 1] == t);
                    assert(moves@.contains(t));
                }
                let ghost obx = bx as int;
                let ghost oby = by as int;
                bx = nx;
                by = ny;
                proof {
                    // The rest of the ray from the new base is what the rest
                    // from the old base saw beyond `t`.
                    assert forall|s: Square| #[trigger]
                        ray_sees(
                            ps,
                            c,
                            bx as int,
                            by as int,
                            dx as int,
                            dy as int,
                            s.x as int,
                            s.y as int,
                        ) implies ray_sees(
                        ps,
                        c,
                        obx,
                        oby,
                        dx as int,
                        dy as int,
                        s.x as int,
                        s.y as int,
                    ) && s != t by {
                        lemma_ray_sees_props(
                            ps,
                            c,
                            bx as int,
                            by as int,
                            dx as int,
                            dy as int,
                            s.x as int,
                            s.y as int,
                        );
                    }
                    assert forall|s: Square| #[trigger]
                        ray_sees(
                            ps,
                            c,
                            bx as int,
                            by as int,
                            dx as int,
                            dy as int,
                            s.x as int,
                            s.y as int,
                        ) implies !moves@.contains(s) by {
                        assert(ray_sees(ps, c, obx, oby, dx as int, dy as int, s.x as int, s.y as int));
                        assert(!mprev.contains(s));
                        assert(s != t);
                    }
                    assert forall|s: Square|
                        ray_sees(
                            ps,
                            c,
                            obx,
                            oby,
                            dx as int,
                            dy as int,
                            s.x as int,
                            s.y as int,
                        ) implies #[trigger] moves@.contains(s) || ray_sees(
                        ps,
                        c,
                        bx as int,
                        by as int,
                        dx as int,
                        dy as int,
                        s.x as int,
                        s.y as int,
                    ) by {
                        if s.x as int == t.x as int && s.y as int == t.y as int {
                            assert(s == t);
                        }
                    }
                }
            },
            Some(q) => {
                proof {
                    crate::board::lemma_unique_piece(ps, q, nx as int, ny as int);
                }
                if q.color != c {
                    // Opposite color: a capture square ends the ray.
                    proof {
                        assert(ray_sees(
                            ps,
                            c,
                            bx as int,
                            by as int,
                            dx as int,
                            dy as int,
                            t.x as int,
                            t.y as int,
                        ));
                    }
                    let ghost mprev = moves@;
                    moves.push(t);
                    proof {
                        lemma_push_keeps_no_duplicates(mprev, t);
                        assert forall|s: Square| #[trigger] moves@.contains(s) implies (
                        mprev.contains(s) || s == t) by {
                            let k = choose|k: int| 0 <= k < moves@.len() && moves@[k] == s;
                            if k < mprev.len() {
                                assert(mprev[k] == s);
                            }
                        }
                        assert forall|s: Square| mprev.contains(s) implies #[trigger] moves@.contains(
                            s,
                        ) by {
                            let k = choose|k: int| 0 <= k < mprev.len() && mprev[k] == s;
                            assert(moves@[k] == s);
                        }
                        assert(moves@[moves@.len() - 1] == t);
                        assert(moves@.contains(t));
                        assert forall|s: Square|
                            ray_sees(
                                ps,
                                c,
                                bx as int,
                                by as int,
                                dx as int,
                                dy as int,
                                s.x as int,
                                s.y as int,
                            ) implies #[trigger] moves@.contains(s) by {
                            if s.x as int == t.x as int && s.y as int == t.y as int {
                                assert(s == t);
                            }
                        }
                    }
                } else {
                    // Own color: the ray stops with no addition, and the rest
                    // of the ray sees nothing.
                    proof {
                        assert forall|s: Square| #[trigger]
                            ray_sees(
                                ps,
                                c,
                                bx as int,
                                by as int,
                                dx as int,
                                dy as int,
                                s.x as int,
                                s.y as int,
                            ) implies moves@.contains(s) by {}
                    }
                }
                break;
            },
        }
    }
}

impl Piece {
    /// All candidate destinations for this piece against the given occupancy:
    /// exactly the squares satisfying [`is_candidate`], each listed once.
    /// Candidates always lie on the board, are never occupied by the piece's
    /// own color, and never include the piece's own square.
    pub fn get_valid_moves(&self, board: &Board) -> (moves: Vec<Square>)
        requires
            board.wf(),
        ensures
            forall|s: Square| #[trigger]
                moves@.contains(s) <==> is_candidate(*self, board@, s.x as int, s.y as int),
            moves@.no_duplicates(),
            forall|s: Square| #[trigger] moves@.contains(s) ==> s.on_board(),
            forall|s: Square| #[trigger]
                moves@.contains(s) ==> !occupied_by(board@, s.x as int, s.y as int, self.color),
            forall|s: Square| #[trigger] moves@.contains(s) ==> s != self.position,
    {
        let mut moves: Vec<Square> = Vec::new();
        let ghost ps = board@;
        let ghost gx = self.position.x as int;
        let ghost gy = self.position.y as int;
        let c = self.color;
        let from = self.position;
        match self.kind {
            Kind::King => {
                try_leap(board, c, from, 0, 1, &mut moves);
                try_leap(board, c, from, 1, 1, &mut moves);
                try_leap(board, c, from, 1, 0, &mut moves);
                try_leap(board, c, from, 1, -1, &mut moves);
                try_leap(board, c, from, 0, -1, &mut moves);
                try_leap(board, c, from, -1, -1, &mut moves);
                try_leap(board, c, from, -1, 0, &mut moves);
                try_leap(board, c, from, -1, 1, &mut moves);
            },
            Kind::Knight => {
                try_leap(board, c, from, -2, 1, &mut moves);
                try_leap(board, c, from, -1, 2, &mut moves);
                try_leap(board, c, from, 1, 2, &mut moves);
                try_leap(board, c, from, 2, 1, &mut moves);
                try_leap(board, c, from, 2, -1, &mut moves);
                try_leap(board, c, from, 1, -2, &mut moves);
                try_leap(board, c, from, -1, -2, &mut moves);
                try_leap(board, c, from, -2, -1, &mut moves);
            },
            Kind::Rook => {
                cast_rook_rays(board, c, from, &mut moves);
                proof {
                    assert forall|s: Square| #[trigger] moves@.contains(s) implies (s.on_board()
                        && !occupied_by(ps, s.x as int, s.y as int, c) && s != from) by {
                        lemma_rook_target_props(ps, c, gx, gy, s.x as int, s.y as int);
                    }
                }
            },
            Kind::Bishop => {
                cast_bishop_rays(board, c, from, &mut moves);
                proof {
                    assert forall|s: Square| #[trigger] moves@.contains(s) implies (s.on_board()
                        && !occupied_by(ps, s.x as int, s.y as int, c) && s != from) by {
                        lemma_bishop_target_props(ps, c, gx, gy, s.x as int, s.y as int);
                    }
                }
            },
            Kind::Queen => {
                cast_rook_rays(board, c, from, &mut moves);
                proof {
                    assert forall|s: Square| #[trigger] moves@.contains(s) implies !bishop_sees(
                        ps,
                        c,
                        gx,
                        gy,
                        s.x as int,
                        s.y as int,
                    ) by {
                        lemma_rook_not_bishop(ps, c, gx, gy, s.x as int, s.y as int);
                    }
                }
                cast_bishop_rays(board, c, from, &mut moves);
                proof {
                    assert forall|s: Square| #[trigger] moves@.contains(s) implies (s.on_board()
                        && !occupied_by(ps, s.x as int, s.y as int, c) && s != from) by {
                        if rook_sees(ps, c, gx, gy, s.x as int, s.y as int) {
                            lemma_rook_target_props(ps, c, gx, gy, s.x as int, s.y as int);
                        } else {
                            lemma_bishop_target_props(ps, c, gx, gy, s.x as int, s.y as int);
                        }
                    }
                }
            },
            Kind::Pawn => {
                pawn_moves(board, c, from, &mut moves);
            },
        }
        moves
    }
}

/// Cast the four orthogonal rays, appending what they see.
fn cast_rook_rays(board: &Board, c: Color, from: Square, moves: &mut Vec<Square>)
    requires
        board.wf(),
        old(moves)@.no_duplicates(),
        forall|s: Square| #[trigger]
            old(moves)@.contains(s) ==> !rook_sees(
                board@,
                c,
                from.x as int,
                from.y as int,
                s.x as int,
                s.y as int,
            ),
    ensures
        final(moves)@.no_duplicates(),
        forall|s: Square| #[trigger]
            final(moves)@.contains(s) <==> (old(moves)@.contains(s) || rook_sees(
                board@,
                c,
                from.x as int,
                from.y as int,
                s.x as int,
                s.y as int,
            )),
{
    let ghost ps = board@;
    let ghost gx = from.x as int;
    let ghost gy = from.y as int;
    add_moves_in_direction(board, c, from, 1, 0, moves);
    proof {
        assert forall|s: Square| #[trigger] moves@.contains(s) implies !ray_sees(
            ps,
            c,
            gx,
            gy,
            -1,
            0,
            s.x as int,
            s.y as int,
        ) by {
            if ray_sees(ps, c, gx, gy, 1, 0, s.x as int, s.y as int) {
                lemma_rays_disjoint(ps, c, gx, gy, 1, 0, -1, 0, s.x as int, s.y as int);
            }
        }
    }
    add_moves_in_direction(board, c, from, -1, 0, moves);
    proof {
        assert forall|s: Square| #[trigger] moves@.contains(s) implies !ray_sees(
            ps,
            c,
            gx,
            gy,
            0,
            1,
            s.x as int,
            s.y as int,
        ) by {
            if ray_sees(ps, c, gx, gy, 1, 0, s.x as int, s.y as int) {
                lemma_rays_disjoint(ps, c, gx, gy, 1, 0, 0, 1, s.x as int, s.y as int);
            }
            if ray_sees(ps, c, gx, gy, -1, 0, s.x as int, s.y as int) {
                lemma_rays_disjoint(ps, c, gx, gy, -1, 0, 0, 1, s.x as int, s.y as int);
            }
        }
    }
    add_moves_in_direction(board, c, from, 0, 1, moves);
    proof {
        assert forall|s: Square| #[trigger] moves@.contains(s) implies !ray_sees(
            ps,
            c,
            gx,
            gy,
            0,
            -1,
            s.x as int,
            s.y as int,
        ) by {
            if ray_sees(ps, c, gx, gy, 1, 0, s.x as int, s.y as int) {
                lemma_rays_disjoint(ps, c, gx, gy, 1, 0, 0, -1, s.x as int, s.y as int);
            }
            if ray_sees(ps, c, gx, gy, -1, 0, s.x as int, s.y as int) {
                lemma_rays_disjoint(ps, c, gx, gy, -1, 0, 0, -1, s.x as int, s.y as int);
            }
            if ray_sees(ps, c, gx, gy, 0, 1, s.x as int, s.y as int) {
                lemma_rays_disjoint(ps, c, gx, gy, 0, 1, 0, -1, s.x as int, s.y as int);
            }
        }
    }
    add_moves_in_direction(board, c, from, 0, -1, moves);
}

/// Cast the four diagonal rays, appending what they see.
fn cast_bishop_rays(board: &Board, c: Color, from: Square, moves: &mut Vec<Square>)
    requires
        board.wf(),
        old(moves)@.no_duplicates(),
        forall|s: Square| #[trigger]
            old(moves)@.contains(s) ==> !bishop_sees(
                board@,
                c,
                from.x as int,
                from.y as int,
                s.x as int,
                s.y as int,
            ),
    ensures
        final(moves)@.no_duplicates(),
        forall|s: Square| #[trigger]
            final(moves)@.contains(s) <==> (old(moves)@.contains(s) || bishop_sees(
                board@,
                c,
                from.x as int,
                from.y as int,
                s.x as int,
                s.y as int,
            )),
{
    let ghost ps = board@;
    let ghost gx = from.x as int;
    let ghost gy = from.y as int;
    add_moves_in_direction(board, c, from, 1, 1, moves);
    proof {
        assert forall|s: Square| #[trigger] moves@.contains(s) implies !ray_sees(
            ps,
            c,
            gx,
            gy,
            -1,
            1,
            s.x as int,
            s.y as int,
        ) by {
            if ray_sees(ps, c, gx, gy, 1, 1, s.x as int, s.y as int) {
                lemma_rays_disjoint(ps, c, gx, gy, 1, 1, -1, 1, s.x as int, s.y as int);
            }
        }
    }
    add_moves_in_direction(board, c, from, -1, 1, moves);
    proof {
        assert forall|s: Square| #[trigger] moves@.contains(s) implies !ray_sees(
            ps,
            c,
            gx,
            gy,
            1,
            -1,
            s.x as int,
            s.y as int,
        ) by {
            if ray_sees(ps, c, gx, gy, 1, 1, s.x as int, s.y as int) {
                lemma_rays_disjoint(ps, c, gx, gy, 1, 1, 1, -1, s.x as int, s.y as int);
            }
            if ray_sees(ps, c, gx, gy, -1, 1, s.x as int, s.y as int) {
                lemma_rays_disjoint(ps, c, gx, gy, -1, 1, 1, -1, s.x as int, s.y as int);
            }
        }
    }
    add_moves_in_direction(board, c, from, 1, -1, moves);
    proof {
        assert forall|s: Square| #[trigger] moves@.contains(s) implies !ray_sees(
            ps,
            c,
            gx,
            gy,
            -1,
            -1,
            s.x as int,
            s.y as int,
        ) by {
            if ray_sees(ps, c, gx, gy, 1, 1, s.x as int, s.y as int) {
                lemma_rays_disjoint(ps, c, gx, gy, 1, 1, -1, -1, s.x as int, s.y as int);
            }
            if ray_sees(ps, c, gx, gy, -1, 1, s.x as int, s.y as int) {
                lemma_rays_disjoint(ps, c, gx, gy, -1, 1, -1, -1, s.x as int, s.y as int);
            }
            if ray_sees(ps, c, gx, gy, 1, -1, s.x as int, s.y as int) {
                lemma_rays_disjoint(ps, c, gx, gy, 1, -1, -1, -1, s.x as int, s.y as int);
            }
        }
    }
    add_moves_in_direction(board, c, from, -1, -1, moves);
}

/// A rook target lies on the board, holds no own-color piece, and differs
/// from the rook's square.
proof fn lemma_rook_target_props(ps: Seq<Piece>, c: Color, px: int, py: int, tx: int, ty: int)
    requires
        rook_sees(ps, c, px, py, tx, ty),
    ensures
        in_bounds(tx, ty),
        !occupied_by(ps, tx, ty, c),
        !(tx == px && ty == py),
{
    if ray_sees(ps, c, px, py, 1, 0, tx, ty) {
        lemma_ray_sees_props(ps, c, px, py, 1, 0, tx, ty);
    } else if ray_sees(ps, c, px, py, -1, 0, tx, ty) {
        lemma_ray_sees_props(ps, c, px, py, -1, 0, tx, ty);
    } else if ray_sees(ps, c, px, py, 0, 1, tx, ty) {
        lemma_ray_sees_props(ps, c, px, py, 0, 1, tx, ty);
    } else {
        lemma_ray_sees_props(ps, c, px, py, 0, -1, tx, ty);
    }
}

/// A bishop target lies on the board, holds no own-color piece, and differs
/// from the bishop's square.
proof fn lemma_bishop_target_props(ps: Seq<Piece>, c: Color, px: int, py: int, tx: int, ty: int)
    requires
        bishop_sees(ps, c, px, py, tx, ty),
    ensures
        in_bounds(tx, ty),
        !occupied_by(ps, tx, ty, c),
        !(tx == px && ty == py),
{
    if ray_sees(ps, c, px, py, 1, 1, tx, ty) {
        lemma_ray_sees_props(ps, c, px, py, 1, 1, tx, ty);
    } else if ray_sees(ps, c, px, py, -1, 1, tx, ty) {
        lemma_ray_sees_props(ps, c, px, py, -1, 1, tx, ty);
    } else if ray_sees(ps, c, px, py, 1, -1, tx, ty) {
        lemma_ray_sees_props(ps, c, px, py, 1, -1, tx, ty);
    } else {
        lemma_ray_sees_props(ps, c, px, py, -1, -1, tx, ty);
    }
}

/// No square is both a rook target and a bishop target from the same square.
proof fn lemma_rook_not_bishop(ps: Seq<Piece>, c: Color, px: int, py: int, tx: int, ty: int)
    requires
        rook_sees(ps, c, px, py, tx, ty),
    ensures
        !bishop_sees(ps, c, px, py, tx, ty),
{
    if bishop_sees(ps, c, px, py, tx, ty) {
        lemma_rook_target_props(ps, c, px, py, tx, ty);
        lemma_bishop_target_props(ps, c, px, py, tx, ty);
        if ray_sees(ps, c, px, py, 1, 0, tx, ty) {
            lemma_ray_sees_props(ps, c, px, py, 1, 0, tx, ty);
        }
        if ray_sees(ps, c, px, py, -1, 0, tx, ty) {
            lemma_ray_sees_props(ps, c, px, py, -1, 0, tx, ty);
        }
        if ray_sees(ps, c, px, py, 0, 1, tx, ty) {
            lemma_ray_sees_props(ps, c, px, py, 0, 1, tx, ty);
        }
        if ray_sees(ps, c, px, py, 0, -1, tx, ty) {
            lemma_ray_sees_props(ps, c, px, py, 0, -1, tx, ty);
        }
        if ray_sees(ps, c, px, py, 1, 1, tx, ty) {
            lemma_ray_sees_props(ps, c, px, py, 1, 1, tx, ty);
        }
        if ray_sees(ps, c, px, py, -1, 1, tx, ty) {
            lemma_ray_sees_props(ps, c, px, py, -1, 1, tx, ty);
        }
        if ray_sees(ps, c, px, py, 1, -1, tx, ty) {
            lemma_ray_sees_props(ps, c, px, py, 1, -1, tx, ty);
        }
        if ray_sees(ps, c, px, py, -1, -1, tx, ty) {
            lemma_ray_sees_props(ps, c, px, py, -1, -1, tx, ty);
        }
    }
}

/// The pawn rules: a single forward step onto an empty square, the double
/// step from the starting rank, and the two diagonal capture squares.
fn pawn_moves(board: &Board, c: Color, from: Square, moves: &mut Vec<Square>)
    requires
        board.wf(),
        old(moves)@.no_duplicates(),
        old(moves)@ == Seq::<Square>::empty(),
    ensures
        final(moves)@.no_duplicates(),
        forall|s: Square| #[trigger]
            final(moves)@.contains(s) <==> (pawn_sees(
                board@,
                c,
                from.x as int,
                from.y as int,
                s.x as int,
                s.y as int,
            ) && !occupied_by(board@, s.x as int, s.y as int, c)),
        forall|s: Square| #[trigger] final(moves)@.contains(s) ==> s != from,
{
    let ghost ps = board@;
    let px: i16 = from.x as i16;
    let py: i16 = from.y as i16;
    let d: i16 = if c == Color::White {
        1
    } else {
        -1
    };
    let fy: i16 = py + d;
    // Single forward step, and from the starting rank the double step; both
    // only onto empty squares.
    if 0 <= px && px < 8 && 0 <= fy && fy < 8 {
        let t1 = Square { x: px as u8, y: fy as u8 };
        if board.piece_at(t1).is_none() {
            proof {
                if occupied_by(ps, t1.x as int, t1.y as int, c) {
                    crate::board::lemma_occupied_by_implies_at(ps, t1.x as int, t1.y as int, c);
                }
            }
            moves.push(t1);
            let start: i16 = if c == Color::White {
                1
            } else {
                6
            };
            if py == start {
                let fy2: i16 = fy + d;
                let t2 = Square { x: px as u8, y: fy2 as u8 };
                if board.piece_at(t2).is_none() {
                    proof {
                        if occupied_by(ps, t2.x as int, t2.y as int, c) {
                            crate::board::lemma_occupied_by_implies_at(
                                ps,
                                t2.x as int,
                                t2.y as int,
                                c,
                            );
                        }
                        lemma_push_keeps_no_duplicates(moves@, t2);
                    }
                    moves.push(t2);
                }
            }
        }
    }
    // The two diagonal squares, as captures only.
    let cy: i16 = py + d;
    if 0 <= px - 1 && px - 1 < 8 && 0 <= cy && cy < 8 {
        let t3 = Square { x: (px - 1) as u8, y: cy as u8 };
        match board.piece_at(t3) {
            Some(q) => {
                proof {
                    crate::board::lemma_unique_piece(ps, q, t3.x as int, t3.y as int);
                    lemma_push_keeps_no_duplicates(moves@, t3);
                }
                if q.color != c {
                    moves.push(t3);
                }
            },
            None => {},
        }
    }
    if 0 <= px + 1 && px + 1 < 8 && 0 <= cy && cy < 8 {
        let t4 = Square { x: (px + 1) as u8, y: cy as u8 };
        match board.piece_at(t4) {
            Some(q) => {
                proof {
                    crate::board::lemma_unique_piece(ps, q, t4.x as int, t4.y as int);
                    lemma_push_keeps_no_duplicates(moves@, t4);
                }
                if q.color != c {
                    moves.push(t4);
                }
            },
            None => {},
        }
    }
}

} // verus!
