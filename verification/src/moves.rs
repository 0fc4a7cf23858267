//! Moves: how each piece type moves over the 10x12 mailbox, the pseudo-legal
//! moves of the side to move, and whether a square is attacked.

use vstd::prelude::*;

use crate::logic::forward;
use crate::logic::Board;
use crate::text::chars_of;
use crate::text::decimal;
use crate::text::push_char;
use crate::text::push_decimal;
use crate::types::algebraic;
use crate::types::last_rank_row;
use crate::types::on_board;
use crate::types::pawn_start_row;
use crate::types::all_piece_types;
use crate::types::present;
use crate::types::promotion_types;
use crate::types::slots_wf;
use crate::types::Color;
use crate::types::Piece;
use crate::types::PieceType;
use crate::types::Square;
use crate::types::Target;
use crate::types::type_letter;

verus! {

/// How a piece type moves: sliding any number of squares along its
/// directions, stepping once by each of its offsets, or as a pawn.
#[derive(Debug, Copy, Clone, PartialEq, Eq, Structural)]
pub enum MoveBehaviour {
    Slide,
    Step,
    Pawn,
}

pub open spec fn behaviour_of(t: PieceType) -> MoveBehaviour {
    match t {
        PieceType::Rook | PieceType::Bishop | PieceType::Queen => MoveBehaviour::Slide,
        PieceType::Knight | PieceType::King => MoveBehaviour::Step,
        PieceType::Pawn => MoveBehaviour::Pawn,
    }
}

/// How a piece type attacks: pawns attack by stepping onto their capture squares.
pub open spec fn attack_behaviour_of(t: PieceType) -> MoveBehaviour {
    match behaviour_of(t) {
        MoveBehaviour::Slide => MoveBehaviour::Slide,
        _ => MoveBehaviour::Step,
    }
}

impl MoveBehaviour {
    pub fn for_type(piece_type: PieceType) -> (r: Self)
        ensures
            r == behaviour_of(piece_type),
    {
        match piece_type {
            PieceType::Rook | PieceType::Bishop | PieceType::Queen => Self::Slide,
            PieceType::Knight | PieceType::King => Self::Step,
            PieceType::Pawn => Self::Pawn,
        }
    }

    /// To determine whether a square is under attack, pawns count as
    /// steppers onto their capture squares.
    pub fn attack_for_type(piece_type: PieceType) -> (r: Self)
        ensures
            r == attack_behaviour_of(piece_type),
    {
        match Self::for_type(piece_type) {
            Self::Slide => Self::Slide,
            Self::Step | Self::Pawn => Self::Step,
        }
    }
}

#[derive(Debug, Copy, Clone, PartialEq, Eq, Hash, Structural)]
pub enum MoveKind {
    Normal,
    EnPassant,
    Castle,
    Promotion(PieceType),
}

#[derive(Debug, Copy, Clone, PartialEq, Eq, Hash, Structural)]
pub struct Move {
    pub from: Square,
    pub to: Square,
    pub move_kind: MoveKind,
}

/// The mailbox offsets along which a piece type moves; none for pawns.
pub open spec fn offsets_of(t: PieceType) -> Seq<isize> {
    match t {
        PieceType::Rook => seq![1isize, 10isize, -10isize, -1isize],
        PieceType::Knight => seq![
            21isize,
            19isize,
            12isize,
            8isize,
            -8isize,
            -12isize,
            -19isize,
            -21isize,
        ],
        PieceType::Bishop => seq![11isize, 9isize, -9isize, -11isize],
        PieceType::Queen => seq![
            11isize,
            9isize,
            -9isize,
            -11isize,
            1isize,
            10isize,
            -10isize,
            -1isize,
        ],
        PieceType::King => seq![
            9isize,
            10isize,
            11isize,
            -9isize,
            -10isize,
            -11isize,
            1isize,
            -1isize,
        ],
        PieceType::Pawn => seq![],
    }
}

/// The offsets from a square of colour `c` at which a piece of type `t` of
/// the other colour attacks it: a pawn attacks diagonally forward, so it is
/// found diagonally ahead of the square from the defender's side.
pub open spec fn attack_offsets_of(t: PieceType, c: Color) -> Seq<isize> {
    match t {
        PieceType::Pawn => match c {
            Color::White => seq![11isize, 9isize],
            Color::Black => seq![-11isize, -9isize],
        },
        _ => offsets_of(t),
    }
}

/// Offsets of at most 21 in size.
pub open spec fn small_offsets(offs: Seq<isize>) -> bool {
    forall|i: int| 0 <= i < offs.len() ==> -21 <= #[trigger] offs[i] <= 21
}

/// The directions a sliding piece can take.
pub open spec fn slide_offsets(offs: Seq<isize>) -> bool {
    forall|i: int|
        0 <= i < offs.len() ==> (-11 <= #[trigger] offs[i] <= 11 && offs[i] != 0)
}

pub open spec fn entry(t: int) -> (Square, MoveKind) {
    (Square(t as usize), MoveKind::Normal)
}

/// The squares that a stepping piece of colour `color` on index `from`
/// reaches with the offsets `offs`, in order: those it is not blocked on.
pub open spec fn step_targets(b: Board, from: int, color: Color, offs: Seq<isize>) -> Seq<
    (Square, MoveKind),
>
    decreases offs.len(),
{
    if offs.len() == 0 {
        seq![]
    } else {
        let rest = step_targets(b, from, color, offs.drop_last());
        let t = from + offs.last();
        if b.classify(t, color) != Target::Blocked {
            rest.push(entry(t))
        } else {
            rest
        }
    }
}

/// The squares that a sliding piece of colour `color` reaches beyond index
/// `cur` in direction `o`: empty squares up to the first one that is not,
/// and that one too when it holds a piece to capture.
pub open spec fn ray(b: Board, cur: int, o: int, color: Color) -> Seq<(Square, MoveKind)>
    decreases (if o > 0 {
        130 - cur
    } else {
        cur + 20
    }),
{
    if o == 0 {
        seq![]
    } else {
        let t = cur + o;
        match b.classify(t, color) {
            Target::Blocked => seq![],
            Target::Capture => seq![entry(t)],
            Target::Empty => seq![entry(t)] + ray(b, t, o, color),
        }
    }
}

/// The squares that a sliding piece reaches along each direction of `offs`
/// in turn.
pub open spec fn slide_targets(b: Board, from: int, color: Color, offs: Seq<isize>) -> Seq<
    (Square, MoveKind),
>
    decreases offs.len(),
{
    if offs.len() == 0 {
        seq![]
    } else {
        slide_targets(b, from, color, offs.drop_last()) + ray(b, from, offs.last() as int, color)
    }
}

/// The squares a pawn of colour `color` on index `from` reaches: one square
/// forward when empty, two from its starting rank when both are empty; each
/// forward diagonal holding a piece to capture; and the en passant target
/// when it is one of those diagonals.
pub open spec fn pawn_targets(b: Board, from: int, color: Color) -> Seq<(Square, MoveKind)> {
    let dir = forward(color);
    let t1 = from + 10 * dir;
    let t2 = from + 20 * dir;
    let pushes = if b.classify(t1, color) == Target::Empty {
        if from / 10 == pawn_start_row(color) && b.classify(t2, color) == Target::Empty {
            seq![entry(t1), entry(t2)]
        } else {
            seq![entry(t1)]
        }
    } else {
        seq![]
    };
    let c1 = from + 9 * dir;
    let c2 = from + 11 * dir;
    let caps = (if b.classify(c1, color) == Target::Capture {
        seq![entry(c1)]
    } else {
        seq![]
    }) + (if b.classify(c2, color) == Target::Capture {
        seq![entry(c2)]
    } else {
        seq![]
    });
    let ep = match b.en_passant_target {
        Some(ts) => if ts.0 == c1 || ts.0 == c2 {
            seq![(ts, MoveKind::EnPassant)]
        } else {
            seq![]
        },
        None => seq![],
    };
    pushes + caps + ep
}

/// The four promotions of a pawn moving from `from` to `to`.
pub open spec fn promotion_moves(from: Square, to: Square) -> Seq<Move> {
    promotion_types().map_values(
        |t: PieceType| Move { from, to, move_kind: MoveKind::Promotion(t) },
    )
}

/// The moves a target makes for a piece on `from`: a pawn reaching its last
/// rank promotes, any other move keeps the kind of the target.
pub open spec fn target_moves(from: Square, e: (Square, MoveKind), pawn: bool, c: Color) -> Seq<Move> {
    if pawn && e.0.0 as int / 10 == last_rank_row(c) {
        promotion_moves(from, e.0)
    } else {
        seq![Move { from, to: e.0, move_kind: e.1 }]
    }
}

pub open spec fn expand(from: Square, ts: Seq<(Square, MoveKind)>, pawn: bool, c: Color) -> Seq<Move>
    decreases ts.len(),
{
    if ts.len() == 0 {
        seq![]
    } else {
        expand(from, ts.drop_last(), pawn, c) + target_moves(from, ts.last(), pawn, c)
    }
}

/// The pieces of `ps` of type `t`, in order.
pub open spec fn of_type(ps: Seq<Piece>, t: PieceType) -> Seq<Piece>
    decreases ps.len(),
{
    if ps.len() == 0 {
        seq![]
    } else if ps.last().piece_type == t {
        of_type(ps.drop_last(), t).push(ps.last())
    } else {
        of_type(ps.drop_last(), t)
    }
}

/// The pieces of type `t` in the slots of colour `c`, in slot order.
pub open spec fn pieces_of_type(b: Board, t: PieceType, c: Color) -> Seq<Piece> {
    if c == Color::White {
        of_type(present(b.pieces@, 0, 16), t)
    } else {
        of_type(present(b.pieces@, 16, 32), t)
    }
}

/// The squares a piece `p` of type `t` of the side to move reaches.
pub open spec fn piece_targets(b: Board, p: Piece, t: PieceType) -> Seq<(Square, MoveKind)> {
    let from = p.square.0 as int;
    match behaviour_of(t) {
        MoveBehaviour::Slide => slide_targets(b, from, b.to_move, offsets_of(t)),
        MoveBehaviour::Step => step_targets(b, from, b.to_move, offsets_of(t)),
        MoveBehaviour::Pawn => pawn_targets(b, from, b.to_move),
    }
}

/// The moves of the pieces `ps` of type `t`, piece by piece.
pub open spec fn moves_from(b: Board, ps: Seq<Piece>, t: PieceType) -> Seq<Move>
    decreases ps.len(),
{
    if ps.len() == 0 {
        seq![]
    } else {
        moves_from(b, ps.drop_last(), t) + expand(
            ps.last().square,
            piece_targets(b, ps.last(), t),
            t == PieceType::Pawn,
            b.to_move,
        )
    }
}

/// The pseudo-legal moves of the pieces of type `t` of the side to move.
pub open spec fn moves_of_type(b: Board, t: PieceType) -> Seq<Move> {
    moves_from(b, pieces_of_type(b, t, b.to_move), t)
}

/// The pseudo-legal moves of the piece types `all_piece_types()[0..n]` in turn.
pub open spec fn moves_of_types(b: Board, n: int) -> Seq<Move>
    decreases n,
{
    if n <= 0 {
        seq![]
    } else {
        moves_of_types(b, n - 1) + moves_of_type(b, all_piece_types()[n - 1])
    }
}

/// The pseudo-legal moves of the side to move, piece type by piece type in
/// the order of `PieceType::all`.
pub open spec fn generated_moves(b: Board) -> Seq<Move> {
    moves_of_types(b, 6)
}

/// Pieces of colour `c`, each on a playable square.
pub open spec fn placed(ps: Seq<Piece>, c: Color) -> bool {
    forall|i: int| 0 <= i < ps.len() ==> on_board(#[trigger] ps[i].square.0 as int) && ps[i].color == c
}

pub proof fn lemma_present_placed(s: Seq<Option<Piece>>, lo: int, n: int, c: Color)
    requires
        slots_wf(s),
        (lo == 0 && 0 <= n <= 16 && c == Color::White) || (lo == 16 && 16 <= n <= 32 && c
            == Color::Black),
    ensures
        placed(present(s, lo, n), c),
    decreases n - lo,
{
    if n > lo {
        lemma_present_placed(s, lo, n - 1, c);
        assert(s[n - 1] is Some ==> on_board(s[n - 1]->0.square.0 as int));
    }
}

pub proof fn lemma_of_type_placed(ps: Seq<Piece>, t: PieceType, c: Color)
    requires
        placed(ps, c),
    ensures
        placed(of_type(ps, t), c),
        forall|i: int| 0 <= i < of_type(ps, t).len() ==> (#[trigger] of_type(ps, t)[i]).piece_type == t,
    decreases ps.len(),
{
    if ps.len() > 0 {
        assert(placed(ps.drop_last(), c));
        lemma_of_type_placed(ps.drop_last(), t, c);
        assert(on_board(ps[ps.len() - 1].square.0 as int));
    }
}

pub proof fn lemma_pieces_of_type_placed(b: Board, t: PieceType, c: Color)
    requires
        slots_wf(b.pieces@),
    ensures
        placed(pieces_of_type(b, t, c), c),
        forall|i: int|
            0 <= i < pieces_of_type(b, t, c).len() ==> (#[trigger] pieces_of_type(b, t, c)[i]).piece_type
                == t,
{
    if c == Color::White {
        lemma_present_placed(b.pieces@, 0, 16, c);
        lemma_of_type_placed(present(b.pieces@, 0, 16), t, c);
    } else {
        lemma_present_placed(b.pieces@, 16, 32, c);
        lemma_of_type_placed(present(b.pieces@, 16, 32), t, c);
    }
}

/// Targets on playable squares that a piece of colour `color` is not blocked
/// on, reached by ordinary moves.
pub open spec fn reachable(b: Board, ts: Seq<(Square, MoveKind)>, color: Color) -> bool {
    forall|i: int|
        0 <= i < ts.len() ==> on_board(#[trigger] ts[i].0.0 as int) && b.classify(ts[i].0.0 as int, color)
            != Target::Blocked && ts[i].1 == MoveKind::Normal
}

pub proof fn lemma_step_targets_reachable(b: Board, from: int, color: Color, offs: Seq<isize>)
    ensures
        reachable(b, step_targets(b, from, color, offs), color),
    decreases offs.len(),
{
    if offs.len() > 0 {
        lemma_step_targets_reachable(b, from, color, offs.drop_last());
        let rest = step_targets(b, from, color, offs.drop_last());
        let ts = step_targets(b, from, color, offs);
        let t = from + offs.last();
        if b.classify(t, color) != Target::Blocked {
            assert(ts == rest.push(entry(t)));
            assert forall|i: int| 0 <= i < ts.len() implies on_board(#[trigger] ts[i].0.0 as int) && b.classify(
                ts[i].0.0 as int,
                color,
            ) != Target::Blocked && ts[i].1 == MoveKind::Normal by {
                if i < rest.len() {
                    assert(ts[i] == rest[i]);
                    assert(on_board(rest[i].0.0 as int));
                } else {
                    assert(ts[i] == entry(t));
                    assert(on_board(t));
                }
            }
        } else {
            assert(ts == rest);
        }
    }
}

pub proof fn lemma_ray_reachable(b: Board, cur: int, o: int, color: Color)
    ensures
        reachable(b, ray(b, cur, o, color), color),
    decreases (if o > 0 {
        130 - cur
    } else {
        cur + 20
    }),
{
    let r = ray(b, cur, o, color);
    if o != 0 {
        let t = cur + o;
        match b.classify(t, color) {
            Target::Blocked => {
                assert(r.len() == 0);
            },
            Target::Capture => {
                assert(r =~= seq![entry(t)]);
                assert forall|i: int| 0 <= i < r.len() implies on_board(#[trigger] r[i].0.0 as int) && b.classify(
                    r[i].0.0 as int,
                    color,
                ) != Target::Blocked && r[i].1 == MoveKind::Normal by {
                    assert(r[i] == entry(t));
                    assert(on_board(t));
                }
            },
            Target::Empty => {
                lemma_ray_reachable(b, t, o, color);
                let rest = ray(b, t, o, color);
                assert(r =~= seq![entry(t)] + rest);
                assert forall|i: int| 0 <= i < r.len() implies on_board(#[trigger] r[i].0.0 as int) && b.classify(
                    r[i].0.0 as int,
                    color,
                ) != Target::Blocked && r[i].1 == MoveKind::Normal by {
                    if i == 0 {
                        assert(r[i] == entry(t));
                        assert(on_board(t));
                    } else {
                        assert(r[i] == rest[i - 1]);
                        assert(on_board(rest[i - 1].0.0 as int));
                    }
                }
            },
        }
    } else {
        assert(r.len() == 0);
    }
}

pub proof fn lemma_slide_targets_reachable(b: Board, from: int, color: Color, offs: Seq<isize>)
    ensures
        reachable(b, slide_targets(b, from, color, offs), color),
    decreases offs.len(),
{
    if offs.len() > 0 {
        lemma_slide_targets_reachable(b, from, color, offs.drop_last());
        lemma_ray_reachable(b, from, offs.last() as int, color);
        let a = slide_targets(b, from, color, offs.drop_last());
        let r = ray(b, from, offs.last() as int, color);
        let ts = slide_targets(b, from, color, offs);
        assert(ts == a + r);
        assert forall|i: int| 0 <= i < ts.len() implies on_board(#[trigger] ts[i].0.0 as int) && b.classify(
            ts[i].0.0 as int,
            color,
        ) != Target::Blocked && ts[i].1 == MoveKind::Normal by {
            if i < a.len() {
                assert(ts[i] == a[i]);
                assert(on_board(a[i].0.0 as int));
            } else {
                assert(ts[i] == r[i - a.len()]);
                assert(on_board(r[i - a.len()].0.0 as int));
            }
        }
    }
}

/// The squares from which a piece of type `t` attacking a piece of colour
/// `defender` on index `sq` would strike, as that piece's own moves from `sq`
/// reach them.
pub open spec fn attack_targets(b: Board, sq: int, defender: Color, t: PieceType) -> Seq<
    (Square, MoveKind),
> {
    match attack_behaviour_of(t) {
        MoveBehaviour::Slide => slide_targets(b, sq, defender, attack_offsets_of(t, defender)),
        _ => step_targets(b, sq, defender, attack_offsets_of(t, defender)),
    }
}

/// A piece of type `t` not of colour `defender` stands on the square of `e`.
pub open spec fn attacker_on(b: Board, e: (Square, MoveKind), defender: Color, t: PieceType) -> bool {
    b.occupant(e.0.0 as int) matches Some(p) && p.color != defender && p.piece_type == t
}

pub open spec fn attacked_by(b: Board, sq: int, defender: Color, t: PieceType) -> bool {
    exists|j: int|
        0 <= j < attack_targets(b, sq, defender, t).len() && attacker_on(
            b,
            #[trigger] attack_targets(b, sq, defender, t)[j],
            defender,
            t,
        )
}

/// A piece of colour `defender` on index `sq` would be attacked: for some
/// piece type, moving like that type from `sq` reaches an opposing piece of
/// that type.
pub open spec fn under_attack(b: Board, sq: int, defender: Color) -> bool {
    exists|i: int| 0 <= i < 6 && attacked_by(b, sq, defender, #[trigger] all_piece_types()[i])
}

/// The first king of colour `c` among the pieces `ps`.
pub open spec fn king_of(ps: Seq<Piece>, c: Color) -> Option<Piece>
    decreases ps.len(),
{
    if ps.len() == 0 {
        None
    } else {
        match king_of(ps.drop_last(), c) {
            Some(k) => Some(k),
            None => if ps.last().color == c && ps.last().piece_type == PieceType::King {
                Some(ps.last())
            } else {
                None
            },
        }
    }
}

/// Some slot holds a king of colour `c`.
pub open spec fn has_king(b: Board, c: Color) -> bool {
    exists|k: int|
        0 <= k < 32 && (#[trigger] b.pieces@[k] matches Some(p) && p.color == c && p.piece_type
            == PieceType::King)
}

pub proof fn lemma_king_of_found(s: Seq<Option<Piece>>, c: Color, n: int, k: int)
    requires
        0 <= k < n <= s.len(),
        s[k] matches Some(p) && p.color == c && p.piece_type == PieceType::King,
    ensures
        king_of(present(s, 0, n), c) matches Some(q) && q.color == c && q.piece_type == PieceType::King,
    decreases n,
{
    lemma_king_of_is_king(present(s, 0, n), c);
    if k < n - 1 {
        lemma_king_of_found(s, c, n - 1, k);
        match s[n - 1] {
            Some(p) => {
                assert(present(s, 0, n).drop_last() =~= present(s, 0, n - 1));
            },
            None => {},
        }
    } else {
        assert(present(s, 0, n).drop_last() =~= present(s, 0, n - 1));
    }
}

pub proof fn lemma_king_of_is_king(ps: Seq<Piece>, c: Color)
    ensures
        king_of(ps, c) matches Some(q) ==> q.color == c && q.piece_type == PieceType::King,
    decreases ps.len(),
{
    if ps.len() > 0 {
        lemma_king_of_is_king(ps.drop_last(), c);
    }
}

/// The first king in a prefix that holds one is the first king of the whole.
pub proof fn lemma_king_of_prefix(ps: Seq<Piece>, c: Color, n: int)
    requires
        0 <= n <= ps.len(),
        king_of(ps.take(n), c) is Some,
    ensures
        king_of(ps, c) == king_of(ps.take(n), c),
    decreases ps.len() - n,
{
    if n < ps.len() {
        assert(ps.take(n + 1).drop_last() =~= ps.take(n));
        lemma_king_of_prefix(ps, c, n + 1);
    } else {
        assert(ps.take(n) =~= ps);
    }
}

/// A target entry that is ordinary and onto a playable square its mover of
/// colour `c` is not blocked on, or an en passant capture onto the board's
/// en passant target.
pub open spec fn sound_entry(b: Board, e: (Square, MoveKind), c: Color) -> bool {
    ||| (on_board(e.0.0 as int) && b.classify(e.0.0 as int, c) != Target::Blocked && e.1
        == MoveKind::Normal)
    ||| (e.1 == MoveKind::EnPassant && b.en_passant_target == Some(e.0))
}

pub open spec fn sound_entries(b: Board, ts: Seq<(Square, MoveKind)>, c: Color, pawn: bool) -> bool {
    forall|i: int|
        0 <= i < ts.len() ==> sound_entry(b, #[trigger] ts[i], c) && (!pawn ==> ts[i].1
            == MoveKind::Normal)
}

/// What a move has of a move of the side to move that a piece of type `t`
/// makes, apart from where it starts: it lands on a playable square that the
/// mover is not blocked on, or on the en passant target; it is never a
/// castling; it is a promotion exactly when a pawn reaches its last rank;
/// and an en passant capture is a pawn's, onto the en passant target.
pub open spec fn sound_landing(b: Board, m: Move, t: PieceType) -> bool {
    &&& (on_board(m.to.0 as int) && b.classify(m.to.0 as int, b.to_move) != Target::Blocked)
        || b.en_passant_target == Some(m.to)
    &&& m.move_kind != MoveKind::Castle
    &&& (m.move_kind is Promotion) <==> (t == PieceType::Pawn && m.to.0 as int / 10
        == last_rank_row(b.to_move))
    &&& m.move_kind == MoveKind::EnPassant ==> t == PieceType::Pawn && b.en_passant_target
        == Some(m.to)
}

/// A move that a piece of type `t` of the side to move makes from the square
/// it stands on, landing soundly.
pub open spec fn sound_move(b: Board, m: Move, t: PieceType) -> bool {
    &&& b.occupant(m.from.0 as int) matches Some(p) && p.color == b.to_move && p.piece_type == t
    &&& sound_landing(b, m, t)
}

/// A piece that stands in some slot of the board.
pub open spec fn in_slot(b: Board, p: Piece) -> bool {
    exists|k: int| 0 <= k < 32 && b.pieces@[k] == Some(p)
}

/// Pieces that stand in some slot of the board.
pub open spec fn in_slots(b: Board, ps: Seq<Piece>) -> bool {
    forall|i: int| 0 <= i < ps.len() ==> in_slot(b, #[trigger] ps[i])
}

proof fn lemma_present_in_slots(b: Board, lo: int, n: int)
    requires
        0 <= lo <= n <= 32,
    ensures
        in_slots(b, present(b.pieces@, lo, n)),
    decreases n - lo,
{
    if n > lo {
        lemma_present_in_slots(b, lo, n - 1);
        let ps = present(b.pieces@, lo, n);
        let prev = present(b.pieces@, lo, n - 1);
        assert forall|i: int| 0 <= i < ps.len() implies in_slot(b, #[trigger] ps[i]) by {
            if i < prev.len() {
                assert(ps[i] == prev[i]);
                assert(in_slot(b, prev[i]));
            } else {
                assert(b.pieces@[n - 1] == Some(ps[i]));
            }
        }
    }
}

proof fn lemma_of_type_in_slots(b: Board, ps: Seq<Piece>, t: PieceType)
    requires
        in_slots(b, ps),
    ensures
        in_slots(b, of_type(ps, t)),
    decreases ps.len(),
{
    if ps.len() > 0 {
        assert forall|i: int| 0 <= i < ps.drop_last().len() implies in_slot(
            b,
            #[trigger] ps.drop_last()[i],
        ) by {
            assert(ps.drop_last()[i] == ps[i]);
            assert(in_slot(b, ps[i]));
        }
        lemma_of_type_in_slots(b, ps.drop_last(), t);
        let r = of_type(ps, t);
        let prev = of_type(ps.drop_last(), t);
        assert forall|i: int| 0 <= i < r.len() implies in_slot(b, #[trigger] r[i]) by {
            if i < prev.len() {
                assert(r[i] == prev[i]);
                assert(in_slot(b, prev[i]));
            } else {
                assert(r[i] == ps[ps.len() - 1]);
                assert(in_slot(b, ps[ps.len() - 1]));
            }
        }
    }
}

proof fn lemma_pawn_targets_sound(b: Board, from: int, c: Color)
    ensures
        sound_entries(b, pawn_targets(b, from, c), c, true),
{
}

proof fn lemma_reachable_sound(b: Board, ts: Seq<(Square, MoveKind)>, c: Color)
    requires
        reachable(b, ts, c),
    ensures
        sound_entries(b, ts, c, false),
{
    assert forall|i: int| 0 <= i < ts.len() implies sound_entry(b, #[trigger] ts[i], c) && ts[i].1
        == MoveKind::Normal by {
        assert(on_board(ts[i].0.0 as int));
    }
}

proof fn lemma_expand_sound(b: Board, from: Square, ts: Seq<(Square, MoveKind)>, t: PieceType, pawn: bool)
    requires
        pawn == (t == PieceType::Pawn),
        sound_entries(b, ts, b.to_move, pawn),
    ensures
        forall|i: int|
            0 <= i < expand(from, ts, pawn, b.to_move).len() ==> (#[trigger] expand(
                from,
                ts,
                pawn,
                b.to_move,
            )[i]).from == from && sound_landing(b, expand(from, ts, pawn, b.to_move)[i], t),
    decreases ts.len(),
{
    if ts.len() > 0 {
        assert(sound_entries(b, ts.drop_last(), b.to_move, pawn)) by {
            assert forall|i: int| 0 <= i < ts.drop_last().len() implies sound_entry(
                b,
                #[trigger] ts.drop_last()[i],
                b.to_move,
            ) && (!pawn ==> ts.drop_last()[i].1 == MoveKind::Normal) by {
                assert(ts.drop_last()[i] == ts[i]);
            }
        }
        lemma_expand_sound(b, from, ts.drop_last(), t, pawn);
        let a = expand(from, ts.drop_last(), pawn, b.to_move);
        let e = ts.last();
        let tm = target_moves(from, e, pawn, b.to_move);
        assert(sound_entry(b, ts[ts.len() - 1], b.to_move));
        assert forall|i: int| 0 <= i < (a + tm).len() implies (#[trigger] (a + tm)[i]).from == from
            && sound_landing(b, (a + tm)[i], t) by {
            if i < a.len() {
                assert((a + tm)[i] == a[i]);
            } else {
                assert((a + tm)[i] == tm[i - a.len()]);
            }
        }
    }
}

proof fn lemma_moves_from_sound(b: Board, ps: Seq<Piece>, t: PieceType)
    requires
        b.wf(),
        in_slots(b, ps),
        forall|i: int|
            0 <= i < ps.len() ==> (#[trigger] ps[i]).color == b.to_move && ps[i].piece_type == t,
    ensures
        forall|i: int|
            0 <= i < moves_from(b, ps, t).len() ==> sound_move(b, #[trigger] moves_from(b, ps, t)[i], t),
    decreases ps.len(),
{
    if ps.len() > 0 {
        assert forall|i: int| 0 <= i < ps.drop_last().len() implies in_slot(
            b,
            #[trigger] ps.drop_last()[i],
        ) by {
            assert(ps.drop_last()[i] == ps[i]);
            assert(in_slot(b, ps[i]));
        }
        assert forall|i: int| 0 <= i < ps.drop_last().len() implies (#[trigger] ps.drop_last()[i]).color
            == b.to_move && ps.drop_last()[i].piece_type == t by {
            assert(ps.drop_last()[i] == ps[i]);
        }
        lemma_moves_from_sound(b, ps.drop_last(), t);
        let p = ps[ps.len() - 1];
        let ts = piece_targets(b, p, t);
        match behaviour_of(t) {
            MoveBehaviour::Slide => {
                lemma_slide_targets_reachable(b, p.square.0 as int, b.to_move, offsets_of(t));
                lemma_reachable_sound(b, ts, b.to_move);
            },
            MoveBehaviour::Step => {
                lemma_step_targets_reachable(b, p.square.0 as int, b.to_move, offsets_of(t));
                lemma_reachable_sound(b, ts, b.to_move);
            },
            MoveBehaviour::Pawn => {
                lemma_pawn_targets_sound(b, p.square.0 as int, b.to_move);
            },
        }
        lemma_expand_sound(b, p.square, ts, t, t == PieceType::Pawn);
        assert(in_slot(b, ps[ps.len() - 1]));
        let k = choose|k: int| 0 <= k < 32 && b.pieces@[k] == Some(ps[ps.len() - 1]);
        crate::logic::lemma_pieces_reachable_by_square(b);
        assert(b.occupant(p.square.0 as int) == Some(p));
        let a = moves_from(b, ps.drop_last(), t);
        let x = expand(p.square, ts, t == PieceType::Pawn, b.to_move);
        assert forall|i: int| 0 <= i < (a + x).len() implies sound_move(b, #[trigger] (a + x)[i], t) by {
            if i < a.len() {
                assert((a + x)[i] == a[i]);
            } else {
                assert((a + x)[i] == x[i - a.len()]);
            }
        }
    }
}

/// Every move generated for a piece type starts from a square holding a
/// piece of that type of the side to move and lands soundly: on a playable
/// square the mover is not blocked on (or the en passant target), never a
/// castling, promoting exactly when a pawn reaches its last rank.
pub proof fn lemma_moves_of_type_sound(b: Board, t: PieceType)
    requires
        b.wf(),
    ensures
        forall|i: int|
            0 <= i < moves_of_type(b, t).len() ==> sound_move(b, #[trigger] moves_of_type(b, t)[i], t),
{
    let ps = pieces_of_type(b, t, b.to_move);
    lemma_pieces_of_type_placed(b, t, b.to_move);
    if b.to_move == Color::White {
        lemma_present_in_slots(b, 0, 16);
        lemma_of_type_in_slots(b, present(b.pieces@, 0, 16), t);
    } else {
        lemma_present_in_slots(b, 16, 32);
        lemma_of_type_in_slots(b, present(b.pieces@, 16, 32), t);
    }
    lemma_moves_from_sound(b, ps, t);
}

/// A move that is sound for some piece type.
pub open spec fn sound_for_some_type(b: Board, m: Move) -> bool {
    exists|t: PieceType| sound_move(b, m, t)
}

proof fn lemma_moves_of_types_sound(b: Board, n: int)
    requires
        b.wf(),
        0 <= n <= 6,
    ensures
        forall|i: int|
            0 <= i < moves_of_types(b, n).len() ==> sound_for_some_type(
                b,
                #[trigger] moves_of_types(b, n)[i],
            ),
    decreases n,
{
    if n > 0 {
        lemma_moves_of_types_sound(b, n - 1);
        let t = all_piece_types()[n - 1];
        lemma_moves_of_type_sound(b, t);
        let a = moves_of_types(b, n - 1);
        let x = moves_of_type(b, t);
        assert(moves_of_types(b, n) =~= a + x);
        assert forall|i: int| 0 <= i < (a + x).len() implies sound_for_some_type(
            b,
            #[trigger] (a + x)[i],
        ) by {
            if i < a.len() {
                assert((a + x)[i] == a[i]);
                assert(sound_for_some_type(b, a[i]));
            } else {
                assert((a + x)[i] == x[i - a.len()]);
                assert(sound_move(b, x[i - a.len()], t));
            }
        }
    }
}

/// Every generated move is a sound move of some piece type of the side to move.
pub proof fn lemma_generated_moves_sound(b: Board)
    requires
        b.wf(),
    ensures
        forall|i: int|
            0 <= i < generated_moves(b).len() ==> sound_for_some_type(
                b,
                #[trigger] generated_moves(b)[i],
            ),
{
    lemma_moves_of_types_sound(b, 6);
}

/// How a square is written in a move: its name when it is playable,
/// otherwise `?` and its index.
pub open spec fn square_text(sq: Square) -> Seq<char> {
    if on_board(sq.0 as int) {
        algebraic(sq.0 as int)
    } else {
        seq!['?'] + decimal(sq.0 as nat)
    }
}

/// How the kind of a move is written after its squares.
pub open spec fn kind_text(k: MoveKind) -> Seq<char> {
    match k {
        MoveKind::Castle => seq![' ', 'O', '-', 'O'],
        MoveKind::EnPassant => seq![' ', 'e', 'p'],
        MoveKind::Promotion(t) => seq![type_letter(t)],
        MoveKind::Normal => seq![],
    }
}

/// A move written as its two squares joined by `->`, then its kind.
pub open spec fn move_text(m: Move) -> Seq<char> {
    square_text(m.from) + seq!['-', '>'] + square_text(m.to) + kind_text(m.move_kind)
}

fn push_square(s: &mut String, sq: Square)
    ensures
        final(s)@ == old(s)@ + square_text(sq),
{
    match sq.as_algebraic() {
        Some(name) => {
            let cs = chars_of(name.as_str());
            push_char(s, cs[0]);
            push_char(s, cs[1]);
            assert(final(s)@ =~= old(s)@ + square_text(sq));
        },
        None => {
            push_char(s, '?');
            push_decimal(s, sq.0);
            assert(final(s)@ =~= old(s)@ + square_text(sq));
        },
    }
}

proof fn lemma_counted_king_exists(s: Seq<Option<Piece>>, c: Color, n: int)
    requires
        0 <= n <= s.len(),
        crate::fen::kings(s, c, n) > 0,
    ensures
        exists|k: int|
            0 <= k < n && (#[trigger] s[k] matches Some(p) && p.color == c && p.piece_type
                == PieceType::King),
    decreases n,
{
    if n > 0 {
        if crate::fen::kings(s, c, n - 1) > 0 {
            lemma_counted_king_exists(s, c, n - 1);
            let k = choose|k: int|
                0 <= k < n - 1 && (#[trigger] s[k] matches Some(p) && p.color == c && p.piece_type
                    == PieceType::King);
            assert(0 <= k < n);
        } else {
            assert(s[n - 1] matches Some(p) && p.color == c && p.piece_type == PieceType::King);
        }
    }
}

/// A board whose sides have one king each has a king of either colour, so
/// whether a side is in check can be asked of any board read from FEN.
pub proof fn lemma_boards_with_kings_have_kings(b: Board)
    requires
        crate::fen::kings_ok(b.pieces@),
    ensures
        has_king(b, Color::White),
        has_king(b, Color::Black),
{
    b.pieces.lemma_len();
    lemma_counted_king_exists(b.pieces@, Color::White, 32);
    lemma_counted_king_exists(b.pieces@, Color::Black, 32);
}

/// No square a step of at most 21 away from an index past the mailbox is playable.
proof fn lemma_far_steps_blocked(b: Board, from: int, color: Color, offs: Seq<isize>)
    requires
        from >= 120,
        small_offsets(offs),
    ensures
        step_targets(b, from, color, offs) == Seq::<(Square, MoveKind)>::empty(),
    decreases offs.len(),
{
    if offs.len() > 0 {
        assert(small_offsets(offs.drop_last()));
        lemma_far_steps_blocked(b, from, color, offs.drop_last());
        assert(-21 <= offs[offs.len() - 1] <= 21);
    }
}

/// No square a slide step away from an index past the mailbox is playable.
proof fn lemma_far_slides_blocked(b: Board, from: int, color: Color, offs: Seq<isize>)
    requires
        from >= 120,
        slide_offsets(offs),
    ensures
        slide_targets(b, from, color, offs) == Seq::<(Square, MoveKind)>::empty(),
    decreases offs.len(),
{
    if offs.len() > 0 {
        assert(slide_offsets(offs.drop_last()));
        lemma_far_slides_blocked(b, from, color, offs.drop_last());
        assert(-11 <= offs[offs.len() - 1] <= 11 && offs[offs.len() - 1] != 0);
        assert(ray(b, from, offs.last() as int, color) =~= seq![]);
    }
}

/// One of the eight directions of a sliding piece.
pub open spec fn is_direction(o: int) -> bool {
    o == 1 || o == -1 || o == 9 || o == -9 || o == 10 || o == -10 || o == 11 || o == -11
}

/// How many steps in direction `o` stay on the playable board from index
/// `cur`, as far as the file (for sideways steps) or the rank allows.
pub open spec fn room(cur: int, o: int) -> int {
    if o == 1 {
        8 - cur % 10
    } else if o == -1 {
        cur % 10 - 1
    } else if o > 0 {
        9 - cur / 10
    } else {
        cur / 10 - 2
    }
}

proof fn lemma_room_shrinks(cur: int, o: int)
    requires
        on_board(cur),
        is_direction(o),
    ensures
        0 <= room(cur, o) <= 7,
        on_board(cur + o) ==> room(cur + o, o) == room(cur, o) - 1,
{
    let r = cur / 10;
    let c = cur % 10;
    assert(cur == 10 * r + c);
    if on_board(cur + o) {
        if o == 1 || o == -1 {
            assert((cur + o) / 10 == r && (cur + o) % 10 == c + o);
        } else if o == 9 {
            assert((cur + o) / 10 == r + 1);
        } else if o == 10 {
            assert((cur + o) / 10 == r + 1);
        } else if o == 11 {
            assert((cur + o) / 10 == r + 1);
        } else if o == -9 {
            assert((cur + o) / 10 == r - 1);
        } else if o == -10 {
            assert((cur + o) / 10 == r - 1);
        } else {
            assert((cur + o) / 10 == r - 1);
        }
    }
}

/// A ray from a playable square in one of the eight directions passes at
/// most the squares left before the edge of the board, and so at most 7.
pub proof fn lemma_ray_stays_short(b: Board, cur: int, o: int, color: Color)
    requires
        on_board(cur),
        is_direction(o),
    ensures
        ray(b, cur, o, color).len() <= room(cur, o) <= 7,
    decreases (if o > 0 {
        130 - cur
    } else {
        cur + 20
    }),
{
    lemma_room_shrinks(cur, o);
    let t = cur + o;
    match b.classify(t, color) {
        Target::Blocked => {},
        Target::Capture => {
            lemma_room_shrinks(t, o);
        },
        Target::Empty => {
            lemma_room_shrinks(t, o);
            lemma_ray_stays_short(b, t, o, color);
        },
    }
}

/// Sliding from a playable square along directions `offs` reaches at most 7
/// squares per direction.
pub proof fn lemma_slide_targets_bounded(b: Board, from: int, color: Color, offs: Seq<isize>)
    requires
        on_board(from),
        forall|i: int| 0 <= i < offs.len() ==> is_direction(#[trigger] offs[i] as int),
    ensures
        slide_targets(b, from, color, offs).len() <= 7 * offs.len(),
    decreases offs.len(),
{
    if offs.len() > 0 {
        assert(is_direction(offs[offs.len() - 1] as int));
        lemma_slide_targets_bounded(b, from, color, offs.drop_last());
        lemma_ray_stays_short(b, from, offs.last() as int, color);
    }
}

/// Each promotion in `ms` comes with the promotions to every piece type a
/// pawn may become, between the same two squares.
pub open spec fn promotions_complete(ms: Seq<Move>) -> bool {
    forall|i: int, j: int|
        0 <= i < ms.len() && #[trigger] ms[i].move_kind is Promotion && 0 <= j < 4 ==> ms.contains(
            Move {
                from: ms[i].from,
                to: ms[i].to,
                move_kind: MoveKind::Promotion(#[trigger] promotion_types()[j]),
            },
        )
}

proof fn lemma_promotions_complete_append(a: Seq<Move>, b: Seq<Move>)
    requires
        promotions_complete(a),
        promotions_complete(b),
    ensures
        promotions_complete(a + b),
{
    let ab = a + b;
    assert forall|i: int, j: int|
        0 <= i < ab.len() && #[trigger] ab[i].move_kind is Promotion && 0 <= j < 4 implies ab.contains(
        Move {
            from: ab[i].from,
            to: ab[i].to,
            move_kind: MoveKind::Promotion(#[trigger] promotion_types()[j]),
        },
    ) by {
        let m = Move {
            from: ab[i].from,
            to: ab[i].to,
            move_kind: MoveKind::Promotion(promotion_types()[j]),
        };
        if i < a.len() {
            assert(ab[i] == a[i]);
            assert(a.contains(m));
            let k = choose|k: int| 0 <= k < a.len() && a[k] == m;
            assert(ab[k] == m);
        } else {
            assert(ab[i] == b[i - a.len()]);
            assert(b.contains(m));
            let k = choose|k: int| 0 <= k < b.len() && b[k] == m;
            assert(ab[k + a.len()] == m);
        }
    }
}

proof fn lemma_target_moves_complete(from: Square, e: (Square, MoveKind), pawn: bool, c: Color)
    requires
        !(e.1 is Promotion),
    ensures
        promotions_complete(target_moves(from, e, pawn, c)),
{
    let ms = target_moves(from, e, pawn, c);
    if pawn && e.0.0 as int / 10 == last_rank_row(c) {
        assert forall|i: int, j: int|
            0 <= i < ms.len() && #[trigger] ms[i].move_kind is Promotion && 0 <= j < 4 implies ms.contains(
            Move {
                from: ms[i].from,
                to: ms[i].to,
                move_kind: MoveKind::Promotion(#[trigger] promotion_types()[j]),
            },
        ) by {
            assert(ms[j] == Move {
                from: ms[i].from,
                to: ms[i].to,
                move_kind: MoveKind::Promotion(promotion_types()[j]),
            });
        }
    }
}

proof fn lemma_expand_complete(from: Square, ts: Seq<(Square, MoveKind)>, pawn: bool, c: Color)
    requires
        forall|i: int| 0 <= i < ts.len() ==> !((#[trigger] ts[i]).1 is Promotion),
    ensures
        promotions_complete(expand(from, ts, pawn, c)),
    decreases ts.len(),
{
    if ts.len() > 0 {
        assert forall|i: int| 0 <= i < ts.drop_last().len() implies !((#[trigger] ts.drop_last()[i]).1 is Promotion) by {
            assert(ts.drop_last()[i] == ts[i]);
        }
        lemma_expand_complete(from, ts.drop_last(), pawn, c);
        assert(!(ts[ts.len() - 1].1 is Promotion));
        lemma_target_moves_complete(from, ts.last(), pawn, c);
        lemma_promotions_complete_append(
            expand(from, ts.drop_last(), pawn, c),
            target_moves(from, ts.last(), pawn, c),
        );
    }
}

proof fn lemma_piece_targets_plain(b: Board, p: Piece, t: PieceType)
    ensures
        forall|i: int|
            0 <= i < piece_targets(b, p, t).len() ==> !((#[trigger] piece_targets(b, p, t)[i]).1 is Promotion),
{
    let ts = piece_targets(b, p, t);
    match behaviour_of(t) {
        MoveBehaviour::Slide => {
            lemma_slide_targets_reachable(b, p.square.0 as int, b.to_move, offsets_of(t));
            lemma_reachable_sound(b, ts, b.to_move);
        },
        MoveBehaviour::Step => {
            lemma_step_targets_reachable(b, p.square.0 as int, b.to_move, offsets_of(t));
            lemma_reachable_sound(b, ts, b.to_move);
        },
        MoveBehaviour::Pawn => {
            lemma_pawn_targets_sound(b, p.square.0 as int, b.to_move);
        },
    }
    assert forall|i: int| 0 <= i < ts.len() implies !((#[trigger] ts[i]).1 is Promotion) by {
        assert(sound_entry(b, ts[i], b.to_move));
    }
}

proof fn lemma_moves_from_complete(b: Board, ps: Seq<Piece>, t: PieceType)
    ensures
        promotions_complete(moves_from(b, ps, t)),
    decreases ps.len(),
{
    if ps.len() > 0 {
        lemma_moves_from_complete(b, ps.drop_last(), t);
        lemma_piece_targets_plain(b, ps.last(), t);
        lemma_expand_complete(
            ps.last().square,
            piece_targets(b, ps.last(), t),
            t == PieceType::Pawn,
            b.to_move,
        );
        lemma_promotions_complete_append(
            moves_from(b, ps.drop_last(), t),
            expand(ps.last().square, piece_targets(b, ps.last(), t), t == PieceType::Pawn, b.to_move),
        );
    }
}

/// Wherever the moves of a piece type hold a promotion, they hold the
/// promotion to each of queen, rook, bishop and knight between the same squares.
pub proof fn lemma_moves_of_type_promote_to_all(b: Board, t: PieceType)
    ensures
        promotions_complete(moves_of_type(b, t)),
{
    lemma_moves_from_complete(b, pieces_of_type(b, t, b.to_move), t);
}

proof fn lemma_moves_of_types_complete(b: Board, n: int)
    requires
        0 <= n <= 6,
    ensures
        promotions_complete(moves_of_types(b, n)),
    decreases n,
{
    if n > 0 {
        lemma_moves_of_types_complete(b, n - 1);
        lemma_moves_of_type_promote_to_all(b, all_piece_types()[n - 1]);
        lemma_promotions_complete_append(
            moves_of_types(b, n - 1),
            moves_of_type(b, all_piece_types()[n - 1]),
        );
    }
}

/// Wherever the generated moves hold a promotion, they hold the promotion to
/// each of queen, rook, bishop and knight between the same squares.
pub proof fn lemma_generated_moves_promote_to_all(b: Board)
    ensures
        promotions_complete(generated_moves(b)),
{
    lemma_moves_of_types_complete(b, 6);
}

/// A piece of type `t` not of colour `defender` stands on index `i`.
pub open spec fn enemy_at(b: Board, i: int, defender: Color, t: PieceType) -> bool {
    b.occupant(i) matches Some(p) && p.color != defender && p.piece_type == t
}

/// The squares strictly between index `sq` and `k` steps of `o` from it are
/// playable and empty.
pub open spec fn clear_path(b: Board, sq: int, o: int, k: int) -> bool {
    forall|j: int| 1 <= j < k ==> on_board(sq + #[trigger] (j * o)) && b.occupant(sq + j * o) is None
}

/// Some number of steps of `o` from index `sq` over empty squares ends on a
/// piece of type `t` not of colour `defender`.
pub open spec fn ray_attack(b: Board, sq: int, o: int, defender: Color, t: PieceType) -> bool {
    exists|k: int| k >= 1 && enemy_at(b, sq + #[trigger] (k * o), defender, t) && clear_path(b, sq, o, k)
}

/// A piece of type `t` not of colour `defender` strikes index `sq`: a
/// sliding piece from the end of an empty ray along one of its directions,
/// any other piece from one of its attack offsets away.
pub open spec fn attacks_from(b: Board, sq: int, defender: Color, t: PieceType) -> bool {
    if attack_behaviour_of(t) == MoveBehaviour::Slide {
        exists|i: int|
            0 <= i < offsets_of(t).len() && ray_attack(b, sq, #[trigger] offsets_of(t)[i] as int, defender, t)
    } else {
        exists|i: int|
            0 <= i < attack_offsets_of(t, defender).len() && enemy_at(
                b,
                sq + #[trigger] attack_offsets_of(t, defender)[i],
                defender,
                t,
            )
    }
}

/// Some entry of `ts` holds a piece of type `t` not of colour `defender`.
pub open spec fn hits(b: Board, ts: Seq<(Square, MoveKind)>, defender: Color, t: PieceType) -> bool {
    exists|j: int| 0 <= j < ts.len() && attacker_on(b, #[trigger] ts[j], defender, t)
}

proof fn lemma_enemy_on_board(b: Board, i: int, defender: Color, t: PieceType)
    requires
        b.wf(),
        enemy_at(b, i, defender, t),
    ensures
        on_board(i),
        b.classify(i, defender) == Target::Capture,
        attacker_on(b, entry(i), defender, t),
{
    crate::logic::lemma_pieces_reachable_by_square(b);
}

proof fn lemma_ray_attack(b: Board, cur: int, o: int, d: Color, t: PieceType)
    requires
        b.wf(),
        o != 0,
    ensures
        hits(b, ray(b, cur, o, d), d, t) <==> ray_attack(b, cur, o, d, t),
    decreases (if o > 0 {
        130 - cur
    } else {
        cur + 20
    }),
{
    let t0 = cur + o;
    let r = ray(b, cur, o, d);
    assert(1 * o == o);
    match b.classify(t0, d) {
        Target::Blocked => {
            if ray_attack(b, cur, o, d, t) {
                let k = choose|k: int| k >= 1 && enemy_at(b, cur + #[trigger] (k * o), d, t) && clear_path(b, cur, o, k);
                if k == 1 {
                    lemma_enemy_on_board(b, t0, d, t);
                } else {
                    assert(on_board(cur + 1 * o) && b.occupant(cur + 1 * o) is None);
                }
            }
        },
        Target::Capture => {
            assert(r == seq![entry(t0)]);
            if enemy_at(b, t0, d, t) {
                assert(enemy_at(b, cur + 1 * o, d, t) && clear_path(b, cur, o, 1));
                assert(ray_attack(b, cur, o, d, t));
                assert(attacker_on(b, r[0], d, t));
            } else {
                if ray_attack(b, cur, o, d, t) {
                    let k = choose|k: int| k >= 1 && enemy_at(b, cur + #[trigger] (k * o), d, t) && clear_path(b, cur, o, k);
                    if k > 1 {
                        assert(on_board(cur + 1 * o) && b.occupant(cur + 1 * o) is None);
                    }
                }
                if hits(b, r, d, t) {
                    let j = choose|j: int| 0 <= j < r.len() && attacker_on(b, #[trigger] r[j], d, t);
                    assert(j == 0);
                }
            }
        },
        Target::Empty => {
            lemma_ray_attack(b, t0, o, d, t);
            let rest = ray(b, t0, o, d);
            assert(r == seq![entry(t0)] + rest);
            assert(!attacker_on(b, r[0], d, t));
            if hits(b, r, d, t) {
                let j = choose|j: int| 0 <= j < r.len() && attacker_on(b, #[trigger] r[j], d, t);
                assert(j > 0);
                assert(r[j] == rest[j - 1]);
                assert(hits(b, rest, d, t));
                let k = choose|k: int| k >= 1 && enemy_at(b, t0 + #[trigger] (k * o), d, t) && clear_path(b, t0, o, k);
                assert((k + 1) * o == k * o + o) by (nonlinear_arith);
                assert forall|m: int| 1 <= m < k + 1 implies on_board(cur + #[trigger] (m * o)) && b.occupant(cur + m * o) is None by {
                    if m > 1 {
                        assert(m * o == (m - 1) * o + o) by (nonlinear_arith);
                        assert(on_board(t0 + (m - 1) * o) && b.occupant(t0 + (m - 1) * o) is None);
                    }
                }
                assert(enemy_at(b, cur + (k + 1) * o, d, t) && clear_path(b, cur, o, k + 1));
            }
            if ray_attack(b, cur, o, d, t) {
                let k = choose|k: int| k >= 1 && enemy_at(b, cur + #[trigger] (k * o), d, t) && clear_path(b, cur, o, k);
                if k == 1 {
                    assert(false);
                }
                assert((k - 1) * o + o == k * o) by (nonlinear_arith);
                assert forall|m: int| 1 <= m < k - 1 implies on_board(t0 + #[trigger] (m * o)) && b.occupant(t0 + m * o) is None by {
                    assert((m + 1) * o == m * o + o) by (nonlinear_arith);
                    assert(on_board(cur + (m + 1) * o) && b.occupant(cur + (m + 1) * o) is None);
                }
                assert(enemy_at(b, t0 + (k - 1) * o, d, t) && clear_path(b, t0, o, k - 1));
                assert(ray_attack(b, t0, o, d, t));
                let j = choose|j: int| 0 <= j < rest.len() && attacker_on(b, #[trigger] rest[j], d, t);
                assert(r[j + 1] == rest[j]);
            }
        },
    }
}

proof fn lemma_step_attack(b: Board, sq: int, d: Color, t: PieceType, offs: Seq<isize>)
    requires
        b.wf(),
    ensures
        hits(b, step_targets(b, sq, d, offs), d, t) <==> exists|i: int|
            0 <= i < offs.len() && enemy_at(b, sq + #[trigger] offs[i], d, t),
    decreases offs.len(),
{
    if offs.len() > 0 {
        let pre = offs.drop_last();
        lemma_step_attack(b, sq, d, t, pre);
        let rest = step_targets(b, sq, d, pre);
        let x = sq + offs.last();
        let ts = step_targets(b, sq, d, offs);
        if hits(b, ts, d, t) {
            let j = choose|j: int| 0 <= j < ts.len() && attacker_on(b, #[trigger] ts[j], d, t);
            if j < rest.len() {
                assert(ts[j] == rest[j]);
                assert(hits(b, rest, d, t));
                let i = choose|i: int| 0 <= i < pre.len() && enemy_at(b, sq + #[trigger] pre[i], d, t);
                assert(pre[i] == offs[i]);
            } else {
                assert(ts[j] == entry(x));
                assert(on_board(x));
                assert(enemy_at(b, sq + offs[offs.len() - 1], d, t));
            }
        }
        if exists|i: int| 0 <= i < offs.len() && enemy_at(b, sq + #[trigger] offs[i], d, t) {
            let i = choose|i: int| 0 <= i < offs.len() && enemy_at(b, sq + #[trigger] offs[i], d, t);
            if i < pre.len() {
                assert(pre[i] == offs[i]);
                assert(enemy_at(b, sq + pre[i], d, t));
                let j = choose|j: int| 0 <= j < rest.len() && attacker_on(b, #[trigger] rest[j], d, t);
                assert(ts[j] == rest[j]);
            } else {
                lemma_enemy_on_board(b, x, d, t);
                assert(ts[rest.len() as int] == entry(x));
            }
        }
    }
}

proof fn lemma_slide_attack(b: Board, sq: int, d: Color, t: PieceType, offs: Seq<isize>)
    requires
        b.wf(),
        slide_offsets(offs),
    ensures
        hits(b, slide_targets(b, sq, d, offs), d, t) <==> exists|i: int|
            0 <= i < offs.len() && ray_attack(b, sq, #[trigger] offs[i] as int, d, t),
    decreases offs.len(),
{
    if offs.len() > 0 {
        let pre = offs.drop_last();
        assert(slide_offsets(pre));
        lemma_slide_attack(b, sq, d, t, pre);
        let o = offs.last() as int;
        assert(o != 0);
        lemma_ray_attack(b, sq, o, d, t);
        let a = slide_targets(b, sq, d, pre);
        let r = ray(b, sq, o, d);
        let ts = slide_targets(b, sq, d, offs);
        assert(ts == a + r);
        if hits(b, ts, d, t) {
            let j = choose|j: int| 0 <= j < ts.len() && attacker_on(b, #[trigger] ts[j], d, t);
            if j < a.len() {
                assert(ts[j] == a[j]);
                assert(hits(b, a, d, t));
                let i = choose|i: int| 0 <= i < pre.len() && ray_attack(b, sq, #[trigger] pre[i] as int, d, t);
                assert(pre[i] == offs[i]);
            } else {
                assert(ts[j] == r[j - a.len()]);
                assert(hits(b, r, d, t));
                assert(ray_attack(b, sq, offs[offs.len() - 1] as int, d, t));
            }
        }
        if exists|i: int| 0 <= i < offs.len() && ray_attack(b, sq, #[trigger] offs[i] as int, d, t) {
            let i = choose|i: int| 0 <= i < offs.len() && ray_attack(b, sq, #[trigger] offs[i] as int, d, t);
            if i < pre.len() {
                assert(pre[i] == offs[i]);
                assert(ray_attack(b, sq, pre[i] as int, d, t));
                let j = choose|j: int| 0 <= j < a.len() && attacker_on(b, #[trigger] a[j], d, t);
                assert(ts[j] == a[j]);
            } else {
                let j = choose|j: int| 0 <= j < r.len() && attacker_on(b, #[trigger] r[j], d, t);
                assert(ts[j + a.len()] == r[j]);
            }
        }
    }
}

proof fn lemma_attacked_by_geometric(b: Board, sq: int, d: Color, t: PieceType)
    requires
        b.wf(),
    ensures
        attacked_by(b, sq, d, t) <==> attacks_from(b, sq, d, t),
{
    let ts = attack_targets(b, sq, d, t);
    if attack_behaviour_of(t) == MoveBehaviour::Slide {
        assert(slide_offsets(attack_offsets_of(t, d)));
        lemma_slide_attack(b, sq, d, t, attack_offsets_of(t, d));
        assert(attack_offsets_of(t, d) == offsets_of(t));
    } else {
        lemma_step_attack(b, sq, d, t, attack_offsets_of(t, d));
    }
    assert(attacked_by(b, sq, d, t) <==> hits(b, ts, d, t));
}

/// On a well-formed board, a piece of colour `defender` on index `sq` is
/// under attack exactly when an opposing piece strikes it: a rook, bishop or
/// queen from the end of an empty ray along one of its directions, a knight
/// or king from one of its offsets away, a pawn from one of the two squares
/// diagonally ahead of `sq` as the defender sees it.
pub proof fn lemma_under_attack_is_geometric(b: Board, sq: int, defender: Color)
    requires
        b.wf(),
    ensures
        under_attack(b, sq, defender) <==> exists|t: PieceType| #[trigger] attacks_from(b, sq, defender, t),
{
    let ts = all_piece_types();
    assert forall|i: int| 0 <= i < 6 implies attacked_by(b, sq, defender, #[trigger] ts[i]) <==> attacks_from(
        b,
        sq,
        defender,
        ts[i],
    ) by {
        lemma_attacked_by_geometric(b, sq, defender, ts[i]);
    }
    if exists|t: PieceType| #[trigger] attacks_from(b, sq, defender, t) {
        let t = choose|t: PieceType| #[trigger] attacks_from(b, sq, defender, t);
        let i: int = match t {
            PieceType::Pawn => 0,
            PieceType::Rook => 1,
            PieceType::Knight => 2,
            PieceType::Bishop => 3,
            PieceType::King => 4,
            PieceType::Queen => 5,
        };
        assert(ts[i] == t);
    }
}

/// No two entries of `ts` land on the same square.
pub open spec fn distinct_squares(ts: Seq<(Square, MoveKind)>) -> bool {
    forall|i: int, j: int| 0 <= i < ts.len() && 0 <= j < ts.len() && i != j ==> (#[trigger] ts[i]).0 != (#[trigger] ts[j]).0
}

/// Some entry of `ts` lands on `sq`.
pub open spec fn lands_on(ts: Seq<(Square, MoveKind)>, sq: Square) -> bool {
    exists|i: int| 0 <= i < ts.len() && (#[trigger] ts[i]).0 == sq
}

proof fn lemma_no_duplicates_append(a: Seq<Move>, b: Seq<Move>)
    requires
        a.no_duplicates(),
        b.no_duplicates(),
        forall|i: int, j: int| 0 <= i < a.len() && 0 <= j < b.len() ==> #[trigger] a[i] != #[trigger] b[j],
    ensures
        (a + b).no_duplicates(),
{
    let ab = a + b;
    assert forall|i: int, j: int| 0 <= i < ab.len() && 0 <= j < ab.len() && i != j implies ab[i] != ab[j] by {
        if i < a.len() && j < a.len() {
            assert(ab[i] == a[i] && ab[j] == a[j]);
        } else if i >= a.len() && j >= a.len() {
            assert(ab[i] == b[i - a.len()] && ab[j] == b[j - a.len()]);
        } else if i < a.len() {
            assert(ab[i] == a[i] && ab[j] == b[j - a.len()]);
        } else {
            assert(ab[j] == a[j] && ab[i] == b[i - a.len()]);
        }
    }
}

proof fn lemma_target_moves_distinct(from: Square, e: (Square, MoveKind), pawn: bool, c: Color)
    ensures
        target_moves(from, e, pawn, c).no_duplicates(),
        forall|k: int|
            0 <= k < target_moves(from, e, pawn, c).len() ==> (#[trigger] target_moves(from, e, pawn, c)[k]).from
                == from && target_moves(from, e, pawn, c)[k].to == e.0,
{
    let ms = target_moves(from, e, pawn, c);
    if pawn && e.0.0 as int / 10 == last_rank_row(c) {
        assert forall|i: int, j: int| 0 <= i < ms.len() && 0 <= j < ms.len() && i != j implies ms[i] != ms[j] by {
            assert(ms[i].move_kind == MoveKind::Promotion(promotion_types()[i]));
            assert(ms[j].move_kind == MoveKind::Promotion(promotion_types()[j]));
        }
    }
}

proof fn lemma_expand_distinct(from: Square, ts: Seq<(Square, MoveKind)>, pawn: bool, c: Color)
    requires
        distinct_squares(ts),
    ensures
        expand(from, ts, pawn, c).no_duplicates(),
        forall|k: int|
            0 <= k < expand(from, ts, pawn, c).len() ==> (#[trigger] expand(from, ts, pawn, c)[k]).from == from
                && lands_on(ts, expand(from, ts, pawn, c)[k].to),
    decreases ts.len(),
{
    if ts.len() > 0 {
        let pre = ts.drop_last();
        assert(distinct_squares(pre)) by {
            assert forall|i: int, j: int| 0 <= i < pre.len() && 0 <= j < pre.len() && i != j implies (#[trigger] pre[i]).0
                != (#[trigger] pre[j]).0 by {
                assert(pre[i] == ts[i] && pre[j] == ts[j]);
            }
        }
        lemma_expand_distinct(from, pre, pawn, c);
        let e = ts.last();
        lemma_target_moves_distinct(from, e, pawn, c);
        let a = expand(from, pre, pawn, c);
        let x = target_moves(from, e, pawn, c);
        assert forall|i: int, j: int| 0 <= i < a.len() && 0 <= j < x.len() implies #[trigger] a[i] != #[trigger] x[j] by {
            assert(lands_on(pre, a[i].to));
            let q = choose|q: int| 0 <= q < pre.len() && (#[trigger] pre[q]).0 == a[i].to;
            assert(pre[q] == ts[q]);
            assert(ts[q].0 != ts[ts.len() - 1].0);
        }
        lemma_no_duplicates_append(a, x);
        assert forall|k: int| 0 <= k < (a + x).len() implies (#[trigger] (a + x)[k]).from == from && lands_on(
            ts,
            (a + x)[k].to,
        ) by {
            if k < a.len() {
                assert((a + x)[k] == a[k]);
                assert(lands_on(pre, a[k].to));
                let q = choose|q: int| 0 <= q < pre.len() && (#[trigger] pre[q]).0 == a[k].to;
                assert(pre[q] == ts[q]);
            } else {
                assert((a + x)[k] == x[k - a.len()]);
                assert(ts[ts.len() - 1].0 == x[k - a.len()].to);
            }
        }
    }
}

/// Index `sq` is one of the offsets `offs` away from `from`.
pub open spec fn reached_by(sq: int, from: int, offs: Seq<isize>) -> bool {
    exists|i: int| 0 <= i < offs.len() && sq == from + #[trigger] offs[i]
}

proof fn lemma_step_targets_distinct(b: Board, from: int, c: Color, offs: Seq<isize>)
    requires
        offs.no_duplicates(),
    ensures
        distinct_squares(step_targets(b, from, c, offs)),
        forall|k: int|
            0 <= k < step_targets(b, from, c, offs).len() ==> reached_by(
                (#[trigger] step_targets(b, from, c, offs)[k]).0.0 as int,
                from,
                offs,
            ),
    decreases offs.len(),
{
    if offs.len() > 0 {
        let pre = offs.drop_last();
        assert(pre.no_duplicates()) by {
            assert forall|i: int, j: int| 0 <= i < pre.len() && 0 <= j < pre.len() && i != j implies pre[i] != pre[j] by {
                assert(pre[i] == offs[i] && pre[j] == offs[j]);
            }
        }
        lemma_step_targets_distinct(b, from, c, pre);
        lemma_step_targets_reachable(b, from, c, offs);
        let rest = step_targets(b, from, c, pre);
        let ts = step_targets(b, from, c, offs);
        let x = from + offs.last();
        assert forall|k: int| 0 <= k < rest.len() implies reached_by((#[trigger] rest[k]).0.0 as int, from, offs) by {
            assert(reached_by(rest[k].0.0 as int, from, pre));
            let i = choose|i: int| 0 <= i < pre.len() && rest[k].0.0 as int == from + #[trigger] pre[i];
            assert(pre[i] == offs[i]);
        }
        if b.classify(x, c) != Target::Blocked {
            assert(ts == rest.push(entry(x)));
            assert(on_board(x));
            assert(ts[rest.len() as int].0.0 as int == x);
            assert(reached_by(x, from, offs)) by {
                assert(x == from + offs[offs.len() - 1]);
            }
            assert forall|k: int| 0 <= k < rest.len() implies (#[trigger] rest[k]).0.0 as int != x by {
                assert(reached_by(rest[k].0.0 as int, from, pre));
                let i = choose|i: int| 0 <= i < pre.len() && rest[k].0.0 as int == from + #[trigger] pre[i];
                assert(pre[i] == offs[i]);
                assert(offs[i] != offs[offs.len() - 1]);
            }
            assert forall|i: int, j: int| 0 <= i < ts.len() && 0 <= j < ts.len() && i != j implies (#[trigger] ts[i]).0
                != (#[trigger] ts[j]).0 by {
                if i < rest.len() && j < rest.len() {
                    assert(ts[i] == rest[i] && ts[j] == rest[j]);
                } else if i < rest.len() {
                    assert(ts[i] == rest[i]);
                    assert(rest[i].0.0 as int != x);
                } else {
                    assert(ts[j] == rest[j]);
                    assert(rest[j].0.0 as int != x);
                }
            }
            assert forall|k: int| 0 <= k < ts.len() implies reached_by((#[trigger] ts[k]).0.0 as int, from, offs) by {
                if k < rest.len() {
                    assert(ts[k] == rest[k]);
                }
            }
        }
    }
}

/// Two of the eight directions, each taken at most 7 times, never reach
/// the same square.
proof fn lemma_directions_apart(o1: int, o2: int, m1: int, m2: int)
    requires
        is_direction(o1),
        is_direction(o2),
        o1 != o2,
        1 <= m1 <= 7,
        1 <= m2 <= 7,
    ensures
        m1 * o1 != m2 * o2,
{
    if o1 == 1 || o1 == -1 {
        assert(-7 <= m1 * o1 <= 7 && (m1 * o1 > 0 <==> o1 > 0)) by (nonlinear_arith)
            requires o1 == 1 || o1 == -1, 1 <= m1 <= 7;
        if o2 == 1 || o2 == -1 {
            assert(m2 * o2 > 0 <==> o2 > 0) by (nonlinear_arith)
                requires o2 == 1 || o2 == -1, 1 <= m2;
        } else {
            assert(m2 * o2 >= 9 || m2 * o2 <= -9) by (nonlinear_arith)
                requires is_direction(o2), o2 != 1, o2 != -1, 1 <= m2;
        }
    } else if o2 == 1 || o2 == -1 {
        assert(-7 <= m2 * o2 <= 7) by (nonlinear_arith)
            requires o2 == 1 || o2 == -1, 1 <= m2 <= 7;
        assert(m1 * o1 >= 9 || m1 * o1 <= -9) by (nonlinear_arith)
            requires is_direction(o1), o1 != 1, o1 != -1, 1 <= m1;
    } else {
        assert(m1 * o1 != m2 * o2) by (nonlinear_arith)
            requires is_direction(o1), is_direction(o2), o1 != o2, o1 != 1, o1 != -1, o2 != 1, o2 != -1,
                1 <= m1 <= 7, 1 <= m2 <= 7;
    }
}

/// Entry `j` of `r` is the square `j + 1` steps of `o` from index `cur`, a
/// playable one.
pub open spec fn ray_shape(r: Seq<(Square, MoveKind)>, cur: int, o: int) -> bool {
    forall|j: int|
        0 <= j < r.len() ==> (#[trigger] r[j]).0.0 as int == cur + (j + 1) * o && on_board(cur + (j + 1) * o)
}

proof fn lemma_ray_elements(b: Board, cur: int, o: int, c: Color)
    requires
        o != 0,
    ensures
        ray_shape(ray(b, cur, o, c), cur, o),
    decreases (if o > 0 {
        130 - cur
    } else {
        cur + 20
    }),
{
    let t0 = cur + o;
    let r = ray(b, cur, o, c);
    match b.classify(t0, c) {
        Target::Blocked => {
            assert(r.len() == 0);
            assert(ray_shape(r, cur, o));
        },
        Target::Capture => {
            assert(r =~= seq![entry(t0)]);
            assert forall|j: int| 0 <= j < r.len() implies (#[trigger] r[j]).0.0 as int == cur + (j + 1) * o
                && on_board(cur + (j + 1) * o) by {
                assert(j == 0);
                assert((j + 1) * o == o) by (nonlinear_arith)
                    requires j == 0;
                assert(on_board(t0));
            }
            assert(ray_shape(r, cur, o));
        },
        Target::Empty => {
            lemma_ray_elements(b, t0, o, c);
            let rest = ray(b, t0, o, c);
            assert(on_board(t0));
            assert(r == seq![entry(t0)] + rest);
            assert forall|j: int| 0 <= j < r.len() implies (#[trigger] r[j]).0.0 as int == cur + (j + 1) * o
                && on_board(cur + (j + 1) * o) by {
                if j == 0 {
                    assert(r[0] == entry(t0));
                    assert((j + 1) * o == o) by (nonlinear_arith)
                        requires j == 0;
                } else {
                    assert(r[j] == rest[j - 1]);
                    assert(t0 + (j - 1 + 1) * o == cur + (j + 1) * o) by (nonlinear_arith)
                        requires t0 == cur + o;
                }
            }
            assert(ray_shape(r, cur, o));
        },
    }
}

/// Index `sq` is between 1 and 7 steps along one of the directions `offs`
/// from `from`.
pub open spec fn along(sq: int, from: int, offs: Seq<isize>) -> bool {
    exists|i: int, m: int| 0 <= i < offs.len() && 1 <= m <= 7 && sq == from + #[trigger] (m * offs[i])
}

proof fn lemma_slide_targets_distinct(b: Board, from: int, c: Color, offs: Seq<isize>)
    requires
        on_board(from),
        forall|i: int| 0 <= i < offs.len() ==> is_direction(#[trigger] offs[i] as int),
        offs.no_duplicates(),
    ensures
        distinct_squares(slide_targets(b, from, c, offs)),
        forall|k: int|
            0 <= k < slide_targets(b, from, c, offs).len() ==> along(
                (#[trigger] slide_targets(b, from, c, offs)[k]).0.0 as int,
                from,
                offs,
            ),
    decreases offs.len(),
{
    if offs.len() > 0 {
        let pre = offs.drop_last();
        assert(pre.no_duplicates()) by {
            assert forall|i: int, j: int| 0 <= i < pre.len() && 0 <= j < pre.len() && i != j implies pre[i] != pre[j] by {
                assert(pre[i] == offs[i] && pre[j] == offs[j]);
            }
        }
        lemma_slide_targets_distinct(b, from, c, pre);
        let o = offs.last() as int;
        assert(is_direction(offs[offs.len() - 1] as int));
        lemma_ray_elements(b, from, o, c);
        lemma_ray_stays_short(b, from, o, c);
        let a = slide_targets(b, from, c, pre);
        let r = ray(b, from, o, c);
        let ts = slide_targets(b, from, c, offs);
        assert(ts == a + r);
        assert forall|k: int| 0 <= k < a.len() implies along((#[trigger] a[k]).0.0 as int, from, offs) && !(exists|m: int|
            1 <= m <= 7 && a[k].0.0 as int == from + #[trigger] (m * o)) by {
            assert(along(a[k].0.0 as int, from, pre));
            let (i, m) = choose|i: int, m: int| 0 <= i < pre.len() && 1 <= m <= 7 && a[k].0.0 as int == from + #[trigger] (m * pre[i]);
            assert(pre[i] == offs[i]);
            assert(a[k].0.0 as int == from + m * offs[i]);
            assert(offs[i] != offs[offs.len() - 1]);
            assert(is_direction(offs[i] as int));
            assert forall|m2: int| 1 <= m2 <= 7 implies a[k].0.0 as int != from + #[trigger] (m2 * o) by {
                lemma_directions_apart(offs[i] as int, o, m, m2);
            }
        }
        assert forall|j: int| 0 <= j < r.len() implies along((#[trigger] r[j]).0.0 as int, from, offs) by {
            assert(r[j].0.0 as int == from + (j + 1) * o);
            assert(r[j].0.0 as int == from + (j + 1) * offs[offs.len() - 1]);
        }
        assert forall|i: int, j: int| 0 <= i < ts.len() && 0 <= j < ts.len() && i != j implies (#[trigger] ts[i]).0
            != (#[trigger] ts[j]).0 by {
            if i < a.len() && j < a.len() {
                assert(ts[i] == a[i] && ts[j] == a[j]);
            } else if i >= a.len() && j >= a.len() {
                assert(ts[i] == r[i - a.len()] && ts[j] == r[j - a.len()]);
                let ji = i - a.len();
                let jj = j - a.len();
                assert((ji + 1) * o != (jj + 1) * o) by (nonlinear_arith)
                    requires o != 0, ji != jj;
            } else if i < a.len() {
                assert(ts[i] == a[i] && ts[j] == r[j - a.len()]);
                let jj = j - a.len();
                assert(r[jj].0.0 as int == from + (jj + 1) * o);
                assert(!(exists|m: int| 1 <= m <= 7 && a[i].0.0 as int == from + #[trigger] (m * o)));
                assert(a[i].0.0 as int != from + (jj + 1) * o);
            } else {
                assert(ts[j] == a[j] && ts[i] == r[i - a.len()]);
                let ji = i - a.len();
                assert(r[ji].0.0 as int == from + (ji + 1) * o);
                assert(!(exists|m: int| 1 <= m <= 7 && a[j].0.0 as int == from + #[trigger] (m * o)));
                assert(a[j].0.0 as int != from + (ji + 1) * o);
            }
        }
        assert forall|k: int| 0 <= k < ts.len() implies along((#[trigger] ts[k]).0.0 as int, from, offs) by {
            if k < a.len() {
                assert(ts[k] == a[k]);
            } else {
                assert(ts[k] == r[k - a.len()]);
            }
        }
    }
}

proof fn lemma_three_parts_distinct(
    p: Seq<(Square, MoveKind)>,
    x: Seq<(Square, MoveKind)>,
    e: Seq<(Square, MoveKind)>,
    t1: int,
    t2: int,
    c1: int,
    c2: int,
)
    requires
        t1 != t2 && t1 != c1 && t1 != c2 && t2 != c1 && t2 != c2 && c1 != c2,
        p.len() <= 2,
        p.len() >= 1 ==> p[0].0.0 as int == t1,
        p.len() == 2 ==> p[1].0.0 as int == t2,
        x.len() <= 2,
        x.len() == 1 ==> x[0].0.0 as int == c1 || x[0].0.0 as int == c2,
        x.len() == 2 ==> x[0].0.0 as int == c1 && x[1].0.0 as int == c2,
        e.len() <= 1,
        e.len() == 1 ==> (e[0].0.0 as int == c1 || e[0].0.0 as int == c2) && (forall|k: int|
            0 <= k < x.len() ==> (#[trigger] x[k]).0 != e[0].0),
    ensures
        distinct_squares(p + x + e),
{
    let ts = p + x + e;
    let px = p + x;
    assert forall|i: int, j: int| 0 <= i < ts.len() && 0 <= j < ts.len() && i != j implies (#[trigger] ts[i]).0
        != (#[trigger] ts[j]).0 by {
        if i < p.len() {
            assert(ts[i] == p[i]);
        } else if i < px.len() {
            assert(ts[i] == x[i - p.len()]);
        } else {
            assert(ts[i] == e[i - px.len()]);
        }
        if j < p.len() {
            assert(ts[j] == p[j]);
        } else if j < px.len() {
            assert(ts[j] == x[j - p.len()]);
        } else {
            assert(ts[j] == e[j - px.len()]);
        }
    }
}

proof fn lemma_pawn_targets_distinct(b: Board, from: int, c: Color)
    requires
        b.en_passant_target matches Some(ts) ==> b.classify(ts.0 as int, c) == Target::Empty,
    ensures
        distinct_squares(pawn_targets(b, from, c)),
{
    let dir = forward(c);
    let t1 = from + 10 * dir;
    let t2 = from + 20 * dir;
    let c1 = from + 9 * dir;
    let c2 = from + 11 * dir;
    let pushes = if b.classify(t1, c) == Target::Empty {
        if from / 10 == pawn_start_row(c) && b.classify(t2, c) == Target::Empty {
            seq![entry(t1), entry(t2)]
        } else {
            seq![entry(t1)]
        }
    } else {
        seq![]
    };
    let x1 = if b.classify(c1, c) == Target::Capture {
        seq![entry(c1)]
    } else {
        seq![]
    };
    let x2 = if b.classify(c2, c) == Target::Capture {
        seq![entry(c2)]
    } else {
        seq![]
    };
    let caps = x1 + x2;
    let ep = match b.en_passant_target {
        Some(ts) => if ts.0 == c1 || ts.0 == c2 {
            seq![(ts, MoveKind::EnPassant)]
        } else {
            seq![]
        },
        None => seq![],
    };
    assert(pawn_targets(b, from, c) == pushes + caps + ep);
    if b.classify(t1, c) == Target::Empty {
        assert(pushes[0].0.0 as int == t1);
        if pushes.len() == 2 {
            assert(pushes[1].0.0 as int == t2);
        }
    }
    if x1.len() == 1 {
        assert(x1[0].0.0 as int == c1);
    }
    if x2.len() == 1 {
        assert(x2[0].0.0 as int == c2);
    }
    if caps.len() == 1 {
        if x1.len() == 1 {
            assert(caps[0] == x1[0]);
        } else {
            assert(caps[0] == x2[0]);
        }
    }
    if caps.len() == 2 {
        assert(caps[0] == x1[0] && caps[1] == x2[0]);
    }
    if ep.len() == 1 {
        let ts = b.en_passant_target->0;
        assert(ep[0].0 == ts);
        assert(b.classify(ts.0 as int, c) == Target::Empty);
        assert forall|k: int| 0 <= k < caps.len() implies (#[trigger] caps[k]).0 != ep[0].0 by {
            if caps[k].0 == ts {
                if caps[k].0.0 as int == c1 {
                    assert(b.classify(c1, c) == Target::Capture);
                } else {
                    assert(b.classify(c2, c) == Target::Capture);
                }
            }
        }
    }
    lemma_three_parts_distinct(pushes, caps, ep, t1, t2, c1, c2);
}

/// No two pieces of `ps` stand on the same square.
pub open spec fn apart(ps: Seq<Piece>) -> bool {
    forall|i: int, j: int|
        0 <= i < ps.len() && 0 <= j < ps.len() && i != j ==> (#[trigger] ps[i]).square != (#[trigger] ps[j]).square
}

/// Some piece of `ps` stands on `sq`.
pub open spec fn stands_in(ps: Seq<Piece>, sq: Square) -> bool {
    exists|i: int| 0 <= i < ps.len() && (#[trigger] ps[i]).square == sq
}

proof fn lemma_present_from_slots(s: Seq<Option<Piece>>, lo: int, n: int)
    requires
        0 <= lo <= n <= s.len(),
    ensures
        forall|i: int|
            0 <= i < present(s, lo, n).len() ==> exists|k: int|
                lo <= k < n && s[k] == Some(#[trigger] present(s, lo, n)[i]),
    decreases n - lo,
{
    if n > lo {
        lemma_present_from_slots(s, lo, n - 1);
        let ps = present(s, lo, n);
        let prev = present(s, lo, n - 1);
        assert forall|i: int| 0 <= i < ps.len() implies exists|k: int| lo <= k < n && s[k] == Some(#[trigger] ps[i]) by {
            if i < prev.len() {
                assert(ps[i] == prev[i]);
                let k = choose|k: int| lo <= k < n - 1 && s[k] == Some(#[trigger] prev[i]);
                assert(lo <= k < n && s[k] == Some(ps[i]));
            } else {
                assert(s[n - 1] == Some(ps[i]));
            }
        }
    }
}

proof fn lemma_present_apart(s: Seq<Option<Piece>>, lo: int, n: int)
    requires
        slots_wf(s),
        0 <= lo <= n <= 32,
    ensures
        apart(present(s, lo, n)),
    decreases n - lo,
{
    if n > lo {
        lemma_present_apart(s, lo, n - 1);
        lemma_present_from_slots(s, lo, n - 1);
        let ps = present(s, lo, n);
        let prev = present(s, lo, n - 1);
        if s[n - 1] is Some {
            let p = s[n - 1]->0;
            assert(ps == prev.push(p));
            assert forall|i: int| 0 <= i < prev.len() implies (#[trigger] prev[i]).square != p.square by {
                let k = choose|k: int| lo <= k < n - 1 && s[k] == Some(#[trigger] prev[i]);
                assert(s[k] is Some && s[n - 1] is Some);
            }
            assert forall|i: int, j: int| 0 <= i < ps.len() && 0 <= j < ps.len() && i != j implies (#[trigger] ps[i]).square
                != (#[trigger] ps[j]).square by {
                if i < prev.len() && j < prev.len() {
                    assert(ps[i] == prev[i] && ps[j] == prev[j]);
                } else if i < prev.len() {
                    assert(ps[i] == prev[i]);
                } else {
                    assert(ps[j] == prev[j]);
                }
            }
        }
    }
}

proof fn lemma_of_type_apart(ps: Seq<Piece>, t: PieceType)
    requires
        apart(ps),
    ensures
        apart(of_type(ps, t)),
        forall|i: int| 0 <= i < of_type(ps, t).len() ==> ps.contains(#[trigger] of_type(ps, t)[i]),
    decreases ps.len(),
{
    if ps.len() > 0 {
        let pre = ps.drop_last();
        assert(apart(pre)) by {
            assert forall|i: int, j: int| 0 <= i < pre.len() && 0 <= j < pre.len() && i != j implies (#[trigger] pre[i]).square
                != (#[trigger] pre[j]).square by {
                assert(pre[i] == ps[i] && pre[j] == ps[j]);
            }
        }
        lemma_of_type_apart(pre, t);
        let q = of_type(pre, t);
        let r = of_type(ps, t);
        let last = ps[ps.len() - 1];
        assert forall|i: int| 0 <= i < q.len() implies ps.contains(#[trigger] q[i]) && q[i].square != last.square by {
            assert(pre.contains(q[i]));
            let k = choose|k: int| 0 <= k < pre.len() && pre[k] == q[i];
            assert(ps[k] == q[i]);
        }
        if last.piece_type == t {
            assert(r == q.push(last));
            assert forall|i: int, j: int| 0 <= i < r.len() && 0 <= j < r.len() && i != j implies (#[trigger] r[i]).square
                != (#[trigger] r[j]).square by {
                if i < q.len() && j < q.len() {
                    assert(r[i] == q[i] && r[j] == q[j]);
                } else if i < q.len() {
                    assert(r[i] == q[i]);
                } else {
                    assert(r[j] == q[j]);
                }
            }
            assert forall|i: int| 0 <= i < r.len() implies ps.contains(#[trigger] r[i]) by {
                if i < q.len() {
                    assert(r[i] == q[i]);
                } else {
                    assert(ps[ps.len() - 1] == r[i]);
                }
            }
        }
    }
}

proof fn lemma_moves_from_distinct(b: Board, ps: Seq<Piece>, t: PieceType)
    requires
        apart(ps),
        forall|i: int| 0 <= i < ps.len() ==> distinct_squares(piece_targets(b, #[trigger] ps[i], t)),
    ensures
        moves_from(b, ps, t).no_duplicates(),
        forall|k: int| 0 <= k < moves_from(b, ps, t).len() ==> stands_in(ps, (#[trigger] moves_from(b, ps, t)[k]).from),
    decreases ps.len(),
{
    if ps.len() > 0 {
        let pre = ps.drop_last();
        assert(apart(pre)) by {
            assert forall|i: int, j: int| 0 <= i < pre.len() && 0 <= j < pre.len() && i != j implies (#[trigger] pre[i]).square
                != (#[trigger] pre[j]).square by {
                assert(pre[i] == ps[i] && pre[j] == ps[j]);
            }
        }
        assert forall|i: int| 0 <= i < pre.len() implies distinct_squares(piece_targets(b, #[trigger] pre[i], t)) by {
            assert(pre[i] == ps[i]);
        }
        lemma_moves_from_distinct(b, pre, t);
        let p = ps[ps.len() - 1];
        assert(distinct_squares(piece_targets(b, p, t)));
        lemma_expand_distinct(p.square, piece_targets(b, p, t), t == PieceType::Pawn, b.to_move);
        let a = moves_from(b, pre, t);
        let x = expand(p.square, piece_targets(b, p, t), t == PieceType::Pawn, b.to_move);
        assert(moves_from(b, ps, t) == a + x);
        assert forall|i: int, j: int| 0 <= i < a.len() && 0 <= j < x.len() implies #[trigger] a[i] != #[trigger] x[j] by {
            assert(stands_in(pre, a[i].from));
            let q = choose|q: int| 0 <= q < pre.len() && (#[trigger] pre[q]).square == a[i].from;
            assert(pre[q] == ps[q]);
            assert(ps[q].square != ps[ps.len() - 1].square);
        }
        lemma_no_duplicates_append(a, x);
        assert forall|k: int| 0 <= k < (a + x).len() implies stands_in(ps, (#[trigger] (a + x)[k]).from) by {
            if k < a.len() {
                assert((a + x)[k] == a[k]);
                assert(stands_in(pre, a[k].from));
                let q = choose|q: int| 0 <= q < pre.len() && (#[trigger] pre[q]).square == a[k].from;
                assert(pre[q] == ps[q]);
            } else {
                assert((a + x)[k] == x[k - a.len()]);
                assert(ps[ps.len() - 1].square == x[k - a.len()].from);
            }
        }
    }
}

proof fn lemma_piece_targets_distinct(b: Board, p: Piece, t: PieceType)
    requires
        on_board(p.square.0 as int),
        b.en_passant_empty(),
    ensures
        distinct_squares(piece_targets(b, p, t)),
{
    let offs = offsets_of(t);
    assert(offs.no_duplicates() && forall|i: int| 0 <= i < offs.len() && behaviour_of(t) == MoveBehaviour::Slide
        ==> is_direction(#[trigger] offs[i] as int)) by {
        match t {
            PieceType::Pawn => {},
            PieceType::Rook => {},
            PieceType::Knight => {},
            PieceType::Bishop => {},
            PieceType::King => {},
            PieceType::Queen => {},
        }
    }
    match behaviour_of(t) {
        MoveBehaviour::Slide => {
            lemma_slide_targets_distinct(b, p.square.0 as int, b.to_move, offs);
        },
        MoveBehaviour::Step => {
            lemma_step_targets_distinct(b, p.square.0 as int, b.to_move, offs);
        },
        MoveBehaviour::Pawn => {
            lemma_pawn_targets_distinct(b, p.square.0 as int, b.to_move);
        },
    }
}

/// On a well-formed board whose en passant target, if there is one, the
/// side to move finds empty (as on every board read from FEN), the moves of
/// a piece type hold no move twice.
pub proof fn lemma_moves_of_type_distinct(b: Board, t: PieceType)
    requires
        b.wf(),
        b.en_passant_empty(),
    ensures
        moves_of_type(b, t).no_duplicates(),
{
    let ps = pieces_of_type(b, t, b.to_move);
    lemma_pieces_of_type_placed(b, t, b.to_move);
    if b.to_move == Color::White {
        lemma_present_apart(b.pieces@, 0, 16);
        lemma_of_type_apart(present(b.pieces@, 0, 16), t);
    } else {
        lemma_present_apart(b.pieces@, 16, 32);
        lemma_of_type_apart(present(b.pieces@, 16, 32), t);
    }
    assert forall|i: int| 0 <= i < ps.len() implies distinct_squares(piece_targets(b, #[trigger] ps[i], t)) by {
        assert(on_board(ps[i].square.0 as int));
        lemma_piece_targets_distinct(b, ps[i], t);
    }
    lemma_moves_from_distinct(b, ps, t);
}

proof fn lemma_moves_of_types_distinct(b: Board, n: int)
    requires
        b.wf(),
        b.en_passant_empty(),
        0 <= n <= 6,
    ensures
        moves_of_types(b, n).no_duplicates(),
        forall|k: int|
            0 <= k < moves_of_types(b, n).len() ==> (b.occupant((#[trigger] moves_of_types(b, n)[k]).from.0 as int)
                matches Some(p) && exists|q: int| 0 <= q < n && p.piece_type == all_piece_types()[q]),
    decreases n,
{
    if n > 0 {
        lemma_moves_of_types_distinct(b, n - 1);
        let t = all_piece_types()[n - 1];
        lemma_moves_of_type_distinct(b, t);
        lemma_moves_of_type_sound(b, t);
        let a = moves_of_types(b, n - 1);
        let x = moves_of_type(b, t);
        assert(moves_of_types(b, n) == a + x);
        assert forall|i: int, j: int| 0 <= i < a.len() && 0 <= j < x.len() implies #[trigger] a[i] != #[trigger] x[j] by {
            assert(sound_move(b, x[j], t));
            let p = b.occupant(a[i].from.0 as int)->0;
            let q = choose|q: int| 0 <= q < n - 1 && p.piece_type == all_piece_types()[q];
            assert(all_piece_types()[q] != all_piece_types()[n - 1]);
        }
        lemma_no_duplicates_append(a, x);
        assert forall|k: int| 0 <= k < (a + x).len() implies (b.occupant((#[trigger] (a + x)[k]).from.0 as int)
            matches Some(p) && exists|q: int| 0 <= q < n && p.piece_type == all_piece_types()[q]) by {
            if k < a.len() {
                assert((a + x)[k] == a[k]);
                let p = b.occupant(a[k].from.0 as int)->0;
                let q = choose|q: int| 0 <= q < n - 1 && p.piece_type == all_piece_types()[q];
                assert(0 <= q < n);
            } else {
                assert((a + x)[k] == x[k - a.len()]);
                assert(sound_move(b, x[k - a.len()], t));
                assert(0 <= n - 1 < n);
            }
        }
    }
}

/// On a well-formed board whose en passant target, if there is one, the
/// side to move finds empty (as on every board read from FEN), the
/// generated moves hold no move twice.
pub proof fn lemma_generated_moves_distinct(b: Board)
    requires
        b.wf(),
        b.en_passant_empty(),
    ensures
        generated_moves(b).no_duplicates(),
{
    lemma_moves_of_types_distinct(b, 6);
}

/// Pieces of type `t` and colour `c`.
pub open spec fn of_kind(t: PieceType, c: Color) -> spec_fn(Piece) -> bool {
    |p: Piece| p.piece_type == t && p.color == c
}

proof fn lemma_of_type_filters(ps: Seq<Piece>, t: PieceType, c: Color)
    requires
        forall|i: int| 0 <= i < ps.len() ==> (#[trigger] ps[i]).color == c,
    ensures
        of_type(ps, t) == ps.filter(of_kind(t, c)),
    decreases ps.len(),
{
    reveal(Seq::filter);
    if ps.len() > 0 {
        let pre = ps.drop_last();
        assert forall|i: int| 0 <= i < pre.len() implies (#[trigger] pre[i]).color == c by {
            assert(pre[i] == ps[i]);
        }
        lemma_of_type_filters(pre, t, c);
        assert(ps[ps.len() - 1].color == c);
    }
}

proof fn lemma_filter_other_colour(ps: Seq<Piece>, t: PieceType, c: Color)
    requires
        forall|i: int| 0 <= i < ps.len() ==> (#[trigger] ps[i]).color != c,
    ensures
        ps.filter(of_kind(t, c)) == Seq::<Piece>::empty(),
    decreases ps.len(),
{
    reveal(Seq::filter);
    if ps.len() > 0 {
        let pre = ps.drop_last();
        assert forall|i: int| 0 <= i < pre.len() implies (#[trigger] pre[i]).color != c by {
            assert(pre[i] == ps[i]);
        }
        lemma_filter_other_colour(pre, t, c);
        assert(ps[ps.len() - 1].color != c);
    }
}

/// With well-formed slots, the pieces of type `t` in the slots of colour
/// `c` are exactly the pieces of that type and colour among all pieces, in
/// slot order.
pub proof fn lemma_pieces_of_type_are_all_of_kind(b: Board, t: PieceType, c: Color)
    requires
        slots_wf(b.pieces@),
    ensures
        pieces_of_type(b, t, c) == present(b.pieces@, 0, 32).filter(of_kind(t, c)),
{
    let s = b.pieces@;
    crate::types::lemma_present_split(s, 0, 16, 32);
    lemma_present_placed(s, 0, 16, Color::White);
    lemma_present_placed(s, 16, 32, Color::Black);
    let w = present(s, 0, 16);
    let k = present(s, 16, 32);
    assert forall|i: int| 0 <= i < w.len() implies (#[trigger] w[i]).color == Color::White by {
        assert(on_board(w[i].square.0 as int));
    }
    assert forall|i: int| 0 <= i < k.len() implies (#[trigger] k[i]).color == Color::Black by {
        assert(on_board(k[i].square.0 as int));
    }
    Seq::filter_distributes_over_add(w, k, of_kind(t, c));
    if c == Color::White {
        lemma_of_type_filters(w, t, c);
        lemma_filter_other_colour(k, t, c);
        assert(w.filter(of_kind(t, c)) + Seq::<Piece>::empty() == w.filter(of_kind(t, c)));
    } else {
        lemma_of_type_filters(k, t, c);
        lemma_filter_other_colour(w, t, c);
        assert(Seq::<Piece>::empty() + k.filter(of_kind(t, c)) == k.filter(of_kind(t, c)));
    }
}

proof fn lemma_append_contains<A>(a: Seq<A>, b: Seq<A>)
    ensures
        forall|x: A| #[trigger] (a + b).contains(x) <==> a.contains(x) || b.contains(x),
{
    assert forall|x: A| #[trigger] (a + b).contains(x) <==> a.contains(x) || b.contains(x) by {
        if (a + b).contains(x) {
            let k = choose|k: int| 0 <= k < (a + b).len() && (a + b)[k] == x;
            if k < a.len() {
                assert(a[k] == x);
            } else {
                assert(b[k - a.len()] == x);
            }
        }
        if a.contains(x) {
            let k = choose|k: int| 0 <= k < a.len() && a[k] == x;
            assert((a + b)[k] == x);
        }
        if b.contains(x) {
            let k = choose|k: int| 0 <= k < b.len() && b[k] == x;
            assert((a + b)[k + a.len()] == x);
        }
    }
}

proof fn lemma_moves_of_types_members(b: Board, n: int)
    requires
        0 <= n <= 6,
    ensures
        forall|m: Move|
            #[trigger] moves_of_types(b, n).contains(m) <==> exists|q: int|
                0 <= q < n && #[trigger] moves_of_type(b, all_piece_types()[q]).contains(m),
    decreases n,
{
    if n > 0 {
        lemma_moves_of_types_members(b, n - 1);
        let a = moves_of_types(b, n - 1);
        let x = moves_of_type(b, all_piece_types()[n - 1]);
        lemma_append_contains(a, x);
        assert(moves_of_types(b, n) == a + x);
        assert forall|m: Move| #[trigger] moves_of_types(b, n).contains(m) <==> exists|q: int|
            0 <= q < n && #[trigger] moves_of_type(b, all_piece_types()[q]).contains(m) by {
            if exists|q: int| 0 <= q < n && #[trigger] moves_of_type(b, all_piece_types()[q]).contains(m) {
                let q = choose|q: int| 0 <= q < n && #[trigger] moves_of_type(b, all_piece_types()[q]).contains(m);
                if q < n - 1 {
                    assert(a.contains(m));
                }
            }
            if a.contains(m) {
                let q = choose|q: int| 0 <= q < n - 1 && #[trigger] moves_of_type(b, all_piece_types()[q]).contains(m);
                assert(0 <= q < n);
            }
        }
    } else {
        assert forall|m: Move| !#[trigger] moves_of_types(b, 0).contains(m) by {}
    }
}

/// The generated moves are the moves of every piece type together: a move
/// is generated exactly when it is a move of some piece type, pawn, rook,
/// knight, bishop, king or queen.
pub proof fn lemma_generated_moves_cover_every_type(b: Board)
    ensures
        forall|m: Move, t: PieceType| #[trigger] moves_of_type(b, t).contains(m) ==> #[trigger] generated_moves(
            b,
        ).contains(m),
        forall|m: Move|
            #[trigger] generated_moves(b).contains(m) ==> exists|t: PieceType| #[trigger] moves_of_type(b, t).contains(m),
{
    lemma_moves_of_types_members(b, 6);
    assert forall|m: Move, t: PieceType| #[trigger] moves_of_type(b, t).contains(m) implies #[trigger] generated_moves(
        b,
    ).contains(m) by {
        let q: int = match t {
            PieceType::Pawn => 0,
            PieceType::Rook => 1,
            PieceType::Knight => 2,
            PieceType::Bishop => 3,
            PieceType::King => 4,
            PieceType::Queen => 5,
        };
        assert(all_piece_types()[q] == t);
        assert(moves_of_type(b, all_piece_types()[q]).contains(m));
    }
    assert forall|m: Move| #[trigger] generated_moves(b).contains(m) implies exists|t: PieceType| #[trigger] moves_of_type(
        b,
        t,
    ).contains(m) by {
        let q = choose|q: int| 0 <= q < 6 && #[trigger] moves_of_type(b, all_piece_types()[q]).contains(m);
        assert(moves_of_type(b, all_piece_types()[q]).contains(m));
    }
}

/// A pawn of colour `c` stands on index `i`.
pub open spec fn pawn_on(b: Board, i: int, c: Color) -> bool {
    b.occupant(i) matches Some(p) && p.color == c && p.piece_type == PieceType::Pawn
}

/// On a well-formed board a pawn strikes the two squares diagonally in front
/// of it: a black piece on index `sq` is attacked by a pawn exactly when a
/// white pawn stands at `sq - 11` or `sq - 9`, a white piece exactly when a
/// black pawn stands at `sq + 9` or `sq + 11`; and such a pawn puts the
/// square under attack.
pub proof fn lemma_pawns_strike_forward_diagonals(b: Board, sq: int)
    requires
        b.wf(),
    ensures
        attacked_by(b, sq, Color::Black, PieceType::Pawn) <==> (pawn_on(b, sq - 11, Color::White) || pawn_on(
            b,
            sq - 9,
            Color::White,
        )),
        attacked_by(b, sq, Color::White, PieceType::Pawn) <==> (pawn_on(b, sq + 9, Color::Black) || pawn_on(
            b,
            sq + 11,
            Color::Black,
        )),
        pawn_on(b, sq - 11, Color::White) || pawn_on(b, sq - 9, Color::White) ==> under_attack(
            b,
            sq,
            Color::Black,
        ),
        pawn_on(b, sq + 9, Color::Black) || pawn_on(b, sq + 11, Color::Black) ==> under_attack(
            b,
            sq,
            Color::White,
        ),
{
    lemma_attacked_by_geometric(b, sq, Color::Black, PieceType::Pawn);
    lemma_attacked_by_geometric(b, sq, Color::White, PieceType::Pawn);
    let ob = attack_offsets_of(PieceType::Pawn, Color::Black);
    let ow = attack_offsets_of(PieceType::Pawn, Color::White);
    assert(ob.len() == 2 && ob[0] == -11 && ob[1] == -9);
    assert(ow.len() == 2 && ow[0] == 11 && ow[1] == 9);
    assert(enemy_at(b, sq - 11, Color::Black, PieceType::Pawn) <==> pawn_on(b, sq - 11, Color::White));
    assert(enemy_at(b, sq - 9, Color::Black, PieceType::Pawn) <==> pawn_on(b, sq - 9, Color::White));
    assert(enemy_at(b, sq + 11, Color::White, PieceType::Pawn) <==> pawn_on(b, sq + 11, Color::Black));
    assert(enemy_at(b, sq + 9, Color::White, PieceType::Pawn) <==> pawn_on(b, sq + 9, Color::Black));
    if pawn_on(b, sq - 11, Color::White) {
        assert(enemy_at(b, sq + ob[0], Color::Black, PieceType::Pawn));
    }
    if pawn_on(b, sq - 9, Color::White) {
        assert(enemy_at(b, sq + ob[1], Color::Black, PieceType::Pawn));
    }
    if pawn_on(b, sq + 11, Color::Black) {
        assert(enemy_at(b, sq + ow[0], Color::White, PieceType::Pawn));
    }
    if pawn_on(b, sq + 9, Color::Black) {
        assert(enemy_at(b, sq + ow[1], Color::White, PieceType::Pawn));
    }
    assert(all_piece_types()[0] == PieceType::Pawn);
}

proof fn lemma_present_contains(s: Seq<Option<Piece>>, lo: int, n: int, k: int)
    requires
        lo <= k < n <= s.len(),
        s[k] is Some,
    ensures
        present(s, lo, n).contains(s[k]->0),
    decreases n - lo,
{
    let prev = present(s, lo, n - 1);
    if k < n - 1 {
        lemma_present_contains(s, lo, n - 1, k);
        let j = choose|j: int| 0 <= j < prev.len() && prev[j] == s[k]->0;
        match s[n - 1] {
            Some(q) => {
                assert(present(s, lo, n) == prev.push(q));
                assert(present(s, lo, n)[j] == s[k]->0);
            },
            None => {},
        }
    } else {
        assert(present(s, lo, n) == prev.push(s[k]->0));
        assert(present(s, lo, n)[prev.len() as int] == s[k]->0);
    }
}

proof fn lemma_of_type_contains(ps: Seq<Piece>, t: PieceType, p: Piece)
    requires
        ps.contains(p),
        p.piece_type == t,
    ensures
        of_type(ps, t).contains(p),
    decreases ps.len(),
{
    let pre = ps.drop_last();
    let q = of_type(pre, t);
    if ps.last() == p {
        assert(of_type(ps, t) == q.push(p));
        assert(of_type(ps, t)[q.len() as int] == p);
    } else {
        let j = choose|j: int| 0 <= j < ps.len() && ps[j] == p;
        assert(j < ps.len() - 1);
        assert(pre[j] == p);
        lemma_of_type_contains(pre, t, p);
        let k = choose|k: int| 0 <= k < q.len() && q[k] == p;
        if ps.last().piece_type == t {
            assert(of_type(ps, t) == q.push(ps.last()));
            assert(of_type(ps, t)[k] == p);
        }
    }
}

proof fn lemma_expand_contains(from: Square, ts: Seq<(Square, MoveKind)>, pawn: bool, c: Color, j: int)
    requires
        0 <= j < ts.len(),
    ensures
        forall|m: Move| #[trigger] target_moves(from, ts[j], pawn, c).contains(m) ==> expand(from, ts, pawn, c).contains(m),
    decreases ts.len(),
{
    let a = expand(from, ts.drop_last(), pawn, c);
    let x = target_moves(from, ts.last(), pawn, c);
    lemma_append_contains(a, x);
    assert(expand(from, ts, pawn, c) == a + x);
    if j < ts.len() - 1 {
        lemma_expand_contains(from, ts.drop_last(), pawn, c, j);
        assert(ts.drop_last()[j] == ts[j]);
    }
}

proof fn lemma_moves_from_contains(b: Board, ps: Seq<Piece>, t: PieceType, pawn: bool, i: int)
    requires
        0 <= i < ps.len(),
        pawn == (t == PieceType::Pawn),
    ensures
        forall|m: Move|
            #[trigger] expand(ps[i].square, piece_targets(b, ps[i], t), pawn, b.to_move).contains(m)
                ==> moves_from(b, ps, t).contains(m),
    decreases ps.len(),
{
    let a = moves_from(b, ps.drop_last(), t);
    let x = expand(ps.last().square, piece_targets(b, ps.last(), t), pawn, b.to_move);
    lemma_append_contains(a, x);
    assert(moves_from(b, ps, t) == a + x);
    if i < ps.len() - 1 {
        lemma_moves_from_contains(b, ps.drop_last(), t, pawn, i);
        assert(ps.drop_last()[i] == ps[i]);
    }
}

/// On a well-formed board, when the en passant target is one of the two
/// squares diagonally in front of a pawn of the side to move (`+9` or `+11`
/// for white, `-9` or `-11` for black) and not on the rank where that pawn
/// would promote, the pawn moves and the generated moves hold the en passant
/// capture from that pawn onto the target.
pub proof fn lemma_en_passant_is_generated(b: Board, from: int)
    requires
        b.wf(),
        pawn_on(b, from, b.to_move),
        b.en_passant_target is Some,
        b.to_move == Color::White ==> ((b.en_passant_target->0).0 == from + 9 || (b.en_passant_target->0).0
            == from + 11) && (b.en_passant_target->0).0 / 10 != 9,
        b.to_move == Color::Black ==> ((b.en_passant_target->0).0 == from - 9 || (b.en_passant_target->0).0
            == from - 11) && (b.en_passant_target->0).0 / 10 != 2,
    ensures
        moves_of_type(b, PieceType::Pawn).contains(
            Move { from: Square(from as usize), to: b.en_passant_target->0, move_kind: MoveKind::EnPassant },
        ),
        generated_moves(b).contains(
            Move { from: Square(from as usize), to: b.en_passant_target->0, move_kind: MoveKind::EnPassant },
        ),
{
    let ts = b.en_passant_target->0;
    let c = b.to_move;
    let mv = Move { from: Square(from as usize), to: ts, move_kind: MoveKind::EnPassant };
    let s = b.pieces@;
    crate::logic::lemma_pieces_reachable_by_square(b);
    let p = b.occupant(from)->0;
    assert(p.square.0 == from && on_board(from));
    let k = b.squares@[from]->0 as int;
    crate::logic::lemma_slot_at_below(s, from, 32);
    assert(0 <= k < 32 && s[k] == Some(p));
    if c == Color::White {
        assert(k < 16);
        lemma_present_contains(s, 0, 16, k);
        lemma_of_type_contains(present(s, 0, 16), PieceType::Pawn, p);
    } else {
        assert(k >= 16);
        lemma_present_contains(s, 16, 32, k);
        lemma_of_type_contains(present(s, 16, 32), PieceType::Pawn, p);
    }
    let ps = pieces_of_type(b, PieceType::Pawn, c);
    assert(ps.contains(p));
    let i = choose|i: int| 0 <= i < ps.len() && ps[i] == p;
    lemma_moves_from_contains(b, ps, PieceType::Pawn, true, i);
    let tg = piece_targets(b, p, PieceType::Pawn);
    assert(tg == pawn_targets(b, from, c));
    assert(tg.last() == (ts, MoveKind::EnPassant));
    lemma_expand_contains(p.square, tg, true, c, tg.len() - 1);
    let tm = target_moves(p.square, tg[tg.len() - 1], true, c);
    assert(tm == seq![mv]);
    assert(tm[0] == mv);
    assert(tm.contains(mv));
    assert(moves_of_type(b, PieceType::Pawn).contains(mv));
    lemma_generated_moves_cover_every_type(b);
}

/// A piece of type `t` and colour `c` stands on index `i`.
pub open spec fn piece_on(b: Board, i: int, c: Color, t: PieceType) -> bool {
    b.occupant(i) matches Some(p) && p.color == c && p.piece_type == t
}

/// Index `i` is a playable square that holds no piece of colour `c`.
pub open spec fn open_for(b: Board, i: int, c: Color) -> bool {
    on_board(i) && !(b.occupant(i) matches Some(q) && q.color == c)
}

proof fn lemma_entry_generated(b: Board, from: int, t: PieceType, pawn: bool, e: (Square, MoveKind))
    requires
        b.wf(),
        piece_on(b, from, b.to_move, t),
        pawn == (t == PieceType::Pawn),
        piece_targets(b, b.occupant(from)->0, t).contains(e),
    ensures
        forall|m: Move|
            #[trigger] target_moves(Square(from as usize), e, pawn, b.to_move).contains(m) ==> moves_of_type(
                b,
                t,
            ).contains(m),
{
    let c = b.to_move;
    let s = b.pieces@;
    crate::logic::lemma_pieces_reachable_by_square(b);
    let p = b.occupant(from)->0;
    assert(p.square.0 == from && on_board(from));
    assert(p.square == Square(from as usize));
    let k = b.squares@[from]->0 as int;
    crate::logic::lemma_slot_at_below(s, from, 32);
    assert(0 <= k < 32 && s[k] == Some(p));
    if c == Color::White {
        assert(k < 16);
        lemma_present_contains(s, 0, 16, k);
        lemma_of_type_contains(present(s, 0, 16), t, p);
    } else {
        assert(k >= 16);
        lemma_present_contains(s, 16, 32, k);
        lemma_of_type_contains(present(s, 16, 32), t, p);
    }
    let ps = pieces_of_type(b, t, c);
    assert(ps.contains(p));
    let i = choose|i: int| 0 <= i < ps.len() && ps[i] == p;
    lemma_moves_from_contains(b, ps, t, pawn, i);
    let tg = piece_targets(b, p, t);
    let j = choose|j: int| 0 <= j < tg.len() && tg[j] == e;
    lemma_expand_contains(p.square, tg, pawn, c, j);
}

proof fn lemma_step_targets_contain(b: Board, from: int, c: Color, offs: Seq<isize>, i: int)
    requires
        0 <= i < offs.len(),
        b.classify(from + offs[i], c) != Target::Blocked,
    ensures
        step_targets(b, from, c, offs).contains(entry(from + offs[i])),
    decreases offs.len(),
{
    let rest = step_targets(b, from, c, offs.drop_last());
    if i == offs.len() - 1 {
        assert(step_targets(b, from, c, offs) == rest.push(entry(from + offs[i])));
        assert(step_targets(b, from, c, offs)[rest.len() as int] == entry(from + offs[i]));
    } else {
        assert(offs.drop_last()[i] == offs[i]);
        lemma_step_targets_contain(b, from, c, offs.drop_last(), i);
        let k = choose|k: int| 0 <= k < rest.len() && rest[k] == entry(from + offs[i]);
        if b.classify(from + offs.last(), c) != Target::Blocked {
            assert(step_targets(b, from, c, offs)[k] == rest[k]);
        }
    }
}

proof fn lemma_ray_contains(b: Board, cur: int, o: int, c: Color, k: int)
    requires
        o != 0,
        k >= 1,
        forall|j: int| 1 <= j < k ==> b.classify(cur + #[trigger] (j * o), c) == Target::Empty,
        b.classify(cur + k * o, c) != Target::Blocked,
    ensures
        ray(b, cur, o, c).contains(entry(cur + k * o)),
    decreases (if o > 0 {
        130 - cur
    } else {
        cur + 20
    }),
{
    let t0 = cur + o;
    let r = ray(b, cur, o, c);
    assert(1 * o == o);
    if k == 1 {
        assert(r[0] == entry(t0));
    } else {
        assert(b.classify(cur + 1 * o, c) == Target::Empty);
        let rest = ray(b, t0, o, c);
        assert(r == seq![entry(t0)] + rest);
        assert((k - 1) * o + o == k * o) by (nonlinear_arith);
        assert forall|j: int| 1 <= j < k - 1 implies b.classify(t0 + #[trigger] (j * o), c) == Target::Empty by {
            assert((j + 1) * o == j * o + o) by (nonlinear_arith);
            assert(b.classify(cur + (j + 1) * o, c) == Target::Empty);
        }
        lemma_ray_contains(b, t0, o, c, k - 1);
        let q = choose|q: int| 0 <= q < rest.len() && rest[q] == entry(t0 + (k - 1) * o);
        assert(r[q + 1] == rest[q]);
    }
}

proof fn lemma_slide_targets_contain(b: Board, from: int, c: Color, offs: Seq<isize>, i: int, e: (Square, MoveKind))
    requires
        0 <= i < offs.len(),
        ray(b, from, offs[i] as int, c).contains(e),
    ensures
        slide_targets(b, from, c, offs).contains(e),
    decreases offs.len(),
{
    let a = slide_targets(b, from, c, offs.drop_last());
    let r = ray(b, from, offs.last() as int, c);
    lemma_append_contains(a, r);
    assert(slide_targets(b, from, c, offs) == a + r);
    if i < offs.len() - 1 {
        assert(offs.drop_last()[i] == offs[i]);
        lemma_slide_targets_contain(b, from, c, offs.drop_last(), i, e);
    }
}

/// On a well-formed board a knight or king of the side to move on `from`
/// can step by each of its offsets (a knight's jumps `±8`, `±12`, `±19`,
/// `±21`; a king's one square in any direction, `±1`, `±9`, `±10`, `±11`)
/// onto any playable square that holds no piece of its own colour: that
/// move is among the moves of its type and the generated moves.
pub proof fn lemma_steps_are_generated(b: Board, from: int, t: PieceType, o: int)
    requires
        b.wf(),
        piece_on(b, from, b.to_move, t),
        (t == PieceType::Knight && (o == 21 || o == 19 || o == 12 || o == 8 || o == -8 || o == -12 || o
            == -19 || o == -21)) || (t == PieceType::King && (o == 9 || o == 10 || o == 11 || o == -9 || o
            == -10 || o == -11 || o == 1 || o == -1)),
        open_for(b, from + o, b.to_move),
    ensures
        moves_of_type(b, t).contains(
            Move { from: Square(from as usize), to: Square((from + o) as usize), move_kind: MoveKind::Normal },
        ),
        generated_moves(b).contains(
            Move { from: Square(from as usize), to: Square((from + o) as usize), move_kind: MoveKind::Normal },
        ),
{
    let c = b.to_move;
    let offs = offsets_of(t);
    let mv = Move { from: Square(from as usize), to: Square((from + o) as usize), move_kind: MoveKind::Normal };
    crate::logic::lemma_pieces_reachable_by_square(b);
    let p = b.occupant(from)->0;
    assert(p.square.0 == from);
    assert(exists|i: int| 0 <= i < offs.len() && offs[i] as int == o) by {
        if t == PieceType::Knight {
            assert(offs[0] == 21 && offs[1] == 19 && offs[2] == 12 && offs[3] == 8);
            assert(offs[4] == -8 && offs[5] == -12 && offs[6] == -19 && offs[7] == -21);
        } else {
            assert(offs[0] == 9 && offs[1] == 10 && offs[2] == 11 && offs[3] == -9);
            assert(offs[4] == -10 && offs[5] == -11 && offs[6] == 1 && offs[7] == -1);
        }
    }
    let i = choose|i: int| 0 <= i < offs.len() && offs[i] as int == o;
    assert(b.classify(from + o, c) != Target::Blocked);
    lemma_step_targets_contain(b, from, c, offs, i);
    assert(piece_targets(b, p, t) == step_targets(b, from, c, offs));
    lemma_entry_generated(b, from, t, false, entry(from + o));
    let tm = target_moves(Square(from as usize), entry(from + o), false, c);
    assert(tm[0] == mv);
    assert(tm.contains(mv));
    lemma_generated_moves_cover_every_type(b);
}

/// On a well-formed board a rook, bishop or queen of the side to move on
/// `from` can slide `k` squares along each of its directions (a rook's `±1`,
/// `±10`; a bishop's `±9`, `±11`; a queen's all eight) over empty playable
/// squares, onto a playable square that holds no piece of its own colour:
/// that move is among the moves of its type and the generated moves.
pub proof fn lemma_slides_are_generated(b: Board, from: int, t: PieceType, o: int, k: int)
    requires
        b.wf(),
        piece_on(b, from, b.to_move, t),
        (t == PieceType::Rook && (o == 1 || o == 10 || o == -10 || o == -1)) || (t == PieceType::Bishop && (o
            == 11 || o == 9 || o == -9 || o == -11)) || (t == PieceType::Queen && (o == 1 || o == 10 || o
            == -10 || o == -1 || o == 11 || o == 9 || o == -9 || o == -11)),
        k >= 1,
        forall|j: int| 1 <= j < k ==> on_board(from + #[trigger] (j * o)) && b.occupant(from + j * o) is None,
        open_for(b, from + k * o, b.to_move),
    ensures
        moves_of_type(b, t).contains(
            Move { from: Square(from as usize), to: Square((from + k * o) as usize), move_kind: MoveKind::Normal },
        ),
        generated_moves(b).contains(
            Move { from: Square(from as usize), to: Square((from + k * o) as usize), move_kind: MoveKind::Normal },
        ),
{
    let c = b.to_move;
    let offs = offsets_of(t);
    let mv = Move { from: Square(from as usize), to: Square((from + k * o) as usize), move_kind: MoveKind::Normal };
    crate::logic::lemma_pieces_reachable_by_square(b);
    let p = b.occupant(from)->0;
    assert(p.square.0 == from);
    assert(exists|i: int| 0 <= i < offs.len() && offs[i] as int == o) by {
        if t == PieceType::Rook {
            assert(offs[0] == 1 && offs[1] == 10 && offs[2] == -10 && offs[3] == -1);
        } else if t == PieceType::Bishop {
            assert(offs[0] == 11 && offs[1] == 9 && offs[2] == -9 && offs[3] == -11);
        } else {
            assert(offs[0] == 11 && offs[1] == 9 && offs[2] == -9 && offs[3] == -11);
            assert(offs[4] == 1 && offs[5] == 10 && offs[6] == -10 && offs[7] == -1);
        }
    }
    let i = choose|i: int| 0 <= i < offs.len() && offs[i] as int == o;
    assert forall|j: int| 1 <= j < k implies b.classify(from + #[trigger] (j * o), c) == Target::Empty by {
        assert(on_board(from + j * o) && b.occupant(from + j * o) is None);
    }
    lemma_ray_contains(b, from, o, c, k);
    lemma_slide_targets_contain(b, from, c, offs, i, entry(from + k * o));
    assert(piece_targets(b, p, t) == slide_targets(b, from, c, offs));
    lemma_entry_generated(b, from, t, false, entry(from + k * o));
    let tm = target_moves(Square(from as usize), entry(from + k * o), false, c);
    assert(tm[0] == mv);
    assert(tm.contains(mv));
    lemma_generated_moves_cover_every_type(b);
}

/// The moves a pawn move onto `to` becomes: the ordinary move, or on the
/// last rank `last` the promotion to each of queen, rook, bishop and knight.
pub open spec fn pawn_move_made(ms: Seq<Move>, from: int, to: int, last: int) -> bool {
    if to / 10 == last {
        &&& ms.contains(Move { from: Square(from as usize), to: Square(to as usize), move_kind: MoveKind::Promotion(PieceType::Queen) })
        &&& ms.contains(Move { from: Square(from as usize), to: Square(to as usize), move_kind: MoveKind::Promotion(PieceType::Rook) })
        &&& ms.contains(Move { from: Square(from as usize), to: Square(to as usize), move_kind: MoveKind::Promotion(PieceType::Bishop) })
        &&& ms.contains(Move { from: Square(from as usize), to: Square(to as usize), move_kind: MoveKind::Promotion(PieceType::Knight) })
    } else {
        ms.contains(Move { from: Square(from as usize), to: Square(to as usize), move_kind: MoveKind::Normal })
    }
}

proof fn lemma_pawn_entry_made(b: Board, from: int, to: int, last: int)
    requires
        b.wf(),
        piece_on(b, from, b.to_move, PieceType::Pawn),
        last == (if b.to_move == Color::White { 9int } else { 2int }),
        on_board(to),
        piece_targets(b, b.occupant(from)->0, PieceType::Pawn).contains(entry(to)),
    ensures
        pawn_move_made(moves_of_type(b, PieceType::Pawn), from, to, last),
{
    let c = b.to_move;
    lemma_entry_generated(b, from, PieceType::Pawn, true, entry(to));
    let tm = target_moves(Square(from as usize), entry(to), true, c);
    assert(entry(to).0.0 as int == to);
    if to / 10 == last {
        assert(tm == promotion_moves(Square(from as usize), Square(to as usize)));
        assert(tm[0].move_kind == MoveKind::Promotion(PieceType::Queen));
        assert(tm[1].move_kind == MoveKind::Promotion(PieceType::Rook));
        assert(tm[2].move_kind == MoveKind::Promotion(PieceType::Bishop));
        assert(tm[3].move_kind == MoveKind::Promotion(PieceType::Knight));
        assert(tm.contains(tm[0]) && tm.contains(tm[1]) && tm.contains(tm[2]) && tm.contains(tm[3]));
    } else {
        assert(tm[0] == Move { from: Square(from as usize), to: Square(to as usize), move_kind: MoveKind::Normal });
        assert(tm.contains(tm[0]));
    }
}

/// On a well-formed board a pawn of the side to move on `from`, going
/// forward by `10 * d` (`d` is 1 for white, -1 for black), moves one square
/// onto an empty playable square; from its starting rank (mailbox row
/// `start`, 3 for white and 8 for black) two squares when both are empty;
/// and diagonally forward (`9 * d` or `11 * d`) onto a playable square
/// holding a piece of the other colour. Each such move is among the pawn
/// moves, as the plain move or, onto the last rank `last` (row 9 for white,
/// 2 for black), as the four promotions.
pub proof fn lemma_pawn_moves_are_generated(b: Board, from: int, d: int, start: int, last: int)
    requires
        b.wf(),
        piece_on(b, from, b.to_move, PieceType::Pawn),
        d == (if b.to_move == Color::White { 1int } else { -1int }),
        start == (if b.to_move == Color::White { 3int } else { 8int }),
        last == (if b.to_move == Color::White { 9int } else { 2int }),
    ensures
        on_board(from + 10 * d) && b.occupant(from + 10 * d) is None ==> pawn_move_made(
            moves_of_type(b, PieceType::Pawn),
            from,
            from + 10 * d,
            last,
        ),
        from / 10 == start && on_board(from + 10 * d) && b.occupant(from + 10 * d) is None && on_board(
            from + 20 * d,
        ) && b.occupant(from + 20 * d) is None ==> pawn_move_made(
            moves_of_type(b, PieceType::Pawn),
            from,
            from + 20 * d,
            last,
        ),
        on_board(from + 9 * d) && (b.occupant(from + 9 * d) matches Some(q) && q.color != b.to_move)
            ==> pawn_move_made(moves_of_type(b, PieceType::Pawn), from, from + 9 * d, last),
        on_board(from + 11 * d) && (b.occupant(from + 11 * d) matches Some(q) && q.color != b.to_move)
            ==> pawn_move_made(moves_of_type(b, PieceType::Pawn), from, from + 11 * d, last),
{
    let c = b.to_move;
    crate::logic::lemma_pieces_reachable_by_square(b);
    let p = b.occupant(from)->0;
    assert(p.square.0 == from);
    let tg = piece_targets(b, p, PieceType::Pawn);
    assert(tg == pawn_targets(b, from, c));
    assert(forward(c) == d && pawn_start_row(c) == start);
    let t1 = from + 10 * d;
    let t2 = from + 20 * d;
    let c1 = from + 9 * d;
    let c2 = from + 11 * d;
    let pushes = if b.classify(t1, c) == Target::Empty {
        if from / 10 == start && b.classify(t2, c) == Target::Empty {
            seq![entry(t1), entry(t2)]
        } else {
            seq![entry(t1)]
        }
    } else {
        seq![]
    };
    let x1 = if b.classify(c1, c) == Target::Capture {
        seq![entry(c1)]
    } else {
        seq![]
    };
    let x2 = if b.classify(c2, c) == Target::Capture {
        seq![entry(c2)]
    } else {
        seq![]
    };
    let ep = match b.en_passant_target {
        Some(ts) => if ts.0 == c1 || ts.0 == c2 {
            seq![(ts, MoveKind::EnPassant)]
        } else {
            seq![]
        },
        None => seq![],
    };
    assert(tg == pushes + (x1 + x2) + ep);
    lemma_append_contains(pushes + (x1 + x2), ep);
    lemma_append_contains(pushes, x1 + x2);
    lemma_append_contains(x1, x2);
    if on_board(t1) && b.occupant(t1) is None {
        assert(pushes[0] == entry(t1));
        assert(pushes.contains(entry(t1)));
        lemma_pawn_entry_made(b, from, t1, last);
        if from / 10 == start && on_board(t2) && b.occupant(t2) is None {
            assert(pushes[1] == entry(t2));
            assert(pushes.contains(entry(t2)));
            lemma_pawn_entry_made(b, from, t2, last);
        }
    }
    if on_board(c1) && (b.occupant(c1) matches Some(q) && q.color != c) {
        assert(x1[0] == entry(c1));
        assert(x1.contains(entry(c1)));
        lemma_pawn_entry_made(b, from, c1, last);
    }
    if on_board(c2) && (b.occupant(c2) matches Some(q) && q.color != c) {
        assert(x2[0] == entry(c2));
        assert(x2.contains(entry(c2)));
        lemma_pawn_entry_made(b, from, c2, last);
    }
}

proof fn lemma_expand_all(from: Square, ts: Seq<(Square, MoveKind)>, pawn: bool, c: Color, good: spec_fn(Move) -> bool)
    requires
        forall|j: int, k: int|
            0 <= j < ts.len() && 0 <= k < target_moves(from, ts[j], pawn, c).len() ==> good(
                #[trigger] target_moves(from, ts[j], pawn, c)[k],
            ),
    ensures
        forall|k: int| 0 <= k < expand(from, ts, pawn, c).len() ==> good(#[trigger] expand(from, ts, pawn, c)[k]),
    decreases ts.len(),
{
    if ts.len() > 0 {
        let pre = ts.drop_last();
        assert forall|j: int, k: int|
            0 <= j < pre.len() && 0 <= k < target_moves(from, pre[j], pawn, c).len() implies good(
            #[trigger] target_moves(from, pre[j], pawn, c)[k],
        ) by {
            assert(pre[j] == ts[j]);
        }
        lemma_expand_all(from, pre, pawn, c, good);
        let a = expand(from, pre, pawn, c);
        let x = target_moves(from, ts.last(), pawn, c);
        assert(expand(from, ts, pawn, c) == a + x);
        assert forall|k: int| 0 <= k < (a + x).len() implies good(#[trigger] (a + x)[k]) by {
            if k < a.len() {
                assert((a + x)[k] == a[k]);
            } else {
                assert((a + x)[k] == x[k - a.len()]);
                assert(good(target_moves(from, ts[ts.len() - 1], pawn, c)[k - a.len()]));
            }
        }
    }
}

proof fn lemma_moves_from_all(b: Board, ps: Seq<Piece>, t: PieceType, pawn: bool, good: spec_fn(Move) -> bool)
    requires
        pawn == (t == PieceType::Pawn),
        forall|i: int, k: int|
            0 <= i < ps.len() && 0 <= k < expand(ps[i].square, piece_targets(b, ps[i], t), pawn, b.to_move).len()
                ==> good(#[trigger] expand(ps[i].square, piece_targets(b, ps[i], t), pawn, b.to_move)[k]),
    ensures
        forall|k: int| 0 <= k < moves_from(b, ps, t).len() ==> good(#[trigger] moves_from(b, ps, t)[k]),
    decreases ps.len(),
{
    if ps.len() > 0 {
        let pre = ps.drop_last();
        assert forall|i: int, k: int|
            0 <= i < pre.len() && 0 <= k < expand(pre[i].square, piece_targets(b, pre[i], t), pawn, b.to_move).len()
                implies good(#[trigger] expand(pre[i].square, piece_targets(b, pre[i], t), pawn, b.to_move)[k]) by {
            assert(pre[i] == ps[i]);
        }
        lemma_moves_from_all(b, pre, t, pawn, good);
        let a = moves_from(b, pre, t);
        let p = ps[ps.len() - 1];
        let x = expand(p.square, piece_targets(b, p, t), pawn, b.to_move);
        assert(moves_from(b, ps, t) == a + x);
        assert forall|k: int| 0 <= k < (a + x).len() implies good(#[trigger] (a + x)[k]) by {
            if k < a.len() {
                assert((a + x)[k] == a[k]);
            } else {
                assert((a + x)[k] == x[k - a.len()]);
            }
        }
    }
}

/// `d` is a knight's jump for a knight, one square in any direction for a king.
pub open spec fn step_offset(t: PieceType, d: int) -> bool {
    ||| (t == PieceType::Knight && (d == 21 || d == 19 || d == 12 || d == 8 || d == -8 || d == -12 || d == -19
        || d == -21))
    ||| (t == PieceType::King && (d == 9 || d == 10 || d == 11 || d == -9 || d == -10 || d == -11 || d == 1
        || d == -1))
}

/// An ordinary move by one of the steps of `t` onto a playable square that
/// holds no piece of the side to move.
pub open spec fn step_move_ok(b: Board, t: PieceType) -> spec_fn(Move) -> bool {
    |m: Move|
        m.move_kind == MoveKind::Normal && open_for(b, m.to.0 as int, b.to_move) && step_offset(
            t,
            m.to.0 as int - m.from.0 as int,
        )
}

/// On any board every move of the knights, and every move of the kings, of
/// the side to move is an ordinary move by one of that piece's steps onto a
/// playable square without a piece of its own colour.
pub proof fn lemma_step_moves_are_steps(b: Board, t: PieceType)
    requires
        t == PieceType::Knight || t == PieceType::King,
    ensures
        forall|k: int| 0 <= k < moves_of_type(b, t).len() ==> step_move_ok(b, t)(#[trigger] moves_of_type(b, t)[k]),
{
    let c = b.to_move;
    let offs = offsets_of(t);
    let good = step_move_ok(b, t);
    assert(offs.no_duplicates() && forall|i: int| 0 <= i < offs.len() ==> step_offset(t, #[trigger] offs[i] as int)) by {
        if t == PieceType::Knight {
        } else {
        }
    }
    let ps = pieces_of_type(b, t, c);
    assert forall|i: int, k: int|
        0 <= i < ps.len() && 0 <= k < expand(ps[i].square, piece_targets(b, ps[i], t), false, c).len() implies good(
        #[trigger] expand(ps[i].square, piece_targets(b, ps[i], t), false, c)[k],
    ) by {
        let p = ps[i];
        let from = p.square.0 as int;
        let ts = piece_targets(b, p, t);
        assert(ts == step_targets(b, from, c, offs));
        lemma_step_targets_distinct(b, from, c, offs);
        lemma_step_targets_reachable(b, from, c, offs);
        assert forall|j: int, n: int| 0 <= j < ts.len() && 0 <= n < target_moves(p.square, ts[j], false, c).len() implies good(
            #[trigger] target_moves(p.square, ts[j], false, c)[n],
        ) by {
            let e = ts[j];
            assert(reached_by(e.0.0 as int, from, offs));
            let q = choose|q: int| 0 <= q < offs.len() && e.0.0 as int == from + #[trigger] offs[q];
            assert(step_offset(t, offs[q] as int));
            assert(on_board(e.0.0 as int) && b.classify(e.0.0 as int, c) != Target::Blocked);
            assert(target_moves(p.square, e, false, c)[n] == Move { from: p.square, to: e.0, move_kind: e.1 });
        }
        lemma_expand_all(p.square, ts, false, c, good);
    }
    lemma_moves_from_all(b, ps, t, false, good);
}

proof fn lemma_ray_path(b: Board, cur: int, o: int, c: Color)
    requires
        o != 0,
    ensures
        forall|j: int| 0 <= j < ray(b, cur, o, c).len() ==> #[trigger] clear_path(b, cur, o, j + 1),
    decreases (if o > 0 {
        130 - cur
    } else {
        cur + 20
    }),
{
    let t0 = cur + o;
    let r = ray(b, cur, o, c);
    match b.classify(t0, c) {
        Target::Blocked => {
            assert(r.len() == 0);
        },
        Target::Capture => {
            assert(r.len() == 1);
            assert forall|j: int| 0 <= j < r.len() implies #[trigger] clear_path(b, cur, o, j + 1) by {
                assert(j == 0);
            }
        },
        Target::Empty => {
            lemma_ray_path(b, t0, o, c);
            let rest = ray(b, t0, o, c);
            assert(r == seq![entry(t0)] + rest);
            assert(1 * o == o);
            assert forall|j: int| 0 <= j < r.len() implies #[trigger] clear_path(b, cur, o, j + 1) by {
                if j > 0 {
                    assert(clear_path(b, t0, o, (j - 1) + 1));
                    assert forall|m: int| 1 <= m < j + 1 implies on_board(cur + #[trigger] (m * o)) && b.occupant(
                        cur + m * o,
                    ) is None by {
                        if m > 1 {
                            assert(m * o == (m - 1) * o + o) by (nonlinear_arith);
                            assert(on_board(t0 + (m - 1) * o) && b.occupant(t0 + (m - 1) * o) is None);
                        }
                    }
                }
            }
        },
    }
}

/// `o` is one of the directions along which a piece of type `t` slides.
pub open spec fn slide_dir(t: PieceType, o: int) -> bool {
    ||| (t == PieceType::Rook && (o == 1 || o == 10 || o == -10 || o == -1))
    ||| (t == PieceType::Bishop && (o == 11 || o == 9 || o == -9 || o == -11))
    ||| (t == PieceType::Queen && (o == 1 || o == 10 || o == -10 || o == -1 || o == 11 || o == 9 || o == -9
        || o == -11))
}

/// An ordinary move from 1 to 7 squares along a direction of `t` over empty
/// playable squares, onto a playable square that holds no piece of the side
/// to move.
pub open spec fn slide_move_ok(b: Board, t: PieceType) -> spec_fn(Move) -> bool {
    |m: Move|
        m.move_kind == MoveKind::Normal && open_for(b, m.to.0 as int, b.to_move) && exists|o: int, k: int|
            slide_dir(t, o) && 1 <= k <= 7 && m.to.0 as int == m.from.0 as int + #[trigger] (k * o) && clear_path(
                b,
                m.from.0 as int,
                o,
                k,
            )
}

/// On a well-formed board every move of the rooks, bishops or queens of the
/// side to move is an ordinary move of 1 to 7 squares along one of that
/// piece's directions, over empty playable squares, onto a playable square
/// without a piece of its own colour.
pub proof fn lemma_slide_moves_are_slides(b: Board, t: PieceType)
    requires
        b.wf(),
        t == PieceType::Rook || t == PieceType::Bishop || t == PieceType::Queen,
    ensures
        forall|k: int| 0 <= k < moves_of_type(b, t).len() ==> slide_move_ok(b, t)(#[trigger] moves_of_type(b, t)[k]),
{
    let c = b.to_move;
    let offs = offsets_of(t);
    let good = slide_move_ok(b, t);
    assert(forall|i: int| 0 <= i < offs.len() ==> slide_dir(t, #[trigger] offs[i] as int) && is_direction(offs[i] as int));
    let ps = pieces_of_type(b, t, c);
    lemma_pieces_of_type_placed(b, t, c);
    assert forall|i: int, k: int|
        0 <= i < ps.len() && 0 <= k < expand(ps[i].square, piece_targets(b, ps[i], t), false, c).len() implies good(
        #[trigger] expand(ps[i].square, piece_targets(b, ps[i], t), false, c)[k],
    ) by {
        let p = ps[i];
        let from = p.square.0 as int;
        assert(on_board(from));
        let ts = piece_targets(b, p, t);
        assert(ts == slide_targets(b, from, c, offs));
        lemma_slide_targets_reachable(b, from, c, offs);
        lemma_slide_geometry(b, from, c, t, offs);
        assert forall|j: int, n: int| 0 <= j < ts.len() && 0 <= n < target_moves(p.square, ts[j], false, c).len() implies good(
            #[trigger] target_moves(p.square, ts[j], false, c)[n],
        ) by {
            let e = ts[j];
            assert(on_board(e.0.0 as int) && b.classify(e.0.0 as int, c) != Target::Blocked);
            assert(target_moves(p.square, e, false, c)[n] == Move { from: p.square, to: e.0, move_kind: e.1 });
            assert(slide_step(b, from, t, e.0.0 as int));
        }
        lemma_expand_all(p.square, ts, false, c, good);
    }
    lemma_moves_from_all(b, ps, t, false, good);
}

/// Index `to` is 1 to 7 steps along a direction of `t` from `from`, over
/// empty playable squares.
pub open spec fn slide_step(b: Board, from: int, t: PieceType, to: int) -> bool {
    exists|o: int, k: int| slide_dir(t, o) && 1 <= k <= 7 && to == from + #[trigger] (k * o) && clear_path(b, from, o, k)
}

proof fn lemma_slide_geometry(b: Board, from: int, c: Color, t: PieceType, offs: Seq<isize>)
    requires
        on_board(from),
        forall|i: int| 0 <= i < offs.len() ==> slide_dir(t, #[trigger] offs[i] as int) && is_direction(offs[i] as int),
    ensures
        forall|j: int| 0 <= j < slide_targets(b, from, c, offs).len() ==> slide_step(
            b,
            from,
            t,
            (#[trigger] slide_targets(b, from, c, offs)[j]).0.0 as int,
        ),
    decreases offs.len(),
{
    if offs.len() > 0 {
        let pre = offs.drop_last();
        assert forall|i: int| 0 <= i < pre.len() implies slide_dir(t, #[trigger] pre[i] as int) && is_direction(pre[i] as int) by {
            assert(pre[i] == offs[i]);
        }
        lemma_slide_geometry(b, from, c, t, pre);
        let o = offs.last() as int;
        assert(slide_dir(t, offs[offs.len() - 1] as int) && is_direction(offs[offs.len() - 1] as int));
        lemma_ray_elements(b, from, o, c);
        lemma_ray_path(b, from, o, c);
        lemma_ray_stays_short(b, from, o, c);
        let a = slide_targets(b, from, c, pre);
        let r = ray(b, from, o, c);
        let ts = slide_targets(b, from, c, offs);
        assert(ts == a + r);
        assert forall|j: int| 0 <= j < ts.len() implies slide_step(b, from, t, (#[trigger] ts[j]).0.0 as int) by {
            if j < a.len() {
                assert(ts[j] == a[j]);
            } else {
                let q = j - a.len();
                assert(ts[j] == r[q]);
                assert(r[q].0.0 as int == from + (q + 1) * o);
                assert(clear_path(b, from, o, q + 1));
                assert(1 <= q + 1 <= 7);
            }
        }
    }
}

/// A pawn move of the side to move, going forward by `10 * d` (`d` is 1 for
/// white, -1 for black): one square onto an empty playable square; two
/// squares from the starting rank (mailbox row 3 for white, 8 for black)
/// over an empty square onto an empty one; or diagonally forward (`9 * d` or
/// `11 * d`) onto a piece of the other colour, or as an en passant capture
/// onto the en passant target. The first three are ordinary moves or
/// promotions, and so is a capture onto an en passant target on the last rank.
pub open spec fn pawn_move_ok(b: Board) -> spec_fn(Move) -> bool {
    |m: Move|
        {
            let d: int = if b.to_move == Color::White { 1 } else { -1 };
            let from = m.from.0 as int;
            let to = m.to.0 as int;
            let plain = m.move_kind == MoveKind::Normal || m.move_kind is Promotion;
            ||| (to == from + 10 * d && on_board(to) && b.occupant(to) is None && plain)
            ||| (to == from + 20 * d && from / 10 == (if b.to_move == Color::White { 3int } else { 8int })
                && on_board(from + 10 * d) && b.occupant(from + 10 * d) is None && on_board(to)
                && b.occupant(to) is None && plain)
            ||| ((to == from + 9 * d || to == from + 11 * d) && on_board(to) && (b.occupant(to) matches Some(
                q,
            ) && q.color != b.to_move) && plain)
            ||| ((to == from + 9 * d || to == from + 11 * d) && (m.move_kind == MoveKind::EnPassant
                || m.move_kind is Promotion) && b.en_passant_target == Some(m.to))
        }
}

/// On a well-formed board every pawn move of the side to move is a single
/// push onto an empty square, a double push from the starting rank over an
/// empty square, a diagonal capture of a piece of the other colour, or an
/// en passant capture onto the en passant target.
pub proof fn lemma_pawn_moves_are_pawn_moves(b: Board)
    requires
        b.wf(),
    ensures
        forall|k: int|
            0 <= k < moves_of_type(b, PieceType::Pawn).len() ==> pawn_move_ok(b)(
                #[trigger] moves_of_type(b, PieceType::Pawn)[k],
            ),
{
    let c = b.to_move;
    let t = PieceType::Pawn;
    let good = pawn_move_ok(b);
    let ps = pieces_of_type(b, t, c);
    lemma_pieces_of_type_placed(b, t, c);
    assert forall|i: int, k: int|
        0 <= i < ps.len() && 0 <= k < expand(ps[i].square, piece_targets(b, ps[i], t), true, c).len() implies good(
        #[trigger] expand(ps[i].square, piece_targets(b, ps[i], t), true, c)[k],
    ) by {
        let p = ps[i];
        let from = p.square.0 as int;
        assert(on_board(from));
        let ts = piece_targets(b, p, t);
        assert(ts == pawn_targets(b, from, c));
        lemma_pawn_entries(b, from, c);
        assert forall|j: int, n: int| 0 <= j < ts.len() && 0 <= n < target_moves(p.square, ts[j], true, c).len() implies good(
            #[trigger] target_moves(p.square, ts[j], true, c)[n],
        ) by {
            let e = ts[j];
            let m = target_moves(p.square, e, true, c)[n];
            assert(pawn_entry_ok(b, from, e));
            assert(p.square.0 as int == from);
            if e.0.0 as int / 10 == last_rank_row(c) {
                assert(m == Move { from: p.square, to: e.0, move_kind: MoveKind::Promotion(promotion_types()[n]) });
            } else {
                assert(m == Move { from: p.square, to: e.0, move_kind: e.1 });
            }
        }
        lemma_expand_all(p.square, ts, true, c, good);
    }
    lemma_moves_from_all(b, ps, t, true, good);
}

/// A target of a pawn of the side to move on `from`.
pub open spec fn pawn_entry_ok(b: Board, from: int, e: (Square, MoveKind)) -> bool {
    let d: int = if b.to_move == Color::White { 1 } else { -1 };
    let to = e.0.0 as int;
    ||| (to == from + 10 * d && on_board(to) && b.occupant(to) is None && e.1 == MoveKind::Normal)
    ||| (to == from + 20 * d && from / 10 == (if b.to_move == Color::White { 3int } else { 8int }) && on_board(
        from + 10 * d,
    ) && b.occupant(from + 10 * d) is None && on_board(to) && b.occupant(to) is None && e.1 == MoveKind::Normal)
    ||| ((to == from + 9 * d || to == from + 11 * d) && on_board(to) && (b.occupant(to) matches Some(q)
        && q.color != b.to_move) && e.1 == MoveKind::Normal)
    ||| ((to == from + 9 * d || to == from + 11 * d) && e.1 == MoveKind::EnPassant && b.en_passant_target
        == Some(e.0))
}

proof fn lemma_pawn_entries(b: Board, from: int, c: Color)
    requires
        c == b.to_move,
    ensures
        forall|j: int| 0 <= j < pawn_targets(b, from, c).len() ==> pawn_entry_ok(b, from, #[trigger] pawn_targets(b, from, c)[j]),
{
    let d = forward(c);
    let t1 = from + 10 * d;
    let t2 = from + 20 * d;
    let c1 = from + 9 * d;
    let c2 = from + 11 * d;
    let pushes = if b.classify(t1, c) == Target::Empty {
        if from / 10 == pawn_start_row(c) && b.classify(t2, c) == Target::Empty {
            seq![entry(t1), entry(t2)]
        } else {
            seq![entry(t1)]
        }
    } else {
        seq![]
    };
    let x1 = if b.classify(c1, c) == Target::Capture {
        seq![entry(c1)]
    } else {
        seq![]
    };
    let x2 = if b.classify(c2, c) == Target::Capture {
        seq![entry(c2)]
    } else {
        seq![]
    };
    let caps = x1 + x2;
    let ep = match b.en_passant_target {
        Some(ts) => if ts.0 == c1 || ts.0 == c2 {
            seq![(ts, MoveKind::EnPassant)]
        } else {
            seq![]
        },
        None => seq![],
    };
    let tg = pawn_targets(b, from, c);
    assert(tg == pushes + caps + ep);
    let pc = pushes + caps;
    assert forall|j: int| 0 <= j < tg.len() implies pawn_entry_ok(b, from, #[trigger] tg[j]) by {
        if j < pushes.len() {
            assert(tg[j] == pushes[j]);
            if j == 0 {
                assert(pushes[0] == entry(t1));
                assert(on_board(t1));
            } else {
                assert(pushes[1] == entry(t2));
                assert(on_board(t1) && on_board(t2));
            }
        } else if j < pc.len() {
            assert(tg[j] == caps[j - pushes.len()]);
            let q = j - pushes.len();
            if x1.len() == 1 && q == 0 {
                assert(caps[q] == entry(c1));
                assert(on_board(c1));
            } else {
                assert(caps[q] == x2[q - x1.len()]);
                assert(x2[q - x1.len()] == entry(c2));
                assert(on_board(c2));
            }
        } else {
            assert(tg[j] == ep[j - pc.len()]);
        }
    }
}

/// On a well-formed board a piece of colour `defender` on index `sq` is
/// attacked by a knight or king exactly when one of the other colour stands
/// one of its steps away, and by a rook, bishop or queen exactly when one
/// of the other colour ends an empty ray from `sq` along one of its
/// directions.
pub proof fn lemma_piece_attacks_by_their_moves(b: Board, sq: int, defender: Color, t: PieceType)
    requires
        b.wf(),
    ensures
        (t == PieceType::Knight || t == PieceType::King) ==> (attacked_by(b, sq, defender, t) <==> exists|o: int|
            step_offset(t, o) && #[trigger] enemy_at(b, sq + o, defender, t)),
        (t == PieceType::Rook || t == PieceType::Bishop || t == PieceType::Queen) ==> (attacked_by(
            b,
            sq,
            defender,
            t,
        ) <==> exists|o: int| slide_dir(t, o) && #[trigger] ray_attack(b, sq, o, defender, t)),
{
    lemma_attacked_by_geometric(b, sq, defender, t);
    let offs = offsets_of(t);
    if t != PieceType::Pawn {
        assert(attack_offsets_of(t, defender) == offs);
        assert forall|o: int| (t == PieceType::Knight || t == PieceType::King) && step_offset(t, o) implies exists|i: int|
            0 <= i < offs.len() && offs[i] as int == o by {
            if t == PieceType::Knight {
                assert(offs[0] == 21 && offs[1] == 19 && offs[2] == 12 && offs[3] == 8);
                assert(offs[4] == -8 && offs[5] == -12 && offs[6] == -19 && offs[7] == -21);
            } else {
                assert(offs[0] == 9 && offs[1] == 10 && offs[2] == 11 && offs[3] == -9);
                assert(offs[4] == -10 && offs[5] == -11 && offs[6] == 1 && offs[7] == -1);
            }
        }
        assert forall|o: int| slide_dir(t, o) implies exists|i: int| 0 <= i < offs.len() && offs[i] as int == o by {
            if t == PieceType::Rook {
                assert(offs[0] == 1 && offs[1] == 10 && offs[2] == -10 && offs[3] == -1);
            } else if t == PieceType::Bishop {
                assert(offs[0] == 11 && offs[1] == 9 && offs[2] == -9 && offs[3] == -11);
            } else {
                assert(offs[0] == 11 && offs[1] == 9 && offs[2] == -9 && offs[3] == -11);
                assert(offs[4] == 1 && offs[5] == 10 && offs[6] == -10 && offs[7] == -1);
            }
        }
        if t == PieceType::Knight || t == PieceType::King {
            assert(forall|i: int| 0 <= i < offs.len() ==> step_offset(t, #[trigger] offs[i] as int));
            if exists|o: int| step_offset(t, o) && #[trigger] enemy_at(b, sq + o, defender, t) {
                let o = choose|o: int| step_offset(t, o) && #[trigger] enemy_at(b, sq + o, defender, t);
                let i = choose|i: int| 0 <= i < offs.len() && offs[i] as int == o;
                assert(enemy_at(b, sq + offs[i], defender, t));
            }
            if attacked_by(b, sq, defender, t) {
                let i = choose|i: int| 0 <= i < offs.len() && enemy_at(b, sq + #[trigger] offs[i], defender, t);
                assert(step_offset(t, offs[i] as int));
                assert(enemy_at(b, sq + (offs[i] as int), defender, t));
            }
        } else {
            assert(forall|i: int| 0 <= i < offs.len() ==> slide_dir(t, #[trigger] offs[i] as int));
            if exists|o: int| slide_dir(t, o) && #[trigger] ray_attack(b, sq, o, defender, t) {
                let o = choose|o: int| slide_dir(t, o) && #[trigger] ray_attack(b, sq, o, defender, t);
                let i = choose|i: int| 0 <= i < offs.len() && offs[i] as int == o;
                assert(ray_attack(b, sq, offs[i] as int, defender, t));
            }
            if attacked_by(b, sq, defender, t) {
                let i = choose|i: int| 0 <= i < offs.len() && ray_attack(b, sq, #[trigger] offs[i] as int, defender, t);
                assert(slide_dir(t, offs[i] as int));
            }
        }
    }
}

proof fn lemma_king_of_present(s: Seq<Option<Piece>>, c: Color, k: int, n: int)
    requires
        0 <= k < s.len(),
        0 <= n <= s.len(),
        s[k] matches Some(p) && p.color == c && p.piece_type == PieceType::King,
        forall|j: int|
            0 <= j < k ==> !(#[trigger] s[j] matches Some(q) && q.color == c && q.piece_type == PieceType::King),
    ensures
        n <= k ==> king_of(present(s, 0, n), c) is None,
        n > k ==> king_of(present(s, 0, n), c) == s[k],
    decreases n,
{
    if n > 0 {
        lemma_king_of_present(s, c, k, n - 1);
        let prev = present(s, 0, n - 1);
        match s[n - 1] {
            Some(q) => {
                assert(present(s, 0, n) == prev.push(q));
                assert(present(s, 0, n).drop_last() =~= prev);
            },
            None => {},
        }
    }
}

/// Whether a side is in check is decided at the square of its king in the
/// lowest slot: when slot `k` holds a king of colour `c` and no slot before
/// it does, that is the king whose square is tested.
pub proof fn lemma_check_looks_at_the_first_king(b: Board, c: Color, k: int)
    requires
        0 <= k < 32,
        b.pieces@[k] matches Some(p) && p.color == c && p.piece_type == PieceType::King,
        forall|j: int|
            0 <= j < k ==> !(#[trigger] b.pieces@[j] matches Some(q) && q.color == c && q.piece_type
                == PieceType::King),
    ensures
        king_of(present(b.pieces@, 0, 32), c) == b.pieces@[k],
{
    b.pieces.lemma_len();
    lemma_king_of_present(b.pieces@, c, k, 32);
}

/// Pieces of colour `c`.
pub open spec fn of_colour(c: Color) -> spec_fn(Piece) -> bool {
    |p: Piece| p.color == c
}

proof fn lemma_filter_colour(ps: Seq<Piece>, c: Color, keep: bool)
    requires
        forall|i: int| 0 <= i < ps.len() ==> ((#[trigger] ps[i]).color == c) == keep,
    ensures
        ps.filter(of_colour(c)) == (if keep { ps } else { Seq::<Piece>::empty() }),
    decreases ps.len(),
{
    reveal(Seq::filter);
    if ps.len() > 0 {
        let pre = ps.drop_last();
        assert forall|i: int| 0 <= i < pre.len() implies ((#[trigger] pre[i]).color == c) == keep by {
            assert(pre[i] == ps[i]);
        }
        lemma_filter_colour(pre, c, keep);
        assert((ps[ps.len() - 1].color == c) == keep);
        if keep {
            assert(pre.push(ps.last()) =~= ps);
        }
    } else {
        if !keep {
            assert(ps =~= Seq::<Piece>::empty());
        }
    }
}

/// With well-formed slots the white list is exactly the white pieces among
/// all pieces, and the black list exactly the black ones, in slot order.
pub proof fn lemma_colour_lists_are_the_colours(s: Seq<Option<Piece>>)
    requires
        slots_wf(s),
    ensures
        present(s, 0, 16) == present(s, 0, 32).filter(of_colour(Color::White)),
        present(s, 16, 32) == present(s, 0, 32).filter(of_colour(Color::Black)),
{
    crate::types::lemma_present_split(s, 0, 16, 32);
    lemma_present_placed(s, 0, 16, Color::White);
    lemma_present_placed(s, 16, 32, Color::Black);
    let w = present(s, 0, 16);
    let k = present(s, 16, 32);
    assert forall|i: int| 0 <= i < w.len() implies (#[trigger] w[i]).color == Color::White by {
        assert(on_board(w[i].square.0 as int));
    }
    assert forall|i: int| 0 <= i < k.len() implies (#[trigger] k[i]).color == Color::Black by {
        assert(on_board(k[i].square.0 as int));
    }
    Seq::filter_distributes_over_add(w, k, of_colour(Color::White));
    Seq::filter_distributes_over_add(w, k, of_colour(Color::Black));
    lemma_filter_colour(w, Color::White, true);
    lemma_filter_colour(k, Color::White, false);
    lemma_filter_colour(w, Color::Black, false);
    lemma_filter_colour(k, Color::Black, true);
    assert(w + Seq::<Piece>::empty() =~= w);
    assert(Seq::<Piece>::empty() + k =~= k);
}

impl Move {
    pub fn new(from: Square, to: Square) -> (r: Self)
        ensures
            r == (Move { from, to, move_kind: MoveKind::Normal }),
    {
        Self { from, to, move_kind: MoveKind::Normal }
    }

    pub fn with_kind(from: Square, to: Square, move_kind: MoveKind) -> (r: Self)
        ensures
            r == (Move { from, to, move_kind }),
    {
        Self { from, to, move_kind }
    }

    pub fn promotion(from: Square, to: Square, piece_type: PieceType) -> (r: Self)
        ensures
            r == (Move { from, to, move_kind: MoveKind::Promotion(piece_type) }),
    {
        Self { from, to, move_kind: MoveKind::Promotion(piece_type) }
    }

    pub fn en_passant(from: Square, to: Square) -> (r: Self)
        ensures
            r == (Move { from, to, move_kind: MoveKind::EnPassant }),
    {
        Self { from, to, move_kind: MoveKind::EnPassant }
    }

    pub fn castle(from: Square, to: Square) -> (r: Self)
        ensures
            r == (Move { from, to, move_kind: MoveKind::Castle }),
    {
        Self { from, to, move_kind: MoveKind::Castle }
    }

    /// The four promotions of a pawn moving from `from` to `to`.
    pub fn all_promotions(from: Square, to: Square) -> (r: Vec<Self>)
        ensures
            r@ == promotion_moves(from, to),
    {
        let types = PieceType::promotions();
        let mut out: Vec<Self> = Vec::new();
        let mut i: usize = 0;
        while i < 4
            invariant
                i <= 4,
                types@ == promotion_types(),
                out@ == promotion_moves(from, to).take(i as int),
            decreases 4 - i,
        {
            out.push(Self::promotion(from, to, types[i]));
            assert(promotion_moves(from, to).take(i + 1) =~= promotion_moves(from, to).take(
                i as int,
            ).push(Move { from, to, move_kind: MoveKind::Promotion(types@[i as int]) }));
            i = i + 1;
        }
        assert(promotion_moves(from, to).take(4) =~= promotion_moves(from, to));
        out
    }

    fn offsets_for(piece_type: PieceType) -> (r: Vec<isize>)
        ensures
            r@ == offsets_of(piece_type),
    {
        match piece_type {
            PieceType::Rook => vec![1, 10, -10, -1],
            PieceType::Knight => vec![21, 19, 12, 8, -8, -12, -19, -21],
            PieceType::Bishop => vec![11, 9, -9, -11],
            PieceType::Queen => vec![11, 9, -9, -11, 1, 10, -10, -1],
            PieceType::King => vec![9, 10, 11, -9, -10, -11, 1, -1],
            PieceType::Pawn => vec![],
        }
    }

    fn attack_offsets_for(piece_type: PieceType, color: Color) -> (r: Vec<isize>)
        ensures
            r@ == attack_offsets_of(piece_type, color),
    {
        match piece_type {
            PieceType::Pawn => match color {
                Color::White => vec![11, 9],
                Color::Black => vec![-11, -9],
            },
            _ => Self::offsets_for(piece_type),
        }
    }

    fn apply_step(board: &Board, square: Square, color: Color, offsets: &Vec<isize>) -> (r: Vec<
        (Square, MoveKind),
    >)
        requires
            board.slots_in_range(),
            small_offsets(offsets@),
        ensures
            r@ == step_targets(*board, square.0 as int, color, offsets@),
    {
        let mut out: Vec<(Square, MoveKind)> = Vec::new();
        if square.0 >= 120 {
            proof {
                lemma_far_steps_blocked(*board, square.0 as int, color, offsets@);
            }
            return out;
        }
        let from = square.0 as isize;
        let mut i: usize = 0;
        while i < offsets.len()
            invariant
                i <= offsets.len(),
                from == square.0,
                0 <= from < 120,
                board.slots_in_range(),
                small_offsets(offsets@),
                out@ == step_targets(*board, from as int, color, offsets@.take(i as int)),
            decreases offsets.len() - i,
        {
            let o = offsets[i];
            assert(-21 <= o <= 21);
            let t = from + o;
            assert(offsets@.take(i + 1).drop_last() =~= offsets@.take(i as int));
            assert(offsets@.take(i + 1).last() == o);
            if t >= 0 {
                let target = Square(t as usize);
                if board.classify_target(&target, color) != Target::Blocked {
                    out.push((target, MoveKind::Normal));
                }
            }
            i = i + 1;
        }
        assert(offsets@.take(offsets@.len() as int) =~= offsets@);
        out
    }

    fn apply_slide(board: &Board, square: Square, color: Color, offsets: &Vec<isize>) -> (r: Vec<
        (Square, MoveKind),
    >)
        requires
            board.slots_in_range(),
            slide_offsets(offsets@),
        ensures
            r@ == slide_targets(*board, square.0 as int, color, offsets@),
    {
        let mut out: Vec<(Square, MoveKind)> = Vec::new();
        if square.0 >= 120 {
            proof {
                lemma_far_slides_blocked(*board, square.0 as int, color, offsets@);
            }
            return out;
        }
        let from = square.0 as isize;
        let mut i: usize = 0;
        while i < offsets.len()
            invariant
                i <= offsets.len(),
                from == square.0,
                0 <= from < 120,
                board.slots_in_range(),
                slide_offsets(offsets@),
                out@ == slide_targets(*board, from as int, color, offsets@.take(i as int)),
            decreases offsets.len() - i,
        {
            let o = offsets[i];
            assert(-11 <= o <= 11 && o != 0);
            assert(offsets@.take(i + 1).drop_last() =~= offsets@.take(i as int));
            assert(offsets@.take(i + 1).last() == o);
            let ghost base = out@;
            let mut cur: isize = from;
            loop
                invariant_except_break
                    0 <= cur < 120,
                    -11 <= o <= 11,
                    o != 0,
                    board.slots_in_range(),
                    out@ + ray(*board, cur as int, o as int, color) == base + ray(
                        *board,
                        from as int,
                        o as int,
                        color,
                    ),
                ensures
                    out@ == base + ray(*board, from as int, o as int, color),
                decreases (if o > 0 {
                    130 - cur
                } else {
                    cur + 20
                }),
            {
                let t = cur + o;
                if t < 0 {
                    assert(ray(*board, cur as int, o as int, color) =~= seq![]);
                    assert(out@ + seq![] =~= out@);
                    break ;
                }
                let target = Square(t as usize);
                match board.classify_target(&target, color) {
                    Target::Blocked => {
                        assert(ray(*board, cur as int, o as int, color) =~= seq![]);
                        assert(out@ + seq![] =~= out@);
                        break ;
                    },
                    Target::Capture => {
                        let ghost before = out@;
                        out.push((target, MoveKind::Normal));
                        assert(out@ =~= before + ray(*board, cur as int, o as int, color));
                        break ;
                    },
                    Target::Empty => {
                        let ghost before = out@;
                        out.push((target, MoveKind::Normal));
                        assert(before + ray(*board, cur as int, o as int, color) =~= out@ + ray(
                            *board,
                            t as int,
                            o as int,
                            color,
                        ));
                        cur = t;
                    },
                }
            }
            i = i + 1;
        }
        assert(offsets@.take(offsets@.len() as int) =~= offsets@);
        out
    }

    fn apply_pawn(board: &Board, square: Square, color: Color) -> (r: Vec<(Square, MoveKind)>)
        requires
            board.slots_in_range(),
            on_board(square.0 as int),
        ensures
            r@ == pawn_targets(*board, square.0 as int, color),
    {
        let direction: isize = match color {
            Color::White => 1,
            Color::Black => -1,
        };
        let from = square.0 as isize;
        let max_push: usize = if square.is_pawn_first_row(color) {
            2
        } else {
            1
        };
        let mut out: Vec<(Square, MoveKind)> = Vec::new();
        let one = Square((from + 10 * direction) as usize);
        if board.classify_target(&one, color) == Target::Empty {
            out.push((one, MoveKind::Normal));
            if max_push == 2 {
                let two = Square((from + 20 * direction) as usize);
                if board.classify_target(&two, color) == Target::Empty {
                    out.push((two, MoveKind::Normal));
                }
            }
        }
        let left = Square((from + 9 * direction) as usize);
        let right = Square((from + 11 * direction) as usize);
        if board.classify_target(&left, color) == Target::Capture {
            out.push((left, MoveKind::Normal));
        }
        if board.classify_target(&right, color) == Target::Capture {
            out.push((right, MoveKind::Normal));
        }
        match board.en_passant_target {
            Some(ts) => {
                if ts == left || ts == right {
                    out.push((ts, MoveKind::EnPassant));
                }
            },
            None => {},
        }
        assert(out@ =~= pawn_targets(*board, square.0 as int, color));
        out
    }

    fn get_all_of_type(board: &Board, piece_type: PieceType, color: Color) -> (r: Vec<Piece>)
        ensures
            r@ == pieces_of_type(*board, piece_type, color),
    {
        let ps = if color == Color::White {
            board.pieces.white()
        } else {
            board.pieces.black()
        };
        let mut out: Vec<Piece> = Vec::new();
        let mut i: usize = 0;
        while i < ps.len()
            invariant
                i <= ps.len(),
                out@ == of_type(ps@.take(i as int), piece_type),
            decreases ps.len() - i,
        {
            assert(ps@.take(i + 1).drop_last() =~= ps@.take(i as int));
            if ps[i].piece_type == piece_type {
                out.push(ps[i]);
            }
            i = i + 1;
        }
        assert(ps@.take(ps@.len() as int) =~= ps@);
        out
    }

    /// The pseudo-legal moves of the pieces of type `piece_type` of the side to move.
    pub fn moves_of_type(board: &Board, piece_type: PieceType) -> (r: Vec<Move>)
        requires
            board.slots_in_range(),
        ensures
            r@ == moves_of_type(*board, piece_type),
    {
        proof {
            use_type_invariant(&board.pieces);
            lemma_pieces_of_type_placed(*board, piece_type, board.to_move);
        }
        let offsets = Self::offsets_for(piece_type);
        let behaviour = MoveBehaviour::for_type(piece_type);
        let pieces = Self::get_all_of_type(board, piece_type, board.to_move);
        let mut out: Vec<Move> = Vec::new();
        let mut i: usize = 0;
        while i < pieces.len()
            invariant
                i <= pieces.len(),
                board.slots_in_range(),
                offsets@ == offsets_of(piece_type),
                behaviour == behaviour_of(piece_type),
                pieces@ == pieces_of_type(*board, piece_type, board.to_move),
                placed(pieces@, board.to_move),
                out@ == moves_from(*board, pieces@.take(i as int), piece_type),
            decreases pieces.len() - i,
        {
            let piece = pieces[i];
            assert(on_board(pieces@[i as int].square.0 as int));
            let targets = match behaviour {
                MoveBehaviour::Slide => {
                    assert(slide_offsets(offsets@));
                    Self::apply_slide(board, piece.square, board.to_move, &offsets)
                },
                MoveBehaviour::Step => {
                    assert(small_offsets(offsets@));
                    Self::apply_step(board, piece.square, board.to_move, &offsets)
                },
                MoveBehaviour::Pawn => Self::apply_pawn(board, piece.square, board.to_move),
            };
            assert(targets@ == piece_targets(*board, piece, piece_type));
            let ghost base = out@;
            let mut j: usize = 0;
            while j < targets.len()
                invariant
                    j <= targets.len(),
                    behaviour == behaviour_of(piece_type),
                    out@ == base + expand(
                        piece.square,
                        targets@.take(j as int),
                        piece_type == PieceType::Pawn,
                        board.to_move,
                    ),
                decreases targets.len() - j,
            {
                let (target_square, move_kind) = targets[j];
                assert(targets@.take(j + 1).drop_last() =~= targets@.take(j as int));
                assert(targets@.take(j + 1).last() == targets@[j as int]);
                let ghost mid = out@;
                if behaviour == MoveBehaviour::Pawn && target_square.is_last_rank(board.to_move) {
                    let mut promos = Self::all_promotions(piece.square, target_square);
                    out.append(&mut promos);
                } else {
                    out.push(Self::with_kind(piece.square, target_square, move_kind));
                }
                assert(out@ =~= mid + target_moves(
                    piece.square,
                    targets@[j as int],
                    piece_type == PieceType::Pawn,
                    board.to_move,
                ));
                j = j + 1;
            }
            assert(targets@.take(targets@.len() as int) =~= targets@);
            assert(pieces@.take(i + 1).drop_last() =~= pieces@.take(i as int));
            assert(pieces@.take(i + 1).last() == piece);
            assert(out@ =~= moves_from(*board, pieces@.take(i + 1), piece_type));
            i = i + 1;
        }
        assert(pieces@.take(pieces@.len() as int) =~= pieces@);
        out
    }

    /// The pseudo-legal moves of the side to move, piece type by piece type.
    pub fn generate_moves(board: &Board) -> (r: Vec<Move>)
        requires
            board.slots_in_range(),
        ensures
            r@ == generated_moves(*board),
    {
        let types = PieceType::all();
        let mut out: Vec<Move> = Vec::new();
        let mut i: usize = 0;
        while i < 6
            invariant
                i <= 6,
                board.slots_in_range(),
                types@ == all_piece_types(),
                out@ == moves_of_types(*board, i as int),
            decreases 6 - i,
        {
            let mut ms = Self::moves_of_type(board, types[i]);
            out.append(&mut ms);
            i = i + 1;
        }
        out
    }


    /// Whether a piece of colour `defender` on `square` would be attacked by
    /// an opposing piece.
    pub fn is_under_attack(board: &Board, square: Square, defender: Color) -> (r: bool)
        requires
            board.slots_in_range(),
        ensures
            r == under_attack(*board, square.0 as int, defender),
    {
        let types = PieceType::all();
        let mut i: usize = 0;
        while i < 6
            invariant
                i <= 6,
                board.slots_in_range(),
                types@ == all_piece_types(),
                forall|k: int|
                    0 <= k < i ==> !attacked_by(
                        *board,
                        square.0 as int,
                        defender,
                        #[trigger] all_piece_types()[k],
                    ),
            decreases 6 - i,
        {
            let piece_type = types[i];
            let offsets = Self::attack_offsets_for(piece_type, defender);
            let moves = if MoveBehaviour::attack_for_type(piece_type) == MoveBehaviour::Slide {
                assert(slide_offsets(offsets@));
                let m = Self::apply_slide(board, square, defender, &offsets);
                proof {
                    lemma_slide_targets_reachable(*board, square.0 as int, defender, offsets@);
                }
                m
            } else {
                assert(small_offsets(offsets@));
                let m = Self::apply_step(board, square, defender, &offsets);
                proof {
                    lemma_step_targets_reachable(*board, square.0 as int, defender, offsets@);
                }
                m
            };
            assert(moves@ == attack_targets(*board, square.0 as int, defender, piece_type));
            let mut j: usize = 0;
            while j < moves.len()
                invariant
                    j <= moves.len(),
                    i < 6,
                    types@ == all_piece_types(),
                    piece_type == types@[i as int],
                    board.slots_in_range(),
                    moves@ == attack_targets(*board, square.0 as int, defender, piece_type),
                    reachable(*board, moves@, defender),
                    forall|k: int| 0 <= k < j ==> !attacker_on(*board, #[trigger] moves@[k], defender, piece_type),
                decreases moves.len() - j,
            {
                let (target, _) = moves[j];
                assert(on_board(moves@[j as int].0.0 as int));
                match board.piece_at(&target) {
                    Some(p) => {
                        if p.color != defender && p.piece_type == piece_type {
                            assert(attacker_on(*board, moves@[j as int], defender, piece_type));
                            assert(piece_type == all_piece_types()[i as int]);
                            assert(attacker_on(
                                *board,
                                attack_targets(*board, square.0 as int, defender, piece_type)[j as int],
                                defender,
                                piece_type,
                            ));
                            assert(attacked_by(*board, square.0 as int, defender, piece_type));
                            return true;
                        }
                    },
                    None => {},
                }
                j = j + 1;
            }
            i = i + 1;
        }
        false
    }

    /// Whether the king of colour `defender` is attacked.
    pub fn is_in_check(board: &Board, defender: Color) -> (r: bool)
        requires
            board.slots_in_range(),
            has_king(*board, defender),
        ensures
            king_of(present(board.pieces@, 0, 32), defender) matches Some(k) && r == under_attack(
                *board,
                k.square.0 as int,
                defender,
            ),
    {
        proof {
            board.pieces.lemma_len();
            let k = choose|k: int|
                0 <= k < 32 && (#[trigger] board.pieces@[k] matches Some(p) && p.color == defender
                    && p.piece_type == PieceType::King);
            lemma_king_of_found(board.pieces@, defender, 32, k);
        }
        let all = board.pieces.all_pieces();
        let mut i: usize = 0;
        while i < all.len()
            invariant
                i <= all.len(),
                all@ == present(board.pieces@, 0, 32),
                board.slots_in_range(),
                king_of(all@.take(i as int), defender) is None,
                king_of(all@, defender) is Some,
            decreases all.len() - i,
        {
            let p = all[i];
            assert(all@.take(i + 1).drop_last() =~= all@.take(i as int));
            if p.color == defender && p.piece_type == PieceType::King {
                proof {
                    lemma_king_of_prefix(all@, defender, i + 1);
                }
                return Self::is_under_attack(board, p.square, defender);
            }
            i = i + 1;
        }
        assert(all@.take(all@.len() as int) =~= all@);
        false
    }


    /// The move written as its two squares joined by `->`, then ` O-O` for
    /// a castling, ` ep` for an en passant capture or the letter of the
    /// piece a pawn promotes to.
    pub fn notation(&self) -> (r: String)
        ensures
            r@ == move_text(*self),
    {
        let mut s = String::new();
        push_square(&mut s, self.from);
        push_char(&mut s, '-');
        push_char(&mut s, '>');
        push_square(&mut s, self.to);
        match self.move_kind {
            MoveKind::Castle => {
                push_char(&mut s, ' ');
                push_char(&mut s, 'O');
                push_char(&mut s, '-');
                push_char(&mut s, 'O');
            },
            MoveKind::EnPassant => {
                push_char(&mut s, ' ');
                push_char(&mut s, 'e');
                push_char(&mut s, 'p');
            },
            MoveKind::Promotion(pt) => {
                push_char(&mut s, pt.as_symbol());
            },
            MoveKind::Normal => {},
        }
        assert(s@ =~= move_text(*self));
        s
    }

}

} // verus!
