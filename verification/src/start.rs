//! The starting position, which the default board holds.

use vstd::prelude::*;

use crate::fen::empty_slots;
use crate::fen::is_upper_letter;
use crate::fen::kings;
use crate::fen::kings_ok;
use crate::fen::placement;
use crate::fen::rights_from;
use crate::fen::rights_named;
use crate::fen::row_from;
use crate::fen::rows_from;
use crate::fen::PlacementState;
use crate::logic::fen_position;
use crate::logic::Board;
use crate::logic::Position;
use crate::text::decimal_value;
use crate::text::is_digit;
use crate::text::joined;
use crate::text::lemma_parts_of_joined;
use crate::text::is_space;
use crate::text::lemma_words_of_joined;
use crate::text::parsed_u32;
use crate::text::parts;
use crate::text::words;
use crate::types::type_of_letter;
use crate::types::CastlingRights;
use crate::types::Color;
use crate::types::Piece;
use crate::types::PieceType;
use crate::types::Square;

verus! {

/// The starting position in Forsyth-Edwards notation.
pub const START_FEN: &'static str = "rnbqkbnr/pppppppp/8/8/8/8/PPPPPPPP/RNBQKBNR w KQkq - 0 1";

/// The piece type on file `i` (from 0) of a back rank at the start.
pub open spec fn back_rank(i: int) -> PieceType {
    if i == 0 || i == 7 {
        PieceType::Rook
    } else if i == 1 || i == 6 {
        PieceType::Knight
    } else if i == 2 || i == 5 {
        PieceType::Bishop
    } else if i == 3 {
        PieceType::Queen
    } else {
        PieceType::King
    }
}

/// The slots of the starting position: white pawns, then the white back
/// rank from a1, then the black back rank from a8, then the black pawns.
pub open spec fn start_slots() -> Seq<Option<Piece>> {
    Seq::new(
        32,
        |k: int|
            if k < 8 {
                Some(Piece { piece_type: PieceType::Pawn, color: Color::White, square: Square((31 + k) as usize) })
            } else if k < 16 {
                Some(Piece { piece_type: back_rank(k - 8), color: Color::White, square: Square((13 + k) as usize) })
            } else if k < 24 {
                Some(Piece { piece_type: back_rank(k - 16), color: Color::Black, square: Square((75 + k) as usize) })
            } else {
                Some(Piece { piece_type: PieceType::Pawn, color: Color::Black, square: Square((57 + k) as usize) })
            },
    )
}

/// The starting position: white to move, all castling rights, no en passant
/// target, the half-move clock at 0 and the full-move number at 1.
pub open spec fn start_position() -> Position {
    Position {
        slots: start_slots(),
        to_move: Color::White,
        castling_rights: CastlingRights::Rights {
            white_king: true,
            white_queen: true,
            black_king: true,
            black_queen: true,
        },
        en_passant_target: None,
        halfsteps: 0,
        fullsteps: 1,
    }
}

/// The state after reading the eight piece letters of a rank from character
/// `j` on, all of one colour.
pub open spec fn fill_row(part: Seq<char>, j: int, row: int, st: PlacementState, white: bool) -> PlacementState {
    let n = 8 - j;
    let base = if white {
        st.white
    } else {
        st.black
    };
    PlacementState {
        slots: Seq::new(
            32,
            |k: int|
                if base <= k < base + n {
                    Some(
                        Piece {
                            piece_type: type_of_letter(part[j + (k - base)])->0,
                            color: if white {
                                Color::White
                            } else {
                                Color::Black
                            },
                            square: Square((row * 10 + j + 1 + (k - base)) as usize),
                        },
                    )
                } else {
                    st.slots[k]
                },
        ),
        white: if white {
            st.white + n
        } else {
            st.white
        },
        black: if white {
            st.black
        } else {
            st.black + n
        },
    }
}

proof fn lemma_letter_row(part: Seq<char>, j: int, row: int, ad: bool, st: PlacementState, white: bool)
    requires
        0 <= j <= 8,
        part.len() == 8,
        st.slots.len() == 32,
        forall|k: int|
            j <= k < 8 ==> !is_digit(#[trigger] part[k]) && type_of_letter(part[k]) is Some
                && is_upper_letter(part[k]) == white,
        white ==> 0 <= st.white && st.white + 8 - j <= 16,
        !white ==> 0 <= st.black && st.black + 8 - j <= 32,
    ensures
        row_from(part, j, row, j + 1, ad, st) == Ok::<(PlacementState, int), crate::types::FenFault>(
            (fill_row(part, j, row, st, white), 9),
        ),
    decreases 8 - j,
{
    if j < 8 {
        let c = part[j];
        let t = type_of_letter(c)->0;
        let color = if white {
            Color::White
        } else {
            Color::Black
        };
        let square = Square((row * 10 + j + 1) as usize);
        let st2 = if white {
            PlacementState {
                slots: st.slots.update(st.white, Some(Piece { piece_type: t, color, square })),
                white: st.white + 1,
                black: st.black,
            }
        } else {
            PlacementState {
                slots: st.slots.update(st.black, Some(Piece { piece_type: t, color, square })),
                white: st.white,
                black: st.black + 1,
            }
        };
        lemma_letter_row(part, j + 1, row, false, st2, white);
        assert(fill_row(part, j + 1, row, st2, white).slots =~= fill_row(part, j, row, st, white).slots);
    } else {
        assert(fill_row(part, 8, row, st, white).slots =~= st.slots);
    }
}

proof fn lemma_empty_row(row: int, st: PlacementState)
    ensures
        row_from(seq!['8'], 0, row, 1, false, st) == Ok::<(PlacementState, int), crate::types::FenFault>(
            (st, 9),
        ),
{
    reveal_with_fuel(row_from, 3);
}

/// The eight ranks of the starting placement, from rank 8 down.
pub open spec fn start_rows() -> Seq<Seq<char>> {
    seq![
        seq!['r', 'n', 'b', 'q', 'k', 'b', 'n', 'r'],
        seq!['p', 'p', 'p', 'p', 'p', 'p', 'p', 'p'],
        seq!['8'],
        seq!['8'],
        seq!['8'],
        seq!['8'],
        seq!['P', 'P', 'P', 'P', 'P', 'P', 'P', 'P'],
        seq!['R', 'N', 'B', 'Q', 'K', 'B', 'N', 'R'],
    ]
}

/// The six fields of the starting position in FEN.
pub open spec fn start_fields() -> Seq<Seq<char>> {
    seq![joined(start_rows(), '/'), seq!['w'], seq!['K', 'Q', 'k', 'q'], seq!['-'], seq!['0'], seq!['1']]
}

proof fn lemma_start_placement()
    ensures
        placement(joined(start_rows(), '/')) == Ok::<Seq<Option<Piece>>, crate::types::FenFault>(start_slots()),
{
    let rows = start_rows();
    let p = joined(rows, '/');
    assert(p.subrange(0, p.len() as int) =~= p);
    assert forall|k: int, m: int| 0 <= k < rows.len() && 0 <= m < rows[k].len() implies #[trigger] rows[k][m] != '/' by {
        assert(rows[k][m] != '/');
    }
    lemma_parts_of_joined(p, '/', 0, rows, seq![]);
    assert(seq![] + rows =~= rows);
    let ps = parts(p, '/');
    assert(ps == rows);
    reveal_with_fuel(joined, 8);
    assert(!p.contains(' '));
    let init = PlacementState { slots: empty_slots(), white: 0, black: 16 };
    lemma_letter_row(ps[0], 0, 9, false, init, false);
    let st1 = fill_row(ps[0], 0, 9, init, false);
    lemma_letter_row(ps[1], 0, 8, false, st1, false);
    let st2 = fill_row(ps[1], 0, 8, st1, false);
    lemma_empty_row(7, st2);
    lemma_empty_row(6, st2);
    lemma_empty_row(5, st2);
    lemma_empty_row(4, st2);
    lemma_letter_row(ps[6], 0, 3, false, st2, true);
    let st3 = fill_row(ps[6], 0, 3, st2, true);
    lemma_letter_row(ps[7], 0, 2, false, st3, true);
    let st4 = fill_row(ps[7], 0, 2, st3, true);
    reveal_with_fuel(rows_from, 9);
    assert(rows_from(ps, 0, init) == Ok::<PlacementState, crate::types::FenFault>(st4));
    assert(st4.slots =~= start_slots());
}

proof fn lemma_start_kings(n: int)
    requires
        0 <= n <= 32,
    ensures
        kings(start_slots(), Color::White, n) == (if n > 12 {
            1int
        } else {
            0int
        }),
        kings(start_slots(), Color::Black, n) == (if n > 20 {
            1int
        } else {
            0int
        }),
    decreases n,
{
    if n > 0 {
        lemma_start_kings(n - 1);
    }
}

/// The starting position in FEN describes the starting position.
pub proof fn lemma_start_fen()
    ensures
        fen_position(START_FEN@) == Ok::<Position, crate::types::FenFault>(start_position()),
{
    reveal_strlit("rnbqkbnr/pppppppp/8/8/8/8/PPPPPPPP/RNBQKBNR w KQkq - 0 1");
    let s = START_FEN@;
    let fields = start_fields();
    reveal_with_fuel(joined, 9);
    assert(s =~= joined(fields, ' '));
    assert(s.subrange(0, s.len() as int) =~= s);
    assert forall|k: int| 0 <= k < fields.len() implies (#[trigger] fields[k]).len() > 0 by {}
    assert forall|k: int, m: int| 0 <= k < fields.len() && 0 <= m < fields[k].len() implies !is_space(
        #[trigger] fields[k][m],
    ) by {}
    lemma_words_of_joined(s, 0, fields, seq![]);
    assert(seq![] + fields =~= fields);
    let w = words(s);
    assert(w == fields);
    lemma_start_placement();
    lemma_start_kings(32);
    assert(kings_ok(start_slots()));
    reveal_with_fuel(rights_from, 5);
    assert(rights_named(w[2]) == Ok::<CastlingRights, crate::types::FenFault>(start_position().castling_rights));
    reveal_with_fuel(decimal_value, 2);
    assert(parsed_u32(w[4]) == Some(0u32));
    assert(parsed_u32(w[5]) == Some(1u32));
}

impl Default for Board {
    /// The starting position, read from its FEN.
    fn default() -> (r: Self)
        ensures
            r.wf(),
            r.models(start_position()),
    {
        proof {
            lemma_start_fen();
        }
        Board::from_fen(START_FEN).expect("Default FEN construction error")
    }
}

} // verus!
