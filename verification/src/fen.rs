//! Reading the fields of Forsyth-Edwards notation that do not need a board:
//! the piece placement, the side to move, the castling rights and the clocks.

use vstd::prelude::*;

use crate::text::all_digits;
use crate::text::chars_of;
use crate::text::contains_char;
use crate::text::digit_value;
use crate::text::is_digit;
use crate::text::parts;
use crate::text::split_parts;
use crate::text::string_of;
use crate::text::views;
use crate::types::on_board;
use crate::types::slots_wf;
use crate::types::type_of_letter;
use crate::types::CastlingRights;
use crate::types::Color;
use crate::types::FenError;
use crate::types::FenFault;
use crate::types::Piece;
use crate::types::PieceList;
use crate::types::PieceType;
use crate::types::Square;

verus! {

/// Where reading the piece placement stands: the slots filled so far and the
/// next free white and black slot.
pub struct PlacementState {
    pub slots: Seq<Option<Piece>>,
    pub white: int,
    pub black: int,
}

pub open spec fn state_of(slots: Seq<Option<Piece>>, white: usize, black: usize) -> PlacementState {
    PlacementState { slots, white: white as int, black: black as int }
}

pub open spec fn empty_slots() -> Seq<Option<Piece>> {
    Seq::new(32, |i: int| None)
}

pub open spec fn is_upper_letter(c: char) -> bool {
    'A' <= c && c <= 'Z'
}

/// Reading one rank of the placement from character `j` on, standing on
/// mailbox row `row` and column `file`; `after_digit` tells whether the last
/// character read was a digit. Gives the state and the column reached.
pub open spec fn row_from(
    part: Seq<char>,
    j: int,
    row: int,
    file: int,
    after_digit: bool,
    st: PlacementState,
) -> Result<(PlacementState, int), FenFault>
    decreases part.len() - j,
{
    if j >= part.len() || j < 0 {
        Ok((st, file))
    } else {
        let c = part[j];
        if is_digit(c) {
            if digit_value(c) == 0 || after_digit {
                Err(FenFault::InvalidPieceString)
            } else {
                row_from(part, j + 1, row, file + digit_value(c), true, st)
            }
        } else {
            match type_of_letter(c) {
                None => Err(FenFault::InvalidPiece(c)),
                Some(t) => {
                    let square = Square((row * 10 + file) as usize);
                    if is_upper_letter(c) {
                        if st.white >= 16 {
                            Err(FenFault::InvalidPieceString)
                        } else {
                            row_from(
                                part,
                                j + 1,
                                row,
                                file + 1,
                                false,
                                PlacementState {
                                    slots: st.slots.update(
                                        st.white,
                                        Some(Piece { piece_type: t, color: Color::White, square }),
                                    ),
                                    white: st.white + 1,
                                    black: st.black,
                                },
                            )
                        }
                    } else {
                        if st.black >= 32 {
                            Err(FenFault::InvalidPieceString)
                        } else {
                            row_from(
                                part,
                                j + 1,
                                row,
                                file + 1,
                                false,
                                PlacementState {
                                    slots: st.slots.update(
                                        st.black,
                                        Some(Piece { piece_type: t, color: Color::Black, square }),
                                    ),
                                    white: st.white,
                                    black: st.black + 1,
                                },
                            )
                        }
                    }
                },
            }
        }
    }
}

/// Reading the ranks `idx` to 7 of the placement, top rank first; each must
/// cover exactly eight files.
pub open spec fn rows_from(ps: Seq<Seq<char>>, idx: int, st: PlacementState) -> Result<
    PlacementState,
    FenFault,
>
    decreases ps.len() - idx,
{
    if idx >= ps.len() || idx < 0 {
        Ok(st)
    } else {
        match row_from(ps[idx], 0, 9 - idx, 1, false, st) {
            Err(f) => Err(f),
            Ok((st2, file)) => if file != 9 {
                Err(FenFault::InvalidPieceString)
            } else {
                rows_from(ps, idx + 1, st2)
            },
        }
    }
}

/// The slots that the piece placement field `field` describes: eight ranks
/// separated by `/`, top rank first; a digit from 1 to 9 skips that many
/// files (never two digits in a row) and a piece letter places a piece, white
/// for upper case in the next free white slot, black for lower case in the
/// next free black slot.
pub open spec fn placement(field: Seq<char>) -> Result<Seq<Option<Piece>>, FenFault> {
    if field.contains(' ') {
        Err(FenFault::InvalidPieceString)
    } else {
        let ps = parts(field, '/');
        if ps.len() != 8 {
            Err(FenFault::InvalidPieceString)
        } else {
            match rows_from(ps, 0, PlacementState { slots: empty_slots(), white: 0, black: 16 }) {
                Err(f) => Err(f),
                Ok(st) => Ok(st.slots),
            }
        }
    }
}

/// Slots filled so far while reading rank `row` up to column `file`: white
/// slots below `white` and black slots from 16 below `black` are filled, each
/// with a piece of its colour on a playable square above the row or to the
/// left of `file` on it, no two on the same square.
pub open spec fn layout_ok(s: Seq<Option<Piece>>, white: int, black: int, row: int, file: int) -> bool {
    &&& s.len() == 32
    &&& 0 <= white <= 16 <= black <= 32
    &&& forall|k: int| 0 <= k < 32 ==> ((k < white || 16 <= k < black) <==> #[trigger] s[k] is Some)
    &&& forall|k: int|
        0 <= k < 32 && #[trigger] s[k] is Some ==> {
            let q = s[k]->0.square.0 as int;
            &&& s[k]->0.color == (if k < 16 {
                Color::White
            } else {
                Color::Black
            })
            &&& on_board(q)
            &&& (q / 10 > row || (q / 10 == row && q % 10 < file))
        }
    &&& forall|j: int, k: int|
        0 <= j < 32 && 0 <= k < 32 && j != k && #[trigger] s[j] is Some && #[trigger] s[k] is Some
            ==> s[j]->0.square != s[k]->0.square
}

fn place_row(
    part: &Vec<char>,
    row: usize,
    pieces: &mut [Option<Piece>; 32],
    white: &mut usize,
    black: &mut usize,
) -> (r: Result<usize, FenError>)
    requires
        2 <= row <= 9,
        layout_ok(old(pieces)@, *old(white) as int, *old(black) as int, row as int, 1),
    ensures
        match row_from(part@, 0, row as int, 1, false, state_of(old(pieces)@, *old(white), *old(black))) {
            Err(f) => r matches Err(e) && e@ == f,
            Ok((st, file)) => r matches Ok(fe) && (fe == 9 <==> file == 9) && (file == 9 ==> (st
                == state_of(final(pieces)@, *final(white), *final(black)) && layout_ok(
                final(pieces)@,
                *final(white) as int,
                *final(black) as int,
                row as int,
                9,
            ))),
        },
{
    let ghost st0 = state_of(pieces@, *white, *black);
    let ghost mut sst = st0;
    let ghost mut sfile: int = 1;
    let ghost mut sad = false;
    let mut file: usize = 1;
    let mut after_digit = false;
    let mut j: usize = 0;
    while j < part.len()
        invariant
            2 <= row <= 9,
            j <= part.len(),
            st0 == state_of(old(pieces)@, *old(white), *old(black)),
            row_from(part@, 0, row as int, 1, false, st0) == row_from(
                part@,
                j as int,
                row as int,
                sfile,
                sad,
                sst,
            ),
            sad == after_digit,
            1 <= file <= 10,
            sfile >= 1,
            file == (if sfile < 10 {
                sfile
            } else {
                10
            }),
            sst.white == *white as int,
            sst.black == *black as int,
            0 <= *white <= 16 <= *black <= 32,
            sst.slots.len() == 32,
            pieces@.len() == 32,
            file < 10 ==> (sst.slots == pieces@ && layout_ok(
                pieces@,
                *white as int,
                *black as int,
                row as int,
                file as int,
            )),
        decreases part.len() - j,
    {
        let c = part[j];
        if '0' <= c && c <= '9' {
            let d = (c as u32 - 48u32) as usize;
            assert(d == digit_value(c));
            if d == 0 || after_digit {
                return Err(FenError::InvalidPieceString);
            }
            proof {
                sfile = sfile + d;
                sad = true;
            }
            file = if file + d >= 10 {
                10
            } else {
                file + d
            };
            after_digit = true;
        } else {
            let t = match PieceType::from_char(c) {
                Ok(t) => t,
                Err(e) => {
                    return Err(e);
                },
            };
            let square = Square::from_rank_file(row, file);
            let ghost old_slots = pieces@;
            if 'A' <= c && c <= 'Z' {
                if *white >= 16 {
                    return Err(FenError::InvalidPieceString);
                }
                pieces[*white] = Some(Piece::new(t, Color::White, square));
                proof {
                    sst = PlacementState {
                        slots: sst.slots.update(
                            sst.white,
                            Some(
                                Piece {
                                    piece_type: t,
                                    color: Color::White,
                                    square: Square((row * 10 + sfile) as usize),
                                },
                            ),
                        ),
                        white: sst.white + 1,
                        black: sst.black,
                    };
                }
                *white = *white + 1;
            } else {
                if *black >= 32 {
                    return Err(FenError::InvalidPieceString);
                }
                pieces[*black] = Some(Piece::new(t, Color::Black, square));
                proof {
                    sst = PlacementState {
                        slots: sst.slots.update(
                            sst.black,
                            Some(
                                Piece {
                                    piece_type: t,
                                    color: Color::Black,
                                    square: Square((row * 10 + sfile) as usize),
                                },
                            ),
                        ),
                        white: sst.white,
                        black: sst.black + 1,
                    };
                }
                *black = *black + 1;
            }
            proof {
                sfile = sfile + 1;
                sad = false;
            }
            file = if file + 1 >= 10 {
                10
            } else {
                file + 1
            };
            after_digit = false;
        }
        j = j + 1;
    }
    Ok(file)
}

impl PieceList {
    /// Reads the piece placement field of FEN.
    pub fn from_fen(fen: &str) -> (r: Result<PieceList, FenError>)
        ensures
            match placement(fen@) {
                Ok(s) => r matches Ok(pl) && pl@ == s,
                Err(f) => r matches Err(e) && e@ == f,
            },
            r matches Ok(pl) ==> slots_wf(pl@),
    {
        let cs = chars_of(fen);
        Self::from_fen_chars(&cs)
    }

    pub(crate) fn from_fen_chars(field: &Vec<char>) -> (r: Result<PieceList, FenError>)
        ensures
            match placement(field@) {
                Ok(s) => r matches Ok(pl) && pl@ == s,
                Err(f) => r matches Err(e) && e@ == f,
            },
            r matches Ok(pl) ==> slots_wf(pl@),
    {
        if contains_char(field, ' ') {
            return Err(FenError::InvalidPieceString);
        }
        let parts_v = split_parts(field, '/');
        let ghost ps = parts(field@, '/');
        if parts_v.len() != 8 {
            return Err(FenError::InvalidPieceString);
        }
        let mut pieces: [Option<Piece>; 32] = [None; 32];
        let mut white: usize = 0;
        let mut black: usize = 16;
        let ghost init = PlacementState { slots: empty_slots(), white: 0, black: 16 };
        assert(pieces@ =~= empty_slots());
        let mut indx: usize = 0;
        while indx < 8
            invariant
                indx <= 8,
                !field@.contains(' '),
                ps == parts(field@, '/'),
                init == (PlacementState { slots: empty_slots(), white: 0, black: 16 }),
                views(parts_v@) == ps,
                ps.len() == 8,
                rows_from(ps, 0, init) == rows_from(ps, indx as int, state_of(pieces@, white, black)),
                layout_ok(pieces@, white as int, black as int, 9 - indx, 1),
            decreases 8 - indx,
        {
            let row = 9 - indx;
            assert(parts_v@[indx as int]@ == ps[indx as int]);
            let file = match place_row(&parts_v[indx], row, &mut pieces, &mut white, &mut black) {
                Ok(f) => f,
                Err(e) => {
                    return Err(e);
                },
            };
            if file != 9 {
                return Err(FenError::InvalidPieceString);
            }
            indx = indx + 1;
        }
        assert(slots_wf(pieces@));
        let pl = PieceList::from_slots(pieces);
        Ok(pl)
    }
}

impl std::str::FromStr for PieceList {
    type Err = FenError;

    fn from_str(fen: &str) -> (r: Result<Self, Self::Err>)
        ensures
            match placement(fen@) {
                Ok(s) => r matches Ok(pl) && pl@ == s,
                Err(f) => r matches Err(e) && e@ == f,
            },
            r matches Ok(pl) ==> slots_wf(pl@),
    {
        PieceList::from_fen(fen)
    }
}

/// The files that the first `m` characters of a rank cover: a digit its
/// value, any other character one.
pub open spec fn files_before(p: Seq<char>, m: int) -> int
    decreases m,
{
    if m <= 0 {
        0
    } else {
        files_before(p, m - 1) + if is_digit(p[m - 1]) {
            digit_value(p[m - 1])
        } else {
            1
        }
    }
}

/// How many upper-case letters the first `m` characters of `p` hold.
pub open spec fn uppers_before(p: Seq<char>, m: int) -> int
    decreases m,
{
    if m <= 0 {
        0
    } else {
        uppers_before(p, m - 1) + if !is_digit(p[m - 1]) && is_upper_letter(p[m - 1]) {
            1int
        } else {
            0int
        }
    }
}

/// How many letters other than upper-case ones the first `m` characters of
/// `p` hold.
pub open spec fn lowers_before(p: Seq<char>, m: int) -> int
    decreases m,
{
    if m <= 0 {
        0
    } else {
        lowers_before(p, m - 1) + if !is_digit(p[m - 1]) && !is_upper_letter(p[m - 1]) {
            1int
        } else {
            0int
        }
    }
}

/// The letter at position `m` of rank text `p`, on mailbox row `row`, is
/// in the slots: an upper-case one as a white piece in slot `w0` plus the
/// upper-case letters before it, a lower-case one as a black piece in slot
/// `b0` plus the lower-case letters before it, each on column `f0` plus the
/// files covered before it.
pub open spec fn letter_placed(
    slots: Seq<Option<Piece>>,
    p: Seq<char>,
    m: int,
    row: int,
    f0: int,
    w0: int,
    b0: int,
) -> bool {
    let sq = Square((row * 10 + f0 + files_before(p, m)) as usize);
    let t = type_of_letter(p[m])->0;
    &&& type_of_letter(p[m]) is Some
    &&& if is_upper_letter(p[m]) {
        slots[w0 + uppers_before(p, m)] == Some(Piece { piece_type: t, color: Color::White, square: sq })
    } else {
        slots[b0 + lowers_before(p, m)] == Some(Piece { piece_type: t, color: Color::Black, square: sq })
    }
}

proof fn lemma_row_from_places(
    part: Seq<char>,
    j: int,
    row: int,
    file: int,
    ad: bool,
    st: PlacementState,
)
    requires
        0 <= j <= part.len(),
        row_from(part, j, row, file, ad, st) is Ok,
        st.slots.len() == 32,
        0 <= st.white <= 16 <= st.black <= 32,
    ensures
        ({
            let (st2, f2) = row_from(part, j, row, file, ad, st)->Ok_0;
            &&& st2.slots.len() == 32
            &&& f2 == file + files_before(part, part.len() as int) - files_before(part, j)
            &&& st2.white == st.white + uppers_before(part, part.len() as int) - uppers_before(part, j)
            &&& st2.black == st.black + lowers_before(part, part.len() as int) - lowers_before(part, j)
            &&& 0 <= st2.white <= 16 <= st2.black <= 32
            &&& st.white <= st2.white && st.black <= st2.black
            &&& forall|k: int|
                0 <= k < 32 && !(st.white <= k < st2.white) && !(st.black <= k < st2.black) ==> #[trigger] st2.slots[k]
                    == st.slots[k]
            &&& forall|m: int|
                j <= m < part.len() && !is_digit(#[trigger] part[m]) ==> letter_placed(
                    st2.slots,
                    part,
                    m,
                    row,
                    file - files_before(part, j),
                    st.white - uppers_before(part, j),
                    st.black - lowers_before(part, j),
                )
        }),
    decreases part.len() - j,
{
    if j < part.len() {
        let c = part[j];
        if is_digit(c) {
            lemma_row_from_places(part, j + 1, row, file + digit_value(c), true, st);
        } else {
            let t = type_of_letter(c)->0;
            let square = Square((row * 10 + file) as usize);
            if is_upper_letter(c) {
                let st1 = PlacementState {
                    slots: st.slots.update(st.white, Some(Piece { piece_type: t, color: Color::White, square })),
                    white: st.white + 1,
                    black: st.black,
                };
                lemma_row_from_places(part, j + 1, row, file + 1, false, st1);
                let st2 = row_from(part, j, row, file, ad, st)->Ok_0.0;
                assert(st2.slots[st.white] == st1.slots[st.white]);
                assert forall|k: int|
                    0 <= k < 32 && !(st.white <= k < st2.white) && !(st.black <= k < st2.black) implies #[trigger] st2.slots[k]
                        == st.slots[k] by {
                    assert(k != st.white);
                    assert(st2.slots[k] == st1.slots[k]);
                }
            } else {
                let st1 = PlacementState {
                    slots: st.slots.update(st.black, Some(Piece { piece_type: t, color: Color::Black, square })),
                    white: st.white,
                    black: st.black + 1,
                };
                lemma_row_from_places(part, j + 1, row, file + 1, false, st1);
                let st2 = row_from(part, j, row, file, ad, st)->Ok_0.0;
                assert(st2.slots[st.black] == st1.slots[st.black]);
                assert forall|k: int|
                    0 <= k < 32 && !(st.white <= k < st2.white) && !(st.black <= k < st2.black) implies #[trigger] st2.slots[k]
                        == st.slots[k] by {
                    assert(k != st.black);
                    assert(st2.slots[k] == st1.slots[k]);
                }
            }
        }
    }
}

proof fn lemma_counts_grow(p: Seq<char>, a: int, b: int)
    requires
        0 <= a <= b,
    ensures
        uppers_before(p, a) <= uppers_before(p, b),
        lowers_before(p, a) <= lowers_before(p, b),
    decreases b - a,
{
    if a < b {
        lemma_counts_grow(p, a, b - 1);
    }
}

/// The upper-case letters in ranks `a` up to `r` of `ps`.
pub open spec fn rows_uppers(ps: Seq<Seq<char>>, a: int, r: int) -> int
    decreases r - a,
{
    if r <= a {
        0
    } else {
        uppers_before(ps[a], ps[a].len() as int) + rows_uppers(ps, a + 1, r)
    }
}

/// The lower-case letters in ranks `a` up to `r` of `ps`.
pub open spec fn rows_lowers(ps: Seq<Seq<char>>, a: int, r: int) -> int
    decreases r - a,
{
    if r <= a {
        0
    } else {
        lowers_before(ps[a], ps[a].len() as int) + rows_lowers(ps, a + 1, r)
    }
}

proof fn lemma_rows_from_places(ps: Seq<Seq<char>>, idx: int, st: PlacementState)
    requires
        0 <= idx <= ps.len(),
        rows_from(ps, idx, st) is Ok,
        st.slots.len() == 32,
        0 <= st.white <= 16 <= st.black <= 32,
    ensures
        ({
            let st2 = rows_from(ps, idx, st)->Ok_0;
            &&& st2.slots.len() == 32
            &&& st2.white == st.white + rows_uppers(ps, idx, ps.len() as int)
            &&& st2.black == st.black + rows_lowers(ps, idx, ps.len() as int)
            &&& 0 <= st2.white <= 16 <= st2.black <= 32
            &&& st.white <= st2.white && st.black <= st2.black
            &&& forall|k: int|
                0 <= k < 32 && !(st.white <= k < st2.white) && !(st.black <= k < st2.black) ==> #[trigger] st2.slots[k]
                    == st.slots[k]
            &&& forall|r: int, m: int|
                idx <= r < ps.len() && 0 <= m < ps[r].len() && !is_digit(#[trigger] ps[r][m]) ==> letter_placed(
                    st2.slots,
                    ps[r],
                    m,
                    9 - r,
                    1,
                    st.white + rows_uppers(ps, idx, r),
                    st.black + rows_lowers(ps, idx, r),
                )
            &&& forall|r: int| idx <= r < ps.len() ==> files_before(#[trigger] ps[r], ps[r].len() as int) == 8
        }),
    decreases ps.len() - idx,
{
    if idx < ps.len() {
        let p = ps[idx];
        lemma_row_from_places(p, 0, 9 - idx, 1, false, st);
        let mid = row_from(p, 0, 9 - idx, 1, false, st)->Ok_0.0;
        lemma_rows_from_places(ps, idx + 1, mid);
        let st2 = rows_from(ps, idx, st)->Ok_0;
        assert(st2 == rows_from(ps, idx + 1, mid)->Ok_0);
        assert forall|r: int, m: int|
            idx <= r < ps.len() && 0 <= m < ps[r].len() && !is_digit(#[trigger] ps[r][m]) implies letter_placed(
            st2.slots,
            ps[r],
            m,
            9 - r,
            1,
            st.white + rows_uppers(ps, idx, r),
            st.black + rows_lowers(ps, idx, r),
        ) by {
            if r == idx {
                assert(letter_placed(mid.slots, p, m, 9 - idx, 1, st.white, st.black));
                lemma_counts_grow(p, m + 1, p.len() as int);
                assert(uppers_before(p, 0) == 0 && lowers_before(p, 0) == 0);
                lemma_counts_grow(p, 0, m);
                if is_upper_letter(p[m]) {
                    let k = st.white + uppers_before(p, m);
                    assert(uppers_before(p, m + 1) == uppers_before(p, m) + 1);
                    assert(st.white <= k < mid.white);
                    assert(0 <= k < 32 && !(mid.white <= k < st2.white) && !(mid.black <= k < st2.black));
                    assert(st2.slots[k] == mid.slots[k]);
                } else {
                    let k = st.black + lowers_before(p, m);
                    assert(lowers_before(p, m + 1) == lowers_before(p, m) + 1);
                    assert(st.black <= k < mid.black);
                    assert(0 <= k < 32 && !(mid.white <= k < st2.white) && !(mid.black <= k < st2.black));
                    assert(st2.slots[k] == mid.slots[k]);
                }
            } else {
                assert(letter_placed(
                    st2.slots,
                    ps[r],
                    m,
                    9 - r,
                    1,
                    mid.white + rows_uppers(ps, idx + 1, r),
                    mid.black + rows_lowers(ps, idx + 1, r),
                ));
            }
        }
        assert forall|k: int|
            0 <= k < 32 && !(st.white <= k < st2.white) && !(st.black <= k < st2.black) implies #[trigger] st2.slots[k]
                == st.slots[k] by {
            assert(st2.slots[k] == mid.slots[k]);
        }
    }
}

/// Each character of a rank is a digit from 1 to 9 that does not follow
/// another digit, or the letter of a piece type in either case.
pub open spec fn rank_chars_ok(p: Seq<char>) -> bool {
    forall|m: int|
        0 <= m < p.len() ==> (is_digit(#[trigger] p[m]) ==> digit_value(p[m]) != 0 && (m > 0 ==> !is_digit(
            p[m - 1],
        ))) && (!is_digit(p[m]) ==> type_of_letter(p[m]) is Some)
}

proof fn lemma_row_from_accepts(part: Seq<char>, j: int, row: int, file: int, ad: bool, st: PlacementState)
    requires
        0 <= j <= part.len(),
        rank_chars_ok(part),
        ad == (j > 0 && is_digit(part[j - 1])),
        st.white + uppers_before(part, part.len() as int) - uppers_before(part, j) <= 16,
        st.black + lowers_before(part, part.len() as int) - lowers_before(part, j) <= 32,
    ensures
        row_from(part, j, row, file, ad, st) is Ok,
    decreases part.len() - j,
{
    if j < part.len() {
        let c = part[j];
        lemma_counts_grow(part, j + 1, part.len() as int);
        if is_digit(c) {
            lemma_row_from_accepts(part, j + 1, row, file + digit_value(c), true, st);
        } else {
            let t = type_of_letter(c)->0;
            let square = Square((row * 10 + file) as usize);
            if is_upper_letter(c) {
                lemma_row_from_accepts(
                    part,
                    j + 1,
                    row,
                    file + 1,
                    false,
                    PlacementState {
                        slots: st.slots.update(st.white, Some(Piece { piece_type: t, color: Color::White, square })),
                        white: st.white + 1,
                        black: st.black,
                    },
                );
            } else {
                lemma_row_from_accepts(
                    part,
                    j + 1,
                    row,
                    file + 1,
                    false,
                    PlacementState {
                        slots: st.slots.update(st.black, Some(Piece { piece_type: t, color: Color::Black, square })),
                        white: st.white,
                        black: st.black + 1,
                    },
                );
            }
        }
    }
}

proof fn lemma_row_from_checks(part: Seq<char>, j: int, row: int, file: int, ad: bool, st: PlacementState)
    requires
        0 <= j <= part.len(),
        row_from(part, j, row, file, ad, st) is Ok,
        ad == (j > 0 && is_digit(part[j - 1])),
    ensures
        forall|m: int|
            j <= m < part.len() ==> (is_digit(#[trigger] part[m]) ==> digit_value(part[m]) != 0 && (m > 0
                ==> !is_digit(part[m - 1]))) && (!is_digit(part[m]) ==> type_of_letter(part[m]) is Some),
    decreases part.len() - j,
{
    if j < part.len() {
        let c = part[j];
        if is_digit(c) {
            lemma_row_from_checks(part, j + 1, row, file + digit_value(c), true, st);
        } else {
            let t = type_of_letter(c)->0;
            let square = Square((row * 10 + file) as usize);
            if is_upper_letter(c) {
                lemma_row_from_checks(
                    part,
                    j + 1,
                    row,
                    file + 1,
                    false,
                    PlacementState {
                        slots: st.slots.update(st.white, Some(Piece { piece_type: t, color: Color::White, square })),
                        white: st.white + 1,
                        black: st.black,
                    },
                );
            } else {
                lemma_row_from_checks(
                    part,
                    j + 1,
                    row,
                    file + 1,
                    false,
                    PlacementState {
                        slots: st.slots.update(st.black, Some(Piece { piece_type: t, color: Color::Black, square })),
                        white: st.white,
                        black: st.black + 1,
                    },
                );
            }
        }
    }
}

proof fn lemma_rows_counts_nonneg(ps: Seq<Seq<char>>, a: int, r: int)
    ensures
        rows_uppers(ps, a, r) >= 0,
        rows_lowers(ps, a, r) >= 0,
    decreases r - a,
{
    if r > a {
        lemma_counts_grow(ps[a], 0, ps[a].len() as int);
        lemma_rows_counts_nonneg(ps, a + 1, r);
    }
}

proof fn lemma_rows_from_accepts(ps: Seq<Seq<char>>, idx: int, st: PlacementState)
    requires
        0 <= idx <= ps.len(),
        st.slots.len() == 32,
        0 <= st.white <= 16 <= st.black <= 32,
        forall|r: int| idx <= r < ps.len() ==> rank_chars_ok(#[trigger] ps[r]) && files_before(ps[r], ps[r].len() as int) == 8,
        st.white + rows_uppers(ps, idx, ps.len() as int) <= 16,
        st.black + rows_lowers(ps, idx, ps.len() as int) <= 32,
    ensures
        rows_from(ps, idx, st) is Ok,
    decreases ps.len() - idx,
{
    if idx < ps.len() {
        let p = ps[idx];
        assert(rank_chars_ok(p) && files_before(p, p.len() as int) == 8);
        assert(uppers_before(p, 0) == 0 && lowers_before(p, 0) == 0);
        lemma_rows_counts_nonneg(ps, idx + 1, ps.len() as int);
        lemma_row_from_accepts(p, 0, 9 - idx, 1, false, st);
        lemma_row_from_places(p, 0, 9 - idx, 1, false, st);
        let mid = row_from(p, 0, 9 - idx, 1, false, st)->Ok_0.0;
        lemma_rows_from_accepts(ps, idx + 1, mid);
    }
}

proof fn lemma_rows_from_checks(ps: Seq<Seq<char>>, idx: int, st: PlacementState)
    requires
        0 <= idx <= ps.len(),
        rows_from(ps, idx, st) is Ok,
        st.slots.len() == 32,
        0 <= st.white <= 16 <= st.black <= 32,
    ensures
        forall|r: int| idx <= r < ps.len() ==> rank_chars_ok(#[trigger] ps[r]),
    decreases ps.len() - idx,
{
    if idx < ps.len() {
        let p = ps[idx];
        lemma_row_from_checks(p, 0, 9 - idx, 1, false, st);
        lemma_row_from_places(p, 0, 9 - idx, 1, false, st);
        let mid = row_from(p, 0, 9 - idx, 1, false, st)->Ok_0.0;
        lemma_rows_from_checks(ps, idx + 1, mid);
    }
}

/// A placement field is read exactly when it holds no space, has eight
/// ranks separated by `/`, each made of piece letters and digits from 1 to
/// 9 (never two digits in a row) covering eight files, with at most sixteen
/// white and sixteen black pieces.
pub proof fn lemma_placement_accepts(f: Seq<char>)
    ensures
        placement(f) is Ok <==> (!f.contains(' ') && parts(f, '/').len() == 8 && (forall|r: int|
            0 <= r < 8 ==> rank_chars_ok(#[trigger] parts(f, '/')[r]) && files_before(
                parts(f, '/')[r],
                parts(f, '/')[r].len() as int,
            ) == 8) && rows_uppers(parts(f, '/'), 0, 8) <= 16 && rows_lowers(parts(f, '/'), 0, 8) <= 16),
{
    let ps = parts(f, '/');
    let init = PlacementState { slots: empty_slots(), white: 0, black: 16 };
    if placement(f) is Ok {
        lemma_rows_from_places(ps, 0, init);
        lemma_rows_from_checks(ps, 0, init);
    }
    if !f.contains(' ') && ps.len() == 8 && (forall|r: int|
        0 <= r < 8 ==> rank_chars_ok(#[trigger] ps[r]) && files_before(ps[r], ps[r].len() as int) == 8)
        && rows_uppers(ps, 0, 8) <= 16 && rows_lowers(ps, 0, 8) <= 16 {
        lemma_rows_from_accepts(ps, 0, init);
    }
}

/// A placement field that is read places each of its letters: rank `r` of
/// the field (from the top, mailbox row `9 - r`) puts the letter at position
/// `m` on the column one more than the files its earlier characters cover
/// (a digit its value, a letter one); an upper-case letter as a white piece
/// of its type in the slot numbered by the upper-case letters before it, a
/// lower-case one as a black piece in slot 16 plus the lower-case letters
/// before it. Every rank covers eight files, and all other slots are empty.
pub proof fn lemma_placement_places_letters(f: Seq<char>)
    requires
        placement(f) is Ok,
    ensures
        parts(f, '/').len() == 8,
        forall|r: int, m: int|
            0 <= r < 8 && 0 <= m < parts(f, '/')[r].len() && !is_digit(#[trigger] parts(f, '/')[r][m]) ==> letter_placed(
                placement(f)->Ok_0,
                parts(f, '/')[r],
                m,
                9 - r,
                1,
                rows_uppers(parts(f, '/'), 0, r),
                16 + rows_lowers(parts(f, '/'), 0, r),
            ),
        forall|r: int| 0 <= r < 8 ==> files_before(#[trigger] parts(f, '/')[r], parts(f, '/')[r].len() as int) == 8,
        forall|k: int|
            0 <= k < 32 && !(k < rows_uppers(parts(f, '/'), 0, 8)) && !(16 <= k < 16 + rows_lowers(parts(f, '/'), 0, 8))
                ==> (#[trigger] placement(f)->Ok_0[k]) is None,
{
    let ps = parts(f, '/');
    let init = PlacementState { slots: empty_slots(), white: 0, black: 16 };
    lemma_rows_from_places(ps, 0, init);
    let st2 = rows_from(ps, 0, init)->Ok_0;
    assert(placement(f)->Ok_0 == st2.slots);
}

/// How many kings of colour `c` the slots below `n` hold.
pub open spec fn kings(s: Seq<Option<Piece>>, c: Color, n: int) -> int
    decreases n,
{
    if n <= 0 {
        0
    } else {
        kings(s, c, n - 1) + if s[n - 1] matches Some(p) && p.color == c && p.piece_type
            == PieceType::King {
            1int
        } else {
            0int
        }
    }
}

/// Each side has exactly one king.
pub open spec fn kings_ok(s: Seq<Option<Piece>>) -> bool {
    kings(s, Color::White, 32) == 1 && kings(s, Color::Black, 32) == 1
}

/// How many kings of colour `c` the piece list holds.
pub fn count_kings(pl: &PieceList, c: Color) -> (r: usize)
    ensures
        r == kings(pl@, c, 32),
{
    proof {
        pl.lemma_len();
    }
    let mut count: usize = 0;
    let mut k: usize = 0;
    while k < 32
        invariant
            k <= 32,
            pl@.len() == 32,
            count == kings(pl@, c, k as int),
            count <= k,
        decreases 32 - k,
    {
        match pl.at(k) {
            Some(p) => {
                if p.color == c && p.piece_type == PieceType::King {
                    count = count + 1;
                }
            },
            None => {},
        }
        k = k + 1;
    }
    count
}

/// The side to move that the field `f` names: `w` or `b`.
pub open spec fn side_named(f: Seq<char>) -> Result<Color, FenFault> {
    if f == seq!['w'] {
        Ok(Color::White)
    } else if f == seq!['b'] {
        Ok(Color::Black)
    } else {
        Err(FenFault::InvalidToMove(f))
    }
}

pub(crate) fn side_from_chars(f: &Vec<char>) -> (r: Result<Color, FenError>)
    ensures
        match side_named(f@) {
            Ok(c) => r == Ok::<Color, FenError>(c),
            Err(e) => r matches Err(x) && x@ == e,
        },
{
    if f.len() == 1 && f[0] == 'w' {
        assert(f@ =~= seq!['w']);
        Ok(Color::White)
    } else if f.len() == 1 && f[0] == 'b' {
        assert(f@ =~= seq!['b']);
        Ok(Color::Black)
    } else {
        assert(f@ != seq!['w'] && f@ != seq!['b']) by {
            if f@ == seq!['w'] || f@ == seq!['b'] {
                assert(f@.len() == 1);
            }
        }
        Err(FenError::InvalidToMove(string_of(f)))
    }
}

impl Color {
    /// The side to move that `s` names: `w` or `b`.
    pub fn from_fen(s: &str) -> (r: Result<Color, FenError>)
        ensures
            match side_named(s@) {
                Ok(c) => r == Ok::<Color, FenError>(c),
                Err(e) => r matches Err(x) && x@ == e,
            },
    {
        let cs = chars_of(s);
        side_from_chars(&cs)
    }
}

impl std::str::FromStr for Color {
    type Err = FenError;

    fn from_str(s: &str) -> (r: Result<Self, Self::Err>)
        ensures
            match side_named(s@) {
                Ok(c) => r == Ok::<Color, FenError>(c),
                Err(e) => r matches Err(x) && x@ == e,
            },
    {
        Color::from_fen(s)
    }
}

/// Reading castling symbols from character `i` on, with the rights already
/// granted: each of `K`, `Q`, `k`, `q` at most once, nothing else.
pub open spec fn rights_from(
    f: Seq<char>,
    i: int,
    wk: bool,
    wq: bool,
    bk: bool,
    bq: bool,
) -> Result<CastlingRights, FenFault>
    decreases f.len() - i,
{
    if i >= f.len() || i < 0 {
        if wk || wq || bk || bq {
            Ok(
                CastlingRights::Rights {
                    white_king: wk,
                    white_queen: wq,
                    black_king: bk,
                    black_queen: bq,
                },
            )
        } else {
            Err(FenFault::InvalidCastlingRights(f))
        }
    } else {
        let c = f[i];
        if c == 'K' && !wk {
            rights_from(f, i + 1, true, wq, bk, bq)
        } else if c == 'Q' && !wq {
            rights_from(f, i + 1, wk, true, bk, bq)
        } else if c == 'k' && !bk {
            rights_from(f, i + 1, wk, wq, true, bq)
        } else if c == 'q' && !bq {
            rights_from(f, i + 1, wk, wq, bk, true)
        } else {
            Err(FenFault::InvalidCastlingRights(f))
        }
    }
}

/// The castling rights that the field `f` names: `-` for none, otherwise
/// some of `K`, `Q`, `k`, `q`, each at most once.
pub open spec fn rights_named(f: Seq<char>) -> Result<CastlingRights, FenFault> {
    if f == seq!['-'] {
        Ok(CastlingRights::NoRights)
    } else {
        rights_from(f, 0, false, false, false, false)
    }
}

pub(crate) fn rights_from_chars(f: &Vec<char>) -> (r: Result<CastlingRights, FenError>)
    ensures
        match rights_named(f@) {
            Ok(c) => r == Ok::<CastlingRights, FenError>(c),
            Err(e) => r matches Err(x) && x@ == e,
        },
{
    if f.len() == 1 && f[0] == '-' {
        assert(f@ =~= seq!['-']);
        return Ok(CastlingRights::NoRights);
    }
    assert(f@ != seq!['-']) by {
        if f@ == seq!['-'] {
            assert(f@.len() == 1);
        }
    }
    let mut wk = false;
    let mut wq = false;
    let mut bk = false;
    let mut bq = false;
    let mut i: usize = 0;
    while i < f.len()
        invariant
            i <= f.len(),
            f@ != seq!['-'],
            rights_named(f@) == rights_from(f@, i as int, wk, wq, bk, bq),
        decreases f.len() - i,
    {
        let c = f[i];
        if c == 'K' && !wk {
            wk = true;
        } else if c == 'Q' && !wq {
            wq = true;
        } else if c == 'k' && !bk {
            bk = true;
        } else if c == 'q' && !bq {
            bq = true;
        } else {
            return Err(FenError::InvalidCastlingRights(string_of(f)));
        }
        i = i + 1;
    }
    if wk || wq || bk || bq {
        Ok(CastlingRights::Rights { white_king: wk, white_queen: wq, black_king: bk, black_queen: bq })
    } else {
        Err(FenError::InvalidCastlingRights(string_of(f)))
    }
}

impl CastlingRights {
    /// The castling rights that `s` names: `-` for none, otherwise some of
    /// `K`, `Q`, `k`, `q`, each at most once.
    pub fn from_fen(s: &str) -> (r: Result<CastlingRights, FenError>)
        ensures
            match rights_named(s@) {
                Ok(c) => r == Ok::<CastlingRights, FenError>(c),
                Err(e) => r matches Err(x) && x@ == e,
            },
    {
        let cs = chars_of(s);
        rights_from_chars(&cs)
    }
}

/// One of the four castling symbols `K`, `Q`, `k`, `q`.
pub open spec fn is_castling_symbol(c: char) -> bool {
    c == 'K' || c == 'Q' || c == 'k' || c == 'q'
}

proof fn lemma_take_push_contains(f: Seq<char>, i: int)
    requires
        0 <= i < f.len(),
    ensures
        forall|x: char| #[trigger] f.take(i + 1).contains(x) <==> (f.take(i).contains(x) || x == f[i]),
{
    assert forall|x: char| #[trigger] f.take(i + 1).contains(x) <==> (f.take(i).contains(x) || x == f[i]) by {
        if f.take(i + 1).contains(x) {
            let j = choose|j: int| 0 <= j < i + 1 && #[trigger] f.take(i + 1)[j] == x;
            if j < i {
                assert(f.take(i)[j] == x);
            }
        }
        if f.take(i).contains(x) {
            let j = choose|j: int| 0 <= j < i && #[trigger] f.take(i)[j] == x;
            assert(f.take(i + 1)[j] == x);
        }
        if x == f[i] {
            assert(f.take(i + 1)[i] == x);
        }
    }
}

proof fn lemma_rights_from_accepts(f: Seq<char>, i: int, wk: bool, wq: bool, bk: bool, bq: bool)
    requires
        0 <= i <= f.len(),
        f.len() > 0,
        forall|j: int| 0 <= j < f.len() ==> is_castling_symbol(#[trigger] f[j]),
        f.no_duplicates(),
        wk <==> f.take(i).contains('K'),
        wq <==> f.take(i).contains('Q'),
        bk <==> f.take(i).contains('k'),
        bq <==> f.take(i).contains('q'),
    ensures
        rights_from(f, i, wk, wq, bk, bq) is Ok,
    decreases f.len() - i,
{
    if i == f.len() {
        assert(f.take(i) =~= f);
        assert(is_castling_symbol(f[0]));
        assert(f.contains(f[0]));
    } else {
        let c = f[i];
        lemma_take_push_contains(f, i);
        assert(!f.take(i).contains(c)) by {
            if f.take(i).contains(c) {
                let j = choose|j: int| 0 <= j < i && #[trigger] f.take(i)[j] == c;
                assert(f[j] == f[i]);
            }
        }
        assert(is_castling_symbol(c));
        lemma_rights_from_accepts(
            f,
            i + 1,
            wk || c == 'K',
            wq || c == 'Q',
            bk || c == 'k',
            bq || c == 'q',
        );
    }
}

proof fn lemma_rights_from_refuses(f: Seq<char>, i: int, wk: bool, wq: bool, bk: bool, bq: bool)
    requires
        0 <= i <= f.len(),
        rights_from(f, i, wk, wq, bk, bq) is Ok,
        wk <==> f.take(i).contains('K'),
        wq <==> f.take(i).contains('Q'),
        bk <==> f.take(i).contains('k'),
        bq <==> f.take(i).contains('q'),
    ensures
        forall|j: int| i <= j < f.len() ==> is_castling_symbol(#[trigger] f[j]) && !f.take(j).contains(f[j]),
        f.len() > 0,
    decreases f.len() - i,
{
    if i == f.len() {
        if f.len() == 0 {
            assert(f.take(0).len() == 0);
            assert(!f.take(0).contains('K') && !f.take(0).contains('Q') && !f.take(0).contains('k')
                && !f.take(0).contains('q'));
        }
    } else {
        let c = f[i];
        lemma_take_push_contains(f, i);
        lemma_rights_from_refuses(
            f,
            i + 1,
            wk || c == 'K',
            wq || c == 'Q',
            bk || c == 'k',
            bq || c == 'q',
        );
    }
}

/// A castling field is read exactly when it is `-`, or a non-empty run of
/// the symbols `K`, `Q`, `k`, `q` with none repeated, in any order and any
/// number: `kq`, `K` and `qKk` are all accepted.
pub proof fn lemma_rights_named_accepts_symbol_sets(f: Seq<char>)
    ensures
        rights_named(f) is Ok <==> (f == seq!['-'] || (f.len() > 0 && (forall|j: int|
            0 <= j < f.len() ==> is_castling_symbol(#[trigger] f[j])) && f.no_duplicates())),
{
    assert(f.take(0).len() == 0);
    assert(!f.take(0).contains('K') && !f.take(0).contains('Q') && !f.take(0).contains('k') && !f.take(
        0,
    ).contains('q'));
    if f != seq!['-'] {
        if f.len() > 0 && (forall|j: int| 0 <= j < f.len() ==> is_castling_symbol(#[trigger] f[j]))
            && f.no_duplicates() {
            lemma_rights_from_accepts(f, 0, false, false, false, false);
        }
        if rights_named(f) is Ok {
            lemma_rights_from_refuses(f, 0, false, false, false, false);
            assert forall|a: int, k: int| 0 <= a < f.len() && 0 <= k < f.len() && a != k implies f[a] != f[k] by {
                let (lo, hi) = if a < k {
                    (a, k)
                } else {
                    (k, a)
                };
                assert(!f.take(hi).contains(f[hi]));
                assert(f.take(hi)[lo] == f[lo]);
            }
        }
    }
}

/// Castling rights that are read are canonical and hold exactly the rights
/// whose symbols the field lists.
pub proof fn lemma_rights_named_lists_the_symbols(f: Seq<char>)
    requires
        rights_named(f) is Ok,
    ensures
        rights_named(f)->Ok_0.is_canonical(),
        f != seq!['-'] ==> (rights_named(f)->Ok_0.has(crate::types::CastlingRight::WhiteKing)
            <==> f.contains('K')),
        f != seq!['-'] ==> (rights_named(f)->Ok_0.has(crate::types::CastlingRight::WhiteQueen)
            <==> f.contains('Q')),
        f != seq!['-'] ==> (rights_named(f)->Ok_0.has(crate::types::CastlingRight::BlackKing)
            <==> f.contains('k')),
        f != seq!['-'] ==> (rights_named(f)->Ok_0.has(crate::types::CastlingRight::BlackQueen)
            <==> f.contains('q')),
        f == seq!['-'] ==> rights_named(f)->Ok_0 == CastlingRights::NoRights,
{
    if f != seq!['-'] {
        lemma_rights_from_lists(f, 0, false, false, false, false);
    }
}

proof fn lemma_rights_from_lists(f: Seq<char>, i: int, wk: bool, wq: bool, bk: bool, bq: bool)
    requires
        0 <= i <= f.len(),
        rights_from(f, i, wk, wq, bk, bq) is Ok,
        wk <==> f.take(i).contains('K'),
        wq <==> f.take(i).contains('Q'),
        bk <==> f.take(i).contains('k'),
        bq <==> f.take(i).contains('q'),
    ensures
        rights_from(f, i, wk, wq, bk, bq)->Ok_0.is_canonical(),
        rights_from(f, i, wk, wq, bk, bq)->Ok_0.has(crate::types::CastlingRight::WhiteKing)
            <==> f.contains('K'),
        rights_from(f, i, wk, wq, bk, bq)->Ok_0.has(crate::types::CastlingRight::WhiteQueen)
            <==> f.contains('Q'),
        rights_from(f, i, wk, wq, bk, bq)->Ok_0.has(crate::types::CastlingRight::BlackKing)
            <==> f.contains('k'),
        rights_from(f, i, wk, wq, bk, bq)->Ok_0.has(crate::types::CastlingRight::BlackQueen)
            <==> f.contains('q'),
    decreases f.len() - i,
{
    if i == f.len() {
        assert(f.take(i) =~= f);
    } else {
        let c = f[i];
        assert(f.take(i + 1) =~= f.take(i).push(c));
        assert forall|x: char| f.take(i + 1).contains(x) <==> (f.take(i).contains(x) || x == c) by {
            if f.take(i + 1).contains(x) {
                let j = choose|j: int| 0 <= j < i + 1 && #[trigger] f.take(i + 1)[j] == x;
                if j < i {
                    assert(f.take(i)[j] == x);
                }
            }
            if f.take(i).contains(x) {
                let j = choose|j: int| 0 <= j < i && #[trigger] f.take(i)[j] == x;
                assert(f.take(i + 1)[j] == x);
            }
            if x == c {
                assert(f.take(i + 1)[i] == x);
            }
        }
        if c == 'K' && !wk {
            lemma_rights_from_lists(f, i + 1, true, wq, bk, bq);
        } else if c == 'Q' && !wq {
            lemma_rights_from_lists(f, i + 1, wk, true, bk, bq);
        } else if c == 'k' && !bk {
            lemma_rights_from_lists(f, i + 1, wk, wq, true, bq);
        } else {
            lemma_rights_from_lists(f, i + 1, wk, wq, bk, true);
        }
    }
}

impl std::str::FromStr for CastlingRights {
    type Err = FenError;

    fn from_str(s: &str) -> (r: Result<Self, Self::Err>)
        ensures
            match rights_named(s@) {
                Ok(c) => r == Ok::<CastlingRights, FenError>(c),
                Err(e) => r matches Err(x) && x@ == e,
            },
    {
        CastlingRights::from_fen(s)
    }
}

} // verus!
