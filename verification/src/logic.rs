//! The board: the mailbox of slot numbers beside the piece list, reading a
//! whole position from Forsyth-Edwards notation, and what a square holds
//! for a piece of a given colour.

use vstd::prelude::*;

use crate::fen::count_kings;
use crate::fen::kings_ok;
use crate::fen::placement;
use crate::fen::rights_from_chars;
use crate::fen::rights_named;
use crate::fen::side_from_chars;
use crate::fen::side_named;
use crate::text::chars_of;
use crate::text::push_char;
use crate::text::parse_u32;
use crate::text::parsed_u32;
use crate::text::split_words;
use crate::text::string_of;
use crate::text::views;
use crate::text::words;
use crate::types::board_of;
use crate::types::on_board;
use crate::types::opponent;
use crate::types::passing_row;
use crate::types::piece_letter;
use crate::types::upper;
use crate::types::slots_wf;
use crate::types::square_named;
use crate::types::CastlingRights;
use crate::types::Color;
use crate::types::FenError;
use crate::types::FenFault;
use crate::types::Piece;
use crate::types::PieceList;
use crate::types::PieceType;
use crate::types::Square;
use crate::types::Target;

verus! {

/// A position: the 10x12 mailbox holds, for every index, the slot of the
/// piece standing there, beside the piece list itself.
pub struct Board {
    pub squares: [Option<usize>; 120],
    pub pieces: PieceList,
    pub to_move: Color,
    pub castling_rights: CastlingRights,
    pub en_passant_target: Option<Square>,
    pub halfsteps: u32,
    pub fullsteps: u32,
}

/// The piece on index `i`, looked up through the mailbox `squares`.
pub open spec fn occupant(squares: Seq<Option<usize>>, slots: Seq<Option<Piece>>, i: int) -> Option<
    Piece,
> {
    if 0 <= i < squares.len() {
        match squares[i] {
            Some(k) => slots[k as int],
            None => None,
        }
    } else {
        None
    }
}

/// What a piece of colour `color` moving onto index `i` finds: off the
/// playable board or a piece of its own colour blocks it, a piece of the
/// other colour can be captured, otherwise the square is empty.
pub open spec fn classify(squares: Seq<Option<usize>>, slots: Seq<Option<Piece>>, i: int, color: Color) -> Target {
    if !on_board(i) {
        Target::Blocked
    } else {
        match occupant(squares, slots, i) {
            Some(p) => if p.color == color {
                Target::Blocked
            } else {
                Target::Capture
            },
            None => Target::Empty,
        }
    }
}

pub open spec fn forward(c: Color) -> int {
    match c {
        Color::White => 1,
        Color::Black => -1,
    }
}

/// The en passant target that field `f` names for a board with mailbox
/// `squares` and slots `slots` and `side` to move: `-` for none; otherwise a
/// square on the row the opponent's pawn skipped, empty, with an opponent's
/// pawn just behind it.
pub open spec fn en_passant_named(
    squares: Seq<Option<usize>>,
    slots: Seq<Option<Piece>>,
    side: Color,
    f: Seq<char>,
) -> Result<Option<Square>, FenFault> {
    if f == seq!['-'] {
        Ok(None)
    } else {
        match square_named(f) {
            None => Err(FenFault::InvalidEnPassant(f)),
            Some(sq) => {
                let behind = sq.0 as int - 10 * forward(side);
                if sq.0 as int / 10 == passing_row(opponent(side)) && classify(
                    squares,
                    slots,
                    sq.0 as int,
                    side,
                ) == Target::Empty && (occupant(squares, slots, behind) matches Some(p)
                    && p.color != side && p.piece_type == PieceType::Pawn) {
                    Ok(Some(sq))
                } else {
                    Err(FenFault::InvalidEnPassant(f))
                }
            },
        }
    }
}

/// What a position in FEN describes.
pub struct Position {
    pub slots: Seq<Option<Piece>>,
    pub to_move: Color,
    pub castling_rights: CastlingRights,
    pub en_passant_target: Option<Square>,
    pub halfsteps: u32,
    pub fullsteps: u32,
}

/// The position that the FEN text `s` describes: six whitespace-separated
/// fields (piece placement, side to move, castling rights, en passant target,
/// half-move clock, full-move number), each side with exactly one king; or
/// the first fault found, in that order of checks, the en passant target last.
pub open spec fn fen_position(s: Seq<char>) -> Result<Position, FenFault> {
    let w = words(s);
    if w.len() != 6 {
        Err(FenFault::WrongFieldCount(w.len()))
    } else {
        match placement(w[0]) {
            Err(f) => Err(f),
            Ok(slots) => if !kings_ok(slots) {
                Err(FenFault::InvalidBoardState)
            } else {
                match side_named(w[1]) {
                    Err(f) => Err(f),
                    Ok(side) => match rights_named(w[2]) {
                        Err(f) => Err(f),
                        Ok(rights) => match parsed_u32(w[4]) {
                            None => Err(FenFault::InvalidClock),
                            Some(half) => match parsed_u32(w[5]) {
                                None => Err(FenFault::InvalidClock),
                                Some(full) => match en_passant_named(
                                    board_of(slots),
                                    slots,
                                    side,
                                    w[3],
                                ) {
                                    Err(f) => Err(f),
                                    Ok(ep) => Ok(
                                        Position {
                                            slots,
                                            to_move: side,
                                            castling_rights: rights,
                                            en_passant_target: ep,
                                            halfsteps: half,
                                            fullsteps: full,
                                        },
                                    ),
                                },
                            },
                        },
                    },
                }
            },
        }
    }
}

impl Board {
    /// The mailbox agrees with the piece list, which is well formed.
    pub open spec fn wf(&self) -> bool {
        &&& slots_wf(self.pieces@)
        &&& self.squares@ == board_of(self.pieces@)
    }

    /// The mailbox entry at index `i` is empty or names one of the 32 slots.
    pub open spec fn slot_ok(&self, i: int) -> bool {
        self.squares@[i] matches Some(k) ==> k < 32
    }

    /// Every playable square of the mailbox is empty or names one of the 32 slots.
    pub open spec fn slots_in_range(&self) -> bool {
        forall|i: int| on_board(i) ==> #[trigger] self.slot_ok(i)
    }

    /// Every playable square of the mailbox is empty or names a filled slot.
    pub open spec fn names_pieces(&self) -> bool {
        forall|i: int|
            on_board(i) ==> (#[trigger] self.squares@[i] matches Some(k) ==> k < 32
                && self.pieces@[k as int] is Some)
    }

    /// The en passant target, when there is one, is a square that the side
    /// to move finds empty.
    pub open spec fn en_passant_empty(&self) -> bool {
        self.en_passant_target matches Some(ts) ==> self.classify(ts.0 as int, self.to_move)
            == Target::Empty
    }

    pub open spec fn occupant(&self, i: int) -> Option<Piece> {
        occupant(self.squares@, self.pieces@, i)
    }

    pub open spec fn classify(&self, i: int, color: Color) -> Target {
        classify(self.squares@, self.pieces@, i, color)
    }

    /// This board holds the position `pos`.
    pub open spec fn models(&self, pos: Position) -> bool {
        &&& self.pieces@ == pos.slots
        &&& self.to_move == pos.to_move
        &&& self.castling_rights == pos.castling_rights
        &&& self.en_passant_target == pos.en_passant_target
        &&& self.halfsteps == pos.halfsteps
        &&& self.fullsteps == pos.fullsteps
    }

    /// Reads a position in Forsyth-Edwards notation.
    pub fn from_fen(fen: &str) -> (r: Result<Board, FenError>)
        ensures
            match fen_position(fen@) {
                Ok(pos) => r matches Ok(b) && b.wf() && b.models(pos),
                Err(f) => r matches Err(e) && e@ == f,
            },
            r matches Ok(b) ==> b.wf() && kings_ok(b.pieces@) && b.en_passant_empty(),
    {
        let cs = chars_of(fen);
        let fields = split_words(&cs);
        let ghost w = words(fen@);
        if fields.len() != 6 {
            return Err(FenError::WrongFieldCount(fields.len()));
        }
        assert(fields@[0]@ == w[0] && fields@[1]@ == w[1] && fields@[2]@ == w[2]);
        assert(fields@[3]@ == w[3] && fields@[4]@ == w[4] && fields@[5]@ == w[5]);
        let pieces = match PieceList::from_fen_chars(&fields[0]) {
            Ok(p) => p,
            Err(e) => {
                return Err(e);
            },
        };
        if count_kings(&pieces, Color::White) != 1 || count_kings(&pieces, Color::Black) != 1 {
            return Err(FenError::InvalidBoardState);
        }
        let to_move = match side_from_chars(&fields[1]) {
            Ok(c) => c,
            Err(e) => {
                return Err(e);
            },
        };
        let castling_rights = match rights_from_chars(&fields[2]) {
            Ok(c) => c,
            Err(e) => {
                return Err(e);
            },
        };
        let halfsteps = match parse_u32(&fields[4]) {
            Some(h) => h,
            None => {
                return Err(FenError::InvalidClock);
            },
        };
        let fullsteps = match parse_u32(&fields[5]) {
            Some(f) => f,
            None => {
                return Err(FenError::InvalidClock);
            },
        };
        let squares = pieces.as_board();
        let mut board = Board {
            squares,
            pieces,
            to_move,
            castling_rights,
            en_passant_target: None,
            halfsteps,
            fullsteps,
        };
        let ep = match board.parse_en_passant(&fields[3]) {
            Ok(ep) => ep,
            Err(e) => {
                return Err(e);
            },
        };
        board.en_passant_target = ep;
        Ok(board)
    }

    /// What a piece of colour `color` moving onto `square` finds there.
    pub fn classify_target(&self, square: &Square, color: Color) -> (r: Target)
        requires
            on_board(square.0 as int) ==> self.slot_ok(square.0 as int),
        ensures
            r == self.classify(square.0 as int, color),
    {
        if Self::is_sentinel(square) {
            return Target::Blocked;
        }
        match self.is_occupied(square) {
            Some(c) => if c == color {
                Target::Blocked
            } else {
                Target::Capture
            },
            None => Target::Empty,
        }
    }

    /// The piece standing on `square`.
    pub fn piece_at(&self, square: &Square) -> (r: Option<&Piece>)
        requires
            square.0 < 120,
            self.slot_ok(square.0 as int),
        ensures
            match r {
                Some(p) => self.occupant(square.0 as int) == Some(*p),
                None => self.occupant(square.0 as int) is None,
            },
    {
        proof {
            self.pieces.lemma_len();
        }
        match self.squares[square.0] {
            Some(indx) => self.pieces.at(indx).as_ref(),
            None => None,
        }
    }

    fn is_sentinel(square: &Square) -> (r: bool)
        ensures
            r == !on_board(square.0 as int),
    {
        let rank = square.0 / 10;
        let file = square.0 % 10;
        !(1 <= file && file <= 8) || !(2 <= rank && rank <= 9)
    }

    fn is_occupied(&self, square: &Square) -> (r: Option<Color>)
        requires
            square.0 < 120,
            self.slot_ok(square.0 as int),
        ensures
            match self.occupant(square.0 as int) {
                Some(p) => r == Some(p.color),
                None => r is None,
            },
    {
        match self.piece_at(square) {
            Some(p) => Some(p.color),
            None => None,
        }
    }

    fn parse_en_passant(&self, en_passant: &Vec<char>) -> (r: Result<Option<Square>, FenError>)
        requires
            self.wf(),
        ensures
            match en_passant_named(self.squares@, self.pieces@, self.to_move, en_passant@) {
                Ok(ep) => r == Ok::<Option<Square>, FenError>(ep),
                Err(f) => r matches Err(e) && e@ == f,
            },
    {
        proof {
            lemma_wf_slots_in_range(self);
        }
        if en_passant.len() == 1 && en_passant[0] == '-' {
            assert(en_passant@ =~= seq!['-']);
            return Ok(None);
        }
        assert(en_passant@ != seq!['-']) by {
            if en_passant@ == seq!['-'] {
                assert(en_passant@.len() == 1);
            }
        }
        let square = match Square::from_algebraic_chars(en_passant) {
            Some(sq) => sq,
            None => {
                return Err(FenError::InvalidEnPassant(string_of(en_passant)));
            },
        };
        let direction: isize = match self.to_move {
            Color::White => 1,
            Color::Black => -1,
        };
        let is_valid = square.is_en_passant_row(self.to_move.next()) && self.classify_target(
            &square,
            self.to_move,
        ) == Target::Empty && match self.piece_at(&square.offset(-10 * direction)) {
            Some(p) => p.color != self.to_move && p.piece_type == PieceType::Pawn,
            None => false,
        };
        if is_valid {
            Ok(Some(square))
        } else {
            Err(FenError::InvalidEnPassant(string_of(en_passant)))
        }
    }
}

/// The en passant field is `-` for none, or names a square on the row the
/// opponent's pawn skipped (rank 6 when white moves, rank 3 when black
/// moves) that is empty, with a pawn of the opponent on the square just
/// beyond it (one rank lower for white, one higher for black); it is
/// accepted exactly then, whatever else stands on the board, and refused
/// with its own text otherwise.
pub proof fn lemma_en_passant_field_rule(
    squares: Seq<Option<usize>>,
    slots: Seq<Option<Piece>>,
    side: Color,
    f: Seq<char>,
)
    ensures
        f == seq!['-'] ==> en_passant_named(squares, slots, side, f) == Ok::<Option<Square>, FenFault>(None),
        f != seq!['-'] && (square_named(f) matches Some(q) && occupant(squares, slots, q.0 as int) is None && (
        side == Color::White ==> q.0 / 10 == 7 && (occupant(squares, slots, q.0 - 10) matches Some(p)
            && p.color == Color::Black && p.piece_type == PieceType::Pawn)) && (side == Color::Black
            ==> q.0 / 10 == 4 && (occupant(squares, slots, q.0 + 10) matches Some(p) && p.color
            == Color::White && p.piece_type == PieceType::Pawn))) ==> en_passant_named(squares, slots, side, f)
            == Ok::<Option<Square>, FenFault>(square_named(f)),
        f != seq!['-'] && !(square_named(f) matches Some(q) && occupant(squares, slots, q.0 as int) is None && (
        side == Color::White ==> q.0 / 10 == 7 && (occupant(squares, slots, q.0 - 10) matches Some(p)
            && p.color == Color::Black && p.piece_type == PieceType::Pawn)) && (side == Color::Black
            ==> q.0 / 10 == 4 && (occupant(squares, slots, q.0 + 10) matches Some(p) && p.color
            == Color::White && p.piece_type == PieceType::Pawn))) ==> en_passant_named(squares, slots, side, f)
            == Err::<Option<Square>, FenFault>(FenFault::InvalidEnPassant(f)),
{
    if f != seq!['-'] {
        if let Some(q) = square_named(f) {
            crate::types::lemma_square_named_round_trip(f);
            assert(on_board(q.0 as int));
        }
    }
}

/// A well-formed board names only existing slots in its mailbox.
pub proof fn lemma_wf_slots_in_range(b: &Board)
    requires
        b.wf(),
    ensures
        b.slots_in_range(),
{
    assert forall|i: int| on_board(i) implies #[trigger] b.slot_ok(i) by {
        lemma_slot_at_below(b.pieces@, i, 32);
    }
}

/// A well-formed board names only filled slots in its mailbox.
pub proof fn lemma_wf_names_pieces(b: &Board)
    requires
        b.wf(),
    ensures
        b.names_pieces(),
{
    assert forall|i: int| on_board(i) implies (#[trigger] b.squares@[i] matches Some(k) ==> k < 32
        && b.pieces@[k as int] is Some) by {
        lemma_slot_at_below(b.pieces@, i, 32);
        lemma_slot_at_holds(b.pieces@, i, 32);
    }
}

pub proof fn lemma_slot_at_below(s: Seq<Option<Piece>>, sq: int, n: int)
    ensures
        crate::types::slot_at(s, sq, n) matches Some(k) ==> 0 <= k < n,
    decreases n,
{
    if n > 0 {
        lemma_slot_at_below(s, sq, n - 1);
    }
}

/// The highest slot below `n` holding a piece on index `sq` is the slot `k`
/// of such a piece, when no two pieces share a square.
pub proof fn lemma_slot_at_finds(s: Seq<Option<Piece>>, sq: int, n: int, k: int)
    requires
        slots_wf(s),
        0 <= k < n <= 32,
        s[k] matches Some(p) && p.square.0 == sq,
    ensures
        crate::types::slot_at(s, sq, n) == Some(k as usize),
    decreases n,
{
    if n - 1 != k {
        assert(!(s[n - 1] matches Some(q) && q.square.0 == sq));
        lemma_slot_at_finds(s, sq, n - 1, k);
    }
}

/// A slot that the mailbox names holds a piece standing on that index.
pub proof fn lemma_slot_at_holds(s: Seq<Option<Piece>>, sq: int, n: int)
    requires
        n <= 32,
    ensures
        crate::types::slot_at(s, sq, n) matches Some(k) ==> (s[k as int] matches Some(p) && p.square.0
            == sq),
    decreases n,
{
    if n > 0 {
        lemma_slot_at_holds(s, sq, n - 1);
    }
}

/// On a well-formed board every piece is found on its own square, and what
/// is found on a square is a piece standing there.
pub proof fn lemma_pieces_reachable_by_square(b: Board)
    requires
        b.wf(),
    ensures
        forall|k: int|
            0 <= k < 32 && #[trigger] b.pieces@[k] is Some ==> b.occupant(
                b.pieces@[k]->0.square.0 as int,
            ) == b.pieces@[k],
        forall|i: int|
            #[trigger] b.occupant(i) is Some ==> b.occupant(i)->0.square.0 == i && on_board(i),
{
    assert forall|k: int| 0 <= k < 32 && #[trigger] b.pieces@[k] is Some implies b.occupant(
        b.pieces@[k]->0.square.0 as int,
    ) == b.pieces@[k] by {
        let sq = b.pieces@[k]->0.square.0 as int;
        lemma_slot_at_finds(b.pieces@, sq, 32, k);
    }
    assert forall|i: int| #[trigger] b.occupant(i) is Some implies b.occupant(i)->0.square.0 == i
        && on_board(i) by {
        lemma_slot_at_holds(b.pieces@, i, 32);
        lemma_slot_at_below(b.pieces@, i, 32);
    }
}

/// A square that is empty for one colour is empty for the other; a piece
/// that one colour can capture blocks the other colour, and a playable
/// square that blocks one colour holds a piece the other can capture.
pub proof fn lemma_classify_flips_with_colour(b: Board, i: int, c: Color)
    ensures
        b.classify(i, c) == Target::Empty <==> b.classify(i, opponent(c)) == Target::Empty,
        b.classify(i, c) == Target::Capture ==> b.classify(i, opponent(c)) == Target::Blocked,
        on_board(i) && b.classify(i, c) == Target::Blocked ==> b.classify(i, opponent(c))
            == Target::Capture,
{
}

/// Indices off the playable board block every colour.
pub proof fn lemma_off_board_blocks(b: Board, i: int, c: Color)
    requires
        !on_board(i),
    ensures
        b.classify(i, c) == Target::Blocked,
{
}

/// The character a square shows in a printed board: the letter of the
/// piece on it, or `*` when it is empty.
pub open spec fn cell(b: Board, idx: int) -> char {
    match b.occupant(idx) {
        Some(p) => piece_letter(p.piece_type, p.color),
        None => '*',
    }
}

/// One printed rank: its number, a space, its eight squares from file a, a
/// line break.
pub open spec fn rank_line(b: Board, row: int) -> Seq<char> {
    seq![(('0' as int) + row - 1) as char, ' '] + Seq::new(8, |f: int| cell(b, row * 10 + f + 1))
        + seq!['\n']
}

/// The printed ranks from the top down to mailbox row `row`.
pub open spec fn ranks_down_to(b: Board, row: int) -> Seq<char>
    decreases 10 - row,
{
    if row > 9 {
        seq![]
    } else {
        ranks_down_to(b, row + 1) + rank_line(b, row)
    }
}

/// The printed board: ranks 8 down to 1, then the file letters.
pub open spec fn rendering(b: Board) -> Seq<char> {
    ranks_down_to(b, 2) + seq![' ', ' ', 'a', 'b', 'c', 'd', 'e', 'f', 'g', 'h', '\n']
}

proof fn lemma_ranks_layout(b: Board, row: int)
    requires
        2 <= row <= 10,
    ensures
        ranks_down_to(b, row).len() == 11 * (10 - row),
        forall|i: int, f: int|
            0 <= i < 10 - row && 0 <= f < 8 ==> #[trigger] ranks_down_to(b, row)[11 * i + 2 + f] == cell(
                b,
                (9 - i) * 10 + f + 1,
            ),
        forall|i: int|
            0 <= i < 10 - row ==> #[trigger] ranks_down_to(b, row)[11 * i] == (('8' as int) - i) as char
                && ranks_down_to(b, row)[11 * i + 1] == ' ' && ranks_down_to(b, row)[11 * i + 10] == '\n',
    decreases 10 - row,
{
    if row <= 9 {
        lemma_ranks_layout(b, row + 1);
        let a = ranks_down_to(b, row + 1);
        let l = rank_line(b, row);
        assert(ranks_down_to(b, row) == a + l);
        assert(l.len() == 11);
        let n = 9 - row;
        assert forall|i: int, f: int| 0 <= i < 10 - row && 0 <= f < 8 implies #[trigger] ranks_down_to(b, row)[11 * i
            + 2 + f] == cell(b, (9 - i) * 10 + f + 1) by {
            if i < n {
                assert((a + l)[11 * i + 2 + f] == a[11 * i + 2 + f]);
            } else {
                assert((a + l)[11 * i + 2 + f] == l[2 + f]);
            }
        }
        assert forall|i: int| 0 <= i < 10 - row implies #[trigger] ranks_down_to(b, row)[11 * i] == (('8' as int) - i) as char
            && ranks_down_to(b, row)[11 * i + 1] == ' ' && ranks_down_to(b, row)[11 * i + 10] == '\n' by {
            if i < n {
                assert((a + l)[11 * i] == a[11 * i]);
                assert((a + l)[11 * i + 1] == a[11 * i + 1]);
                assert((a + l)[11 * i + 10] == a[11 * i + 10]);
            } else {
                assert((a + l)[11 * i] == l[0]);
                assert((a + l)[11 * i + 1] == l[1]);
                assert((a + l)[11 * i + 10] == l[10]);
            }
        }
    }
}

/// The printed board has eleven characters per line and nine lines. Line
/// `i` from the top shows rank `8 - i`: its number, a space, then for each
/// file the letter of the piece on it (upper case for white) or `*`, then a
/// line break; the last line is two spaces and the file letters.
pub proof fn lemma_rendering_layout(b: Board)
    ensures
        rendering(b).len() == 99,
        forall|i: int, f: int|
            0 <= i < 8 && 0 <= f < 8 ==> #[trigger] rendering(b)[11 * i + 2 + f] == match b.occupant(
                (9 - i) * 10 + f + 1,
            ) {
                Some(p) => if p.color == Color::White {
                    upper(crate::types::type_letter(p.piece_type))
                } else {
                    crate::types::type_letter(p.piece_type)
                },
                None => '*',
            },
        forall|i: int|
            0 <= i < 8 ==> #[trigger] rendering(b)[11 * i] == (('8' as int) - i) as char && rendering(b)[11 * i
                + 1] == ' ' && rendering(b)[11 * i + 10] == '\n',
        rendering(b).subrange(88, 99) == seq![' ', ' ', 'a', 'b', 'c', 'd', 'e', 'f', 'g', 'h', '\n'],
{
    lemma_ranks_layout(b, 2);
    let a = ranks_down_to(b, 2);
    let t = seq![' ', ' ', 'a', 'b', 'c', 'd', 'e', 'f', 'g', 'h', '\n'];
    assert(rendering(b) == a + t);
    assert((a + t).subrange(88, 99) =~= t);
    assert forall|i: int, f: int| 0 <= i < 8 && 0 <= f < 8 implies #[trigger] rendering(b)[11 * i + 2 + f] == match b.occupant(
        (9 - i) * 10 + f + 1,
    ) {
        Some(p) => if p.color == Color::White {
            upper(crate::types::type_letter(p.piece_type))
        } else {
            crate::types::type_letter(p.piece_type)
        },
        None => '*',
    } by {
        assert((a + t)[11 * i + 2 + f] == a[11 * i + 2 + f]);
    }
    assert forall|i: int| 0 <= i < 8 implies #[trigger] rendering(b)[11 * i] == (('8' as int) - i) as char && rendering(
        b,
    )[11 * i + 1] == ' ' && rendering(b)[11 * i + 10] == '\n' by {
        assert((a + t)[11 * i] == a[11 * i]);
        assert((a + t)[11 * i + 1] == a[11 * i + 1]);
        assert((a + t)[11 * i + 10] == a[11 * i + 10]);
    }
}

impl Board {
    /// The board as text: one line per rank from rank 8 down, each its
    /// number, a space and a character per square (the piece letter, or
    /// `*`), then a line with the file letters.
    pub fn render(&self) -> (r: String)
        requires
            self.names_pieces(),
        ensures
            r@ == rendering(*self),
    {
        proof {
            self.pieces.lemma_len();
        }
        let mut out = String::new();
        let mut rank: usize = 9;
        while rank >= 2
            invariant
                1 <= rank <= 9,
                self.names_pieces(),
                self.pieces@.len() == 32,
                out@ == ranks_down_to(*self, rank as int + 1),
            decreases rank,
        {
            let ghost start = out@;
            push_char(&mut out, (48u8 + (rank - 1) as u8) as char);
            push_char(&mut out, ' ');
            let mut file: usize = 1;
            while file <= 8
                invariant
                    2 <= rank <= 9,
                    1 <= file <= 9,
                    self.names_pieces(),
                    self.pieces@.len() == 32,
                    out@ == start + seq![(('0' as int) + rank - 1) as char, ' '] + Seq::new(
                        (file - 1) as nat,
                        |f: int| cell(*self, rank * 10 + f + 1),
                    ),
                decreases 9 - file,
            {
                let index = Square::from_rank_file(rank, file);
                match self.squares[index.0] {
                    Some(piece_index) => {
                        let piece = self.pieces.at(piece_index);
                        push_char(&mut out, piece.unwrap().as_symbol());
                    },
                    None => push_char(&mut out, '*'),
                }
                assert(out@ =~= start + seq![(('0' as int) + rank - 1) as char, ' '] + Seq::new(
                    file as nat,
                    |f: int| cell(*self, rank * 10 + f + 1),
                ));
                file = file + 1;
            }
            push_char(&mut out, '\n');
            assert(out@ =~= ranks_down_to(*self, rank as int));
            rank = rank - 1;
        }
        let ghost ranks = out@;
        proof {
            reveal_strlit("  abcdefgh\n");
        }
        let tail_chars = chars_of("  abcdefgh\n");
        let mut i: usize = 0;
        assert(tail_chars@ =~= seq![' ', ' ', 'a', 'b', 'c', 'd', 'e', 'f', 'g', 'h', '\n']);
        while i < tail_chars.len()
            invariant
                i <= tail_chars.len(),
                tail_chars@ == seq![' ', ' ', 'a', 'b', 'c', 'd', 'e', 'f', 'g', 'h', '\n'],
                out@ == ranks + tail_chars@.take(i as int),
            decreases tail_chars.len() - i,
        {
            push_char(&mut out, tail_chars[i]);
            assert(tail_chars@.take(i + 1) =~= tail_chars@.take(i as int).push(tail_chars@[i as int]));
            i = i + 1;
        }
        assert(tail_chars@.take(tail_chars@.len() as int) =~= tail_chars@);
        out
    }
}

impl std::str::FromStr for Board {
    type Err = FenError;

    fn from_str(fen: &str) -> (r: Result<Self, Self::Err>)
        ensures
            match fen_position(fen@) {
                Ok(pos) => r matches Ok(b) && b.wf() && b.models(pos),
                Err(f) => r matches Err(e) && e@ == f,
            },
            r matches Ok(b) ==> b.wf() && kings_ok(b.pieces@) && b.en_passant_empty(),
    {
        Board::from_fen(fen)
    }
}

} // verus!
