//! The vocabulary of the board: colours, piece types, squares of the 10x12
//! mailbox, pieces, the list of pieces by slot, castling rights and the
//! errors that reading Forsyth-Edwards notation can raise.

use vstd::prelude::*;

use crate::text::chars_of;
use crate::text::push_char;

verus! {

/// Why a position in Forsyth-Edwards notation (FEN) was refused.
#[derive(Debug)]
pub enum FenError {
    WrongFieldCount(usize),
    InvalidToMove(String),
    InvalidPieceString,
    InvalidPiece(char),
    InvalidCastlingRights(String),
    InvalidClock,
    InvalidEnPassant(String),
    InvalidBoardState,
}

/// A `FenError` with its text taken by its characters.
pub enum FenFault {
    WrongFieldCount(nat),
    InvalidToMove(Seq<char>),
    InvalidPieceString,
    InvalidPiece(char),
    InvalidCastlingRights(Seq<char>),
    InvalidClock,
    InvalidEnPassant(Seq<char>),
    InvalidBoardState,
}

impl View for FenError {
    type V = FenFault;

    open spec fn view(&self) -> FenFault {
        match self {
            FenError::WrongFieldCount(n) => FenFault::WrongFieldCount(*n as nat),
            FenError::InvalidToMove(s) => FenFault::InvalidToMove(s@),
            FenError::InvalidPieceString => FenFault::InvalidPieceString,
            FenError::InvalidPiece(c) => FenFault::InvalidPiece(*c),
            FenError::InvalidCastlingRights(s) => FenFault::InvalidCastlingRights(s@),
            FenError::InvalidClock => FenFault::InvalidClock,
            FenError::InvalidEnPassant(s) => FenFault::InvalidEnPassant(s@),
            FenError::InvalidBoardState => FenFault::InvalidBoardState,
        }
    }
}

#[derive(Debug, Copy, Clone, PartialEq, Eq, Hash, Structural)]
pub enum Color {
    White,
    Black,
}

pub open spec fn opponent(c: Color) -> Color {
    match c {
        Color::White => Color::Black,
        Color::Black => Color::White,
    }
}

impl Color {
    /// The other colour.
    pub fn next(&self) -> (r: Self)
        ensures
            r == opponent(*self),
    {
        match self {
            Self::White => Self::Black,
            Self::Black => Self::White,
        }
    }
}

/// Taking the other colour twice gives the colour back, and the other colour
/// is never the colour itself.
pub proof fn lemma_next_is_an_involution(c: Color)
    ensures
        opponent(opponent(c)) == c,
        opponent(c) != c,
{
}

#[derive(Debug, Copy, Clone, PartialEq, Eq, Hash, Structural)]
pub enum PieceType {
    Pawn,
    Rook,
    Knight,
    Bishop,
    King,
    Queen,
}

pub open spec fn all_piece_types() -> Seq<PieceType> {
    seq![
        PieceType::Pawn,
        PieceType::Rook,
        PieceType::Knight,
        PieceType::Bishop,
        PieceType::King,
        PieceType::Queen,
    ]
}

pub open spec fn promotion_types() -> Seq<PieceType> {
    seq![PieceType::Queen, PieceType::Rook, PieceType::Bishop, PieceType::Knight]
}

/// The lower-case letter that stands for a piece type.
pub open spec fn type_letter(t: PieceType) -> char {
    match t {
        PieceType::Pawn => 'p',
        PieceType::Rook => 'r',
        PieceType::Knight => 'n',
        PieceType::Bishop => 'b',
        PieceType::Queen => 'q',
        PieceType::King => 'k',
    }
}

/// The piece type that a letter of either case stands for.
pub open spec fn type_of_letter(c: char) -> Option<PieceType> {
    if c == 'p' || c == 'P' {
        Some(PieceType::Pawn)
    } else if c == 'r' || c == 'R' {
        Some(PieceType::Rook)
    } else if c == 'n' || c == 'N' {
        Some(PieceType::Knight)
    } else if c == 'b' || c == 'B' {
        Some(PieceType::Bishop)
    } else if c == 'q' || c == 'Q' {
        Some(PieceType::Queen)
    } else if c == 'k' || c == 'K' {
        Some(PieceType::King)
    } else {
        None
    }
}

impl PieceType {
    /// Every piece type, in a fixed order.
    pub fn all() -> (r: [PieceType; 6])
        ensures
            r@ == all_piece_types(),
    {
        let r = [Self::Pawn, Self::Rook, Self::Knight, Self::Bishop, Self::King, Self::Queen];
        assert(r@ =~= all_piece_types());
        r
    }

    /// The piece types a pawn may become.
    pub fn promotions() -> (r: [PieceType; 4])
        ensures
            r@ == promotion_types(),
    {
        let r = [Self::Queen, Self::Rook, Self::Bishop, Self::Knight];
        assert(r@ =~= promotion_types());
        r
    }

    /// The lower-case letter of this piece type.
    pub fn as_symbol(&self) -> (r: char)
        ensures
            r == type_letter(*self),
    {
        match self {
            PieceType::Pawn => 'p',
            PieceType::Rook => 'r',
            PieceType::Knight => 'n',
            PieceType::Bishop => 'b',
            PieceType::Queen => 'q',
            PieceType::King => 'k',
        }
    }

    /// The piece type that `c` stands for, in either case.
    pub fn from_char(c: char) -> (r: Result<PieceType, FenError>)
        ensures
            match type_of_letter(c) {
                Some(t) => r matches Ok(u) && u == t,
                None => r matches Err(FenError::InvalidPiece(d)) && d == c,
            },
    {
        if c == 'p' || c == 'P' {
            Ok(PieceType::Pawn)
        } else if c == 'r' || c == 'R' {
            Ok(PieceType::Rook)
        } else if c == 'n' || c == 'N' {
            Ok(PieceType::Knight)
        } else if c == 'b' || c == 'B' {
            Ok(PieceType::Bishop)
        } else if c == 'q' || c == 'Q' {
            Ok(PieceType::Queen)
        } else if c == 'k' || c == 'K' {
            Ok(PieceType::King)
        } else {
            Err(FenError::InvalidPiece(c))
        }
    }
}

impl TryFrom<char> for PieceType {
    type Error = FenError;

    fn try_from(c: char) -> (r: Result<Self, Self::Error>) {
        PieceType::from_char(c)
    }
}

impl vstd::std_specs::convert::TryFromSpecImpl<char> for PieceType {
    open spec fn obeys_try_from_spec() -> bool {
        true
    }

    open spec fn try_from_spec(c: char) -> Result<Self, FenError> {
        match type_of_letter(c) {
            Some(t) => Ok(t),
            None => Err(FenError::InvalidPiece(c)),
        }
    }
}

/// Every letter stands for the piece type whose letter it is, in either case.
pub proof fn lemma_letters_round_trip(t: PieceType)
    ensures
        type_of_letter(type_letter(t)) == Some(t),
        type_of_letter(upper(type_letter(t))) == Some(t),
{
}

/// A square of the 10x12 mailbox: index `10 * row + column`, where rows 2 to
/// 9 are ranks 1 to 8 and columns 1 to 8 are files a to h; every other index
/// is off the playable board.
#[derive(Debug, Clone, Copy, PartialEq, Eq, Hash, Structural)]
pub struct Square(pub usize);

/// Whether index `i` is a playable square.
pub open spec fn on_board(i: int) -> bool {
    &&& 0 <= i
    &&& 2 <= i / 10 <= 9
    &&& 1 <= i % 10 <= 8
}

/// The two characters that name the playable square `i`, such as `a1`.
pub open spec fn algebraic(i: int) -> Seq<char> {
    seq![(('a' as int) + i % 10 - 1) as char, (('1' as int) + i / 10 - 2) as char]
}

/// The square that the characters `s` name, when they name one.
pub open spec fn square_named(s: Seq<char>) -> Option<Square> {
    if s.len() == 2 && 'a' <= s[0] && s[0] <= 'h' && '1' <= s[1] && s[1] <= '8' {
        Some(Square(((s[1] as int - '1' as int + 2) * 10 + (s[0] as int - 'a' as int + 1)) as usize))
    } else {
        None
    }
}

/// The index that `Square::offset` reaches.
pub open spec fn offset_index(i: usize, d: isize) -> usize {
    ((i as isize) + d) as usize
}

pub open spec fn last_rank_row(c: Color) -> int {
    match c {
        Color::White => 9,
        Color::Black => 2,
    }
}

pub open spec fn pawn_start_row(c: Color) -> int {
    match c {
        Color::White => 3,
        Color::Black => 8,
    }
}

/// The row that a pawn of colour `c` skips over when it advances two squares.
pub open spec fn passing_row(c: Color) -> int {
    match c {
        Color::White => 4,
        Color::Black => 7,
    }
}

impl Square {
    /// The square named by a file letter and a rank digit, such as `e4`.
    pub fn from_algebraic(index: &str) -> (r: Option<Self>)
        ensures
            r == square_named(index@),
    {
        let cs = chars_of(index);
        Self::from_algebraic_chars(&cs)
    }

    pub(crate) fn from_algebraic_chars(cs: &Vec<char>) -> (r: Option<Self>)
        ensures
            r == square_named(cs@),
    {
        if cs.len() != 2 {
            return None;
        }
        let file = cs[0];
        let rank = cs[1];
        if !('a' <= file && file <= 'h') {
            return None;
        }
        if !('1' <= rank && rank <= '8') {
            return None;
        }
        let file = (file as u32 - 97u32) as usize + 1;
        let rank = (rank as u32 - 49u32) as usize + 2;
        Some(Self::from_rank_file(rank, file))
    }

    /// The name of this square, when it is a playable one.
    pub fn as_algebraic(&self) -> (r: Option<String>)
        ensures
            on_board(self.0 as int) ==> (r matches Some(s) && s@ == algebraic(self.0 as int)),
            !on_board(self.0 as int) ==> r is None,
    {
        let index = self.0;
        if index >= 120 {
            return None;
        }
        let rank_row = index / 10;
        let file_col = index % 10;
        if !(1 <= file_col && file_col <= 8) || !(2 <= rank_row && rank_row <= 9) {
            return None;
        }
        let file_char = (97u8 + (file_col as u8 - 1)) as char;
        let rank_char = (49u8 + (rank_row as u8 - 2)) as char;
        let mut s = String::new();
        push_char(&mut s, file_char);
        push_char(&mut s, rank_char);
        assert(s@ =~= algebraic(index as int));
        Some(s)
    }

    /// The square `indx` places further along the mailbox.
    pub fn offset(&self, indx: isize) -> (r: Self)
        requires
            isize::MIN <= (self.0 as isize) + indx <= isize::MAX,
        ensures
            r.0 == offset_index(self.0, indx),
    {
        Self((self.0 as isize + indx) as usize)
    }

    /// The square on mailbox row `rank` and column `file`.
    pub fn from_rank_file(rank: usize, file: usize) -> (r: Self)
        requires
            rank * 10 + file <= usize::MAX,
        ensures
            r.0 == rank * 10 + file,
    {
        Self((rank * 10) + file)
    }

    /// Whether this square is on the row that a pawn of `color` skips over
    /// when it advances two squares, where an en passant capture lands.
    pub fn is_en_passant_row(&self, color: Color) -> (r: bool)
        ensures
            r == (self.0 / 10 == passing_row(color)),
    {
        match color {
            Color::White => self.0 / 10 == 4,
            Color::Black => self.0 / 10 == 7,
        }
    }

    /// Whether this square is on the rank where a pawn of `color` promotes.
    pub fn is_last_rank(&self, color: Color) -> (r: bool)
        ensures
            r == (self.0 / 10 == last_rank_row(color)),
    {
        match color {
            Color::White => self.0 / 10 == 9,
            Color::Black => self.0 / 10 == 2,
        }
    }

    /// Whether this square is on the rank where the pawns of `color` start.
    pub fn is_pawn_first_row(&self, color: Color) -> (r: bool)
        ensures
            r == (self.0 / 10 == pawn_start_row(color)),
    {
        match color {
            Color::White => self.0 / 10 == 3,
            Color::Black => self.0 / 10 == 8,
        }
    }
}

/// Naming a playable square and reading the name back gives the square.
pub proof fn lemma_algebraic_names_the_square(i: int)
    requires
        on_board(i),
    ensures
        square_named(algebraic(i)) == Some(Square(i as usize)),
{
    let s = algebraic(i);
    assert(s[0] as int == ('a' as int) + i % 10 - 1);
    assert(s[1] as int == ('1' as int) + i / 10 - 2);
}

/// Reading a square from a name and naming it gives the name back.
pub proof fn lemma_square_named_round_trip(s: Seq<char>)
    requires
        square_named(s) is Some,
    ensures
        square_named(s) matches Some(q) && on_board(q.0 as int) && algebraic(q.0 as int) == s,
{
    let i = (s[1] as int - '1' as int + 2) * 10 + (s[0] as int - 'a' as int + 1);
    assert(i / 10 == s[1] as int - '1' as int + 2);
    assert(i % 10 == s[0] as int - 'a' as int + 1);
    assert(algebraic(i) =~= s);
}

/// Moving a square by an offset and back by its negation gives the square
/// back, wherever the first move lands on an index.
pub proof fn lemma_offset_round_trip(i: usize, d: isize)
    requires
        i <= isize::MAX,
        0 <= (i as isize) + d <= isize::MAX,
    ensures
        offset_index(i, d) as int == i as int + d as int,
        isize::MIN <= (offset_index(i, d) as isize) - d <= isize::MAX,
        offset_index(offset_index(i, d), (-d) as isize) == i,
{
}

pub open spec fn upper(c: char) -> char {
    ((c as int) - 32) as char
}

/// The letter of a piece: upper case for white, lower case for black.
pub open spec fn piece_letter(t: PieceType, c: Color) -> char {
    match c {
        Color::White => upper(type_letter(t)),
        Color::Black => type_letter(t),
    }
}

#[derive(Debug, Copy, Clone, PartialEq, Eq, Hash, Structural)]
pub struct Piece {
    pub piece_type: PieceType,
    pub color: Color,
    pub square: Square,
}

impl Piece {
    pub fn new(piece_type: PieceType, color: Color, square: Square) -> (r: Self)
        ensures
            r == (Piece { piece_type, color, square }),
    {
        Self { piece_type, color, square }
    }

    /// The letter of this piece: upper case for white, lower case for black.
    pub fn as_symbol(&self) -> (r: char)
        ensures
            r == piece_letter(self.piece_type, self.color),
    {
        let sym = self.piece_type.as_symbol();
        match self.color {
            Color::White => ((sym as u32 - 32u32) as u8) as char,
            Color::Black => sym,
        }
    }

    /// The letter of this piece followed by the name of its square, such as `Ke1`.
    pub fn notation(&self) -> (r: String)
        requires
            on_board(self.square.0 as int),
        ensures
            r@ == seq![piece_letter(self.piece_type, self.color)] + algebraic(self.square.0 as int),
    {
        let mut s = String::new();
        push_char(&mut s, self.as_symbol());
        let name = self.square.as_algebraic();
        match name {
            Some(n) => {
                let cs = chars_of(n.as_str());
                push_char(&mut s, cs[0]);
                push_char(&mut s, cs[1]);
                assert(s@ =~= seq![piece_letter(self.piece_type, self.color)] + algebraic(
                    self.square.0 as int,
                ));
            },
            None => {},
        }
        s
    }
}

/// The slots of the pieces on a board: slots 0 to 15 hold white pieces and
/// slots 16 to 31 black pieces, each filled from the lowest slot up.
#[derive(Debug, Copy, Clone)]
pub struct PieceList {
    pieces: [Option<Piece>; 32],
}

impl View for PieceList {
    type V = Seq<Option<Piece>>;

    closed spec fn view(&self) -> Seq<Option<Piece>> {
        self.pieces@
    }
}

/// The slots hold pieces of the colour their half stands for, on playable
/// and pairwise different squares.
pub open spec fn slots_wf(s: Seq<Option<Piece>>) -> bool {
    &&& s.len() == 32
    &&& forall|k: int|
        0 <= k < 32 && #[trigger] s[k] is Some ==> on_board(s[k]->0.square.0 as int) && s[k]->0.color
            == (if k < 16 {
            Color::White
        } else {
            Color::Black
        })
    &&& forall|j: int, k: int|
        0 <= j < 32 && 0 <= k < 32 && j != k && #[trigger] s[j] is Some && #[trigger] s[k] is Some
            ==> s[j]->0.square != s[k]->0.square
}

/// The pieces in slots `lo` to `n - 1`, in slot order, skipping empty slots.
pub open spec fn present(s: Seq<Option<Piece>>, lo: int, n: int) -> Seq<Piece>
    decreases n - lo,
{
    if n <= lo {
        seq![]
    } else {
        match s[n - 1] {
            Some(p) => present(s, lo, n - 1).push(p),
            None => present(s, lo, n - 1),
        }
    }
}

/// The highest slot below `n` whose piece stands on index `sq`.
pub open spec fn slot_at(s: Seq<Option<Piece>>, sq: int, n: int) -> Option<usize>
    decreases n,
{
    if n <= 0 {
        None
    } else if s[n - 1] matches Some(p) && p.square.0 == sq {
        Some((n - 1) as usize)
    } else {
        slot_at(s, sq, n - 1)
    }
}

/// For every mailbox index, the slot of the piece standing there.
pub open spec fn board_of(s: Seq<Option<Piece>>) -> Seq<Option<usize>> {
    Seq::new(120, |sq: int| slot_at(s, sq, 32))
}

impl PieceList {
    /// Every piece list keeps its slots well formed.
    #[verifier::type_invariant]
    pub open spec fn slots_valid(self) -> bool {
        slots_wf(self@)
    }

    pub(crate) fn from_slots(pieces: [Option<Piece>; 32]) -> (r: Self)
        requires
            slots_wf(pieces@),
        ensures
            r@ == pieces@,
    {
        PieceList { pieces }
    }

    pub proof fn lemma_len(&self)
        ensures
            self@.len() == 32,
    {
    }

    /// The content of slot `index`.
    pub fn at(&self, index: usize) -> (r: &Option<Piece>)
        requires
            index < 32,
        ensures
            *r == self@[index as int],
    {
        &self.pieces[index]
    }

    fn in_slots(&self, lo: usize, hi: usize) -> (r: Vec<Piece>)
        requires
            lo <= hi <= 32,
        ensures
            r@ == present(self@, lo as int, hi as int),
    {
        let mut out: Vec<Piece> = Vec::new();
        let mut i = lo;
        while i < hi
            invariant
                lo <= i <= hi <= 32,
                self.pieces@.len() == 32,
                out@ == present(self@, lo as int, i as int),
            decreases hi - i,
        {
            match self.pieces[i] {
                Some(p) => out.push(p),
                None => {},
            }
            i = i + 1;
        }
        out
    }

    /// The white pieces, in slot order.
    pub fn white(&self) -> (r: Vec<Piece>)
        ensures
            r@ == present(self@, 0, 16),
    {
        self.in_slots(0, 16)
    }

    /// The black pieces, in slot order.
    pub fn black(&self) -> (r: Vec<Piece>)
        ensures
            r@ == present(self@, 16, 32),
    {
        self.in_slots(16, 32)
    }

    /// All pieces: the white ones, then the black ones, in slot order.
    pub fn all_pieces(&self) -> (r: Vec<Piece>)
        ensures
            r@ == present(self@, 0, 32),
    {
        let mut w = self.white();
        let mut b = self.black();
        proof {
            lemma_present_split(self@, 0, 16, 32);
        }
        w.append(&mut b);
        w
    }

    /// For every mailbox index, the slot of the piece standing there.
    pub fn as_board(&self) -> (r: [Option<usize>; 120])
        ensures
            r@ == board_of(self@),
    {
        proof {
            use_type_invariant(self);
        }
        let mut squares: [Option<usize>; 120] = [None; 120];
        let mut indx: usize = 0;
        while indx < 32
            invariant
                indx <= 32,
                slots_wf(self@),
                self.pieces@ == self@,
                squares@.len() == 120,
                forall|sq: int| 0 <= sq < 120 ==> #[trigger] squares@[sq] == slot_at(self@, sq, indx as int),
            decreases 32 - indx,
        {
            if let Some(p) = self.pieces[indx] {
                assert(self@[indx as int] is Some);
                squares[p.square.0] = Some(indx);
            }
            indx = indx + 1;
        }
        assert(squares@ =~= board_of(self@));
        squares
    }
}

pub proof fn lemma_present_split(s: Seq<Option<Piece>>, lo: int, mid: int, hi: int)
    requires
        lo <= mid <= hi,
    ensures
        present(s, lo, hi) == present(s, lo, mid) + present(s, mid, hi),
    decreases hi - mid,
{
    if hi > mid {
        lemma_present_split(s, lo, mid, hi - 1);
        match s[hi - 1] {
            Some(p) => {
                assert(present(s, lo, hi) =~= present(s, lo, mid) + present(s, mid, hi));
            },
            None => {},
        }
    } else {
        assert(present(s, mid, hi) =~= seq![]);
        assert(present(s, lo, hi) =~= present(s, lo, mid) + present(s, mid, hi));
    }
}

/// One of the four castling rights.
#[derive(Debug, Copy, Clone, PartialEq, Eq, Hash, Structural)]
pub enum CastlingRight {
    WhiteKing,
    WhiteQueen,
    BlackKing,
    BlackQueen,
}

/// The castling rights still held: none at all, or the set of those held,
/// of which at least one is.
#[derive(Debug, Copy, Clone, PartialEq, Eq, Hash, Structural)]
pub enum CastlingRights {
    NoRights,
    Rights { white_king: bool, white_queen: bool, black_king: bool, black_queen: bool },
}

impl CastlingRights {
    pub const NONE: CastlingRights = CastlingRights::NoRights;

    pub const WHITE_KING: CastlingRight = CastlingRight::WhiteKing;

    pub const WHITE_QUEEN: CastlingRight = CastlingRight::WhiteQueen;

    pub const BLACK_KING: CastlingRight = CastlingRight::BlackKing;

    pub const BLACK_QUEEN: CastlingRight = CastlingRight::BlackQueen;

    /// Whether `right` is held.
    pub open spec fn has(self, right: CastlingRight) -> bool {
        match self {
            CastlingRights::NoRights => false,
            CastlingRights::Rights { white_king, white_queen, black_king, black_queen } => match right {
                CastlingRight::WhiteKing => white_king,
                CastlingRight::WhiteQueen => white_queen,
                CastlingRight::BlackKing => black_king,
                CastlingRight::BlackQueen => black_queen,
            },
        }
    }

    /// Each set of rights has one value: `NoRights` when none is held.
    pub open spec fn is_canonical(self) -> bool {
        self matches CastlingRights::Rights { white_king, white_queen, black_king, black_queen }
            ==> white_king || white_queen || black_king || black_queen
    }

    /// Whether `right` is held.
    pub fn contains(&self, right: CastlingRight) -> (r: bool)
        ensures
            r == self.has(right),
    {
        match self {
            CastlingRights::NoRights => false,
            CastlingRights::Rights { white_king, white_queen, black_king, black_queen } => match right {
                CastlingRight::WhiteKing => *white_king,
                CastlingRight::WhiteQueen => *white_queen,
                CastlingRight::BlackKing => *black_king,
                CastlingRight::BlackQueen => *black_queen,
            },
        }
    }
}

/// Two canonical sets of rights are equal exactly when they hold the same rights.
pub proof fn lemma_rights_equal_by_content(a: CastlingRights, b: CastlingRights)
    requires
        a.is_canonical(),
        b.is_canonical(),
        forall|r: CastlingRight| a.has(r) == b.has(r),
    ensures
        a == b,
{
    assert(a.has(CastlingRight::WhiteKing) == b.has(CastlingRight::WhiteKing));
    assert(a.has(CastlingRight::WhiteQueen) == b.has(CastlingRight::WhiteQueen));
    assert(a.has(CastlingRight::BlackKing) == b.has(CastlingRight::BlackKing));
    assert(a.has(CastlingRight::BlackQueen) == b.has(CastlingRight::BlackQueen));
}

/// What a piece moving onto a square would find there.
#[derive(Debug, Copy, Clone, PartialEq, Eq, Hash, Structural)]
pub enum Target {
    Empty,
    Capture,
    Blocked,
}

} // verus!
