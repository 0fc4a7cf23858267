use std::str::FromStr;

use chess_board::{
    Board, CastlingRights, Color, FenError, Move, MoveKind, Piece, PieceList, PieceType, Square,
    Target,
};

const START: &str = "rnbqkbnr/pppppppp/8/8/8/8/PPPPPPPP/RNBQKBNR w KQkq - 0 1";

fn board(fen: &str) -> Board {
    str::parse::<Board>(fen).expect("valid fen")
}

fn sq(name: &str) -> Square {
    Square::from_algebraic(name).expect("valid square")
}

fn playable() -> Vec<Square> {
    let mut out = Vec::new();
    for rank in 2..=9 {
        for file in 1..=8 {
            out.push(Square::from_rank_file(rank, file));
        }
    }
    out
}

fn assert_sound_moves(b: &Board) {
    for m in Move::generate_moves(b) {
        let piece = b.piece_at(&m.from).expect("a move starts on a piece");
        assert_eq!(piece.color, b.to_move);
        let on_target = b.classify_target(&m.to, b.to_move) != Target::Blocked;
        assert!(on_target || b.en_passant_target == Some(m.to), "{:?}", m);
        assert_ne!(m.move_kind, MoveKind::Castle);
        let promotes = piece.piece_type == PieceType::Pawn && m.to.is_last_rank(b.to_move);
        assert_eq!(matches!(m.move_kind, MoveKind::Promotion(_)), promotes, "{:?}", m);
    }
}

#[test]
fn next_twice_gives_the_colour_back() {
    for c in [Color::White, Color::Black] {
        assert_eq!(c.next().next(), c);
        assert_ne!(c.next(), c);
    }
}

#[test]
fn every_playable_square_round_trips_through_its_name() {
    for s in playable() {
        let name = s.as_algebraic().expect("playable squares have names");
        assert_eq!(Square::from_algebraic(&name), Some(s));
    }
    assert_eq!(playable().len(), 64);
}

#[test]
fn names_outside_the_board_are_refused() {
    for name in ["", "a", "i1", "a0", "A1", "a10", "é1", "1a"] {
        assert_eq!(Square::from_algebraic(name), None, "{}", name);
    }
}

#[test]
fn squares_in_the_mailbox_border_have_no_name() {
    for index in [0usize, 10, 19, 20, 29, 30, 99, 100, 119, 120, 5000] {
        assert_eq!(Square(index).as_algebraic(), None);
    }
}

#[test]
fn offset_and_rank_file_compute_mailbox_indices() {
    assert_eq!(Square::from_rank_file(2, 1), Square(21));
    assert_eq!(Square(55).offset(-10), Square(45));
    assert_eq!(Square(55).offset(21), Square(76));
    assert!(sq("a8").is_last_rank(Color::White));
    assert!(sq("h1").is_last_rank(Color::Black));
    assert!(sq("e2").is_pawn_first_row(Color::White));
    assert!(sq("e7").is_pawn_first_row(Color::Black));
    assert!(sq("d6").is_en_passant_row(Color::Black));
    assert!(sq("d3").is_en_passant_row(Color::White));
}

#[test]
fn classification_flips_with_the_colour() {
    let b = board("k1K5/8/8/3pP3/8/8/8/8 w - - 0 0");
    for index in 0..120 {
        let white = b.classify_target(&Square(index), Color::White);
        let black = b.classify_target(&Square(index), Color::Black);
        assert_eq!(white == Target::Empty, black == Target::Empty);
        if white == Target::Capture {
            assert_eq!(black, Target::Blocked);
        }
        if black == Target::Capture {
            assert_eq!(white, Target::Blocked);
        }
    }
}

#[test]
fn every_piece_is_found_on_its_square() {
    for fen in [START, "k1K5/8/8/3pP3/8/8/8/8 w - - 0 0", "r3k2r/8/8/8/8/8/8/R3K2R b KQ - 3 9"] {
        let b = board(fen);
        for p in b.pieces.all_pieces() {
            assert_eq!(b.piece_at(&p.square), Some(&p));
        }
    }
}

#[test]
fn parsed_boards_have_one_king_per_side() {
    let b = board(START);
    for c in [Color::White, Color::Black] {
        let kings = b
            .pieces
            .all_pieces()
            .into_iter()
            .filter(|p| p.color == c && p.piece_type == PieceType::King)
            .count();
        assert_eq!(kings, 1);
    }
}

#[test]
fn white_and_black_lists_hold_their_colours() {
    let pieces = PieceList::from_str("rnbqkbnr/pppppppp/8/8/8/8/PPPPPPPP/RNBQKBNR").unwrap();
    assert_eq!(pieces.white().len(), 16);
    assert_eq!(pieces.black().len(), 16);
    assert!(pieces.white().iter().all(|p| p.color == Color::White));
    assert!(pieces.black().iter().all(|p| p.color == Color::Black));
    assert_eq!(pieces.all_pieces().len(), 32);
    assert_eq!(pieces.at(0), &Some(Piece::new(PieceType::Pawn, Color::White, sq("a2"))));
    assert_eq!(pieces.at(16), &Some(Piece::new(PieceType::Rook, Color::Black, sq("a8"))));
    let grid = pieces.as_board();
    assert_eq!(grid[sq("e1").0], Some(12));
    assert_eq!(grid[sq("e4").0], None);
}

#[test]
fn placement_errors_are_reported() {
    assert!(matches!(PieceList::from_str("8/8/8/8/8/8/8"), Err(FenError::InvalidPieceString)));
    assert!(matches!(PieceList::from_str("8/8/8/8/8/8/8/7"), Err(FenError::InvalidPieceString)));
    assert!(matches!(PieceList::from_str("8/8/8/8/8/8/8/0"), Err(FenError::InvalidPieceString)));
    assert!(matches!(PieceList::from_str("8/8/8/8/8/8/8/7x"), Err(FenError::InvalidPiece('x'))));
    assert!(matches!(PieceList::from_str("8/8 /8/8/8/8/8/8"), Err(FenError::InvalidPieceString)));
    assert!(matches!(
        PieceList::from_str("PPPPPPPP/PPPPPPPP/P7/8/8/8/8/8"),
        Err(FenError::InvalidPieceString)
    ));
    assert!(PieceList::from_str("PPPPPPPP/PPPPPPPP/8/8/8/8/8/8").is_ok());
}

#[test]
fn side_and_rights_fields_are_read() {
    assert_eq!(Color::from_str("w").unwrap(), Color::White);
    assert_eq!(Color::from_str("b").unwrap(), Color::Black);
    assert!(matches!(Color::from_str("white"), Err(FenError::InvalidToMove(s)) if s == "white"));
    assert_eq!(CastlingRights::from_str("-").unwrap(), CastlingRights::NONE);
    let rights = CastlingRights::from_str("qK").unwrap();
    assert!(rights.contains(CastlingRights::WHITE_KING));
    assert!(rights.contains(CastlingRights::BLACK_QUEEN));
    assert!(!rights.contains(CastlingRights::WHITE_QUEEN));
    assert!(!rights.contains(CastlingRights::BLACK_KING));
    assert!(matches!(CastlingRights::from_str("K-"), Err(FenError::InvalidCastlingRights(s)) if s == "K-"));
    assert!(matches!(CastlingRights::from_str(""), Err(FenError::InvalidCastlingRights(_))));
}

#[test]
fn piece_letters_are_read_in_either_case() {
    assert_eq!(PieceType::try_from('N').unwrap(), PieceType::Knight);
    assert_eq!(PieceType::try_from('q').unwrap(), PieceType::Queen);
    assert!(matches!(PieceType::try_from('x'), Err(FenError::InvalidPiece('x'))));
    for t in PieceType::all() {
        assert_eq!(PieceType::from_char(t.as_symbol()).unwrap(), t);
    }
    assert_eq!(
        PieceType::promotions(),
        [PieceType::Queen, PieceType::Rook, PieceType::Bishop, PieceType::Knight]
    );
}

#[test]
fn clocks_are_read_as_unsigned_numbers() {
    let b = board("k1K5/8/8/8/8/8/8/8 w - - +7 4294967295");
    assert_eq!(b.halfsteps, 7);
    assert_eq!(b.fullsteps, 4294967295);
    for bad in ["-1", "+", "4294967296", "1x", "0x10"] {
        let fen = format!("k1K5/8/8/8/8/8/8/8 w - - {} 1", bad);
        assert!(matches!(str::parse::<Board>(&fen), Err(FenError::InvalidClock)), "{}", bad);
    }
}

#[test]
fn fields_may_be_separated_by_any_white_space() {
    let b = board("k1K5/8/8/8/8/8/8/8\tb\u{a0}-\n- 3\u{3000}5");
    assert_eq!(b.to_move, Color::Black);
    assert_eq!(b.halfsteps, 3);
    assert_eq!(b.fullsteps, 5);
    assert!(matches!(str::parse::<Board>(""), Err(FenError::WrongFieldCount(0))));
}

#[test]
fn errors_come_in_the_order_of_the_fields() {
    assert!(matches!(
        str::parse::<Board>("8/8/8/8/8/8/8/8 x - - 0 0"),
        Err(FenError::InvalidBoardState)
    ));
    assert!(matches!(
        str::parse::<Board>("k1K5/8/8/8/8/8/8/8 x X - x x"),
        Err(FenError::InvalidToMove(_))
    ));
    assert!(matches!(
        str::parse::<Board>("k1K5/8/8/8/8/8/8/8 w X zz x x"),
        Err(FenError::InvalidCastlingRights(_))
    ));
    assert!(matches!(
        str::parse::<Board>("k1K5/8/8/8/8/8/8/8 w - zz x x"),
        Err(FenError::InvalidClock)
    ));
    assert!(matches!(
        str::parse::<Board>("k1K5/8/8/8/8/8/8/8 w - zz 0 0"),
        Err(FenError::InvalidEnPassant(s)) if s == "zz"
    ));
}

#[test]
fn the_default_board_is_the_parsed_start_position() {
    let d = Board::default();
    let p = board(START);
    assert_eq!(d.squares, p.squares);
    assert_eq!(d.pieces.all_pieces(), p.pieces.all_pieces());
    assert_eq!(d.castling_rights, p.castling_rights);
    assert_eq!(
        d.piece_at(&sq("e1")),
        Some(&Piece::new(PieceType::King, Color::White, sq("e1")))
    );
    assert_eq!(
        d.piece_at(&sq("d8")),
        Some(&Piece::new(PieceType::Queen, Color::Black, sq("d8")))
    );
}

#[test]
fn the_start_position_has_twenty_moves() {
    let b = Board::default();
    let moves = Move::generate_moves(&b);
    assert_eq!(moves.len(), 20);
    assert_eq!(Move::moves_of_type(&b, PieceType::Pawn).len(), 16);
    assert_eq!(Move::moves_of_type(&b, PieceType::Knight).len(), 4);
    assert_eq!(moves[0], Move::new(sq("a2"), sq("a3")));
    assert_eq!(moves[1], Move::new(sq("a2"), sq("a4")));
    assert_sound_moves(&b);
}

#[test]
fn generated_moves_are_sound() {
    for fen in [
        START,
        "k1K5/8/8/3pP3/8/8/8/8 w - d6 0 0",
        "k1K5/P7/8/8/8/8/8/8 w - - 0 0",
        "r3k2r/pppq1ppp/2n5/3pP3/8/2N5/PPP2PPP/R3K2R w KQkq d6 0 9",
        "4k3/8/8/8/8/8/p7/4K3 b - - 0 0",
    ] {
        assert_sound_moves(&board(fen));
    }
}

#[test]
fn an_en_passant_capture_is_generated() {
    let b = board("k1K5/8/8/3pP3/8/8/8/8 w - d6 0 0");
    let moves = Move::moves_of_type(&b, PieceType::Pawn);
    assert_eq!(
        moves,
        vec![
            Move::new(sq("e5"), sq("e6")),
            Move::en_passant(sq("e5"), sq("d6")),
        ]
    );
}

#[test]
fn a_pawn_reaching_the_last_rank_promotes() {
    let b = board("2k1K3/P7/8/8/8/8/8/8 w - - 0 0");
    let moves = Move::moves_of_type(&b, PieceType::Pawn);
    assert_eq!(moves, Move::all_promotions(sq("a7"), sq("a8")));
    assert_eq!(moves[0], Move::promotion(sq("a7"), sq("a8"), PieceType::Queen));
    assert_eq!(moves.len(), 4);
    let black = board("4k3/8/8/8/8/8/p7/4K3 b - - 0 0");
    assert_eq!(
        Move::moves_of_type(&black, PieceType::Pawn),
        Move::all_promotions(sq("a2"), sq("a1"))
    );
}

#[test]
fn move_constructors_set_their_kind() {
    let (a, b) = (sq("e1"), sq("g1"));
    assert_eq!(Move::castle(a, b).move_kind, MoveKind::Castle);
    assert_eq!(Move::with_kind(a, b, MoveKind::EnPassant), Move::en_passant(a, b));
    assert_eq!(Move::new(a, b).move_kind, MoveKind::Normal);
}

#[test]
fn moves_are_written_with_their_squares_and_kind() {
    assert_eq!(Move::new(sq("e2"), sq("e4")).notation(), "e2->e4");
    assert_eq!(Move::castle(sq("e1"), sq("g1")).notation(), "e1->g1 O-O");
    assert_eq!(Move::en_passant(sq("e5"), sq("d6")).notation(), "e5->d6 ep");
    assert_eq!(Move::promotion(sq("a7"), sq("a8"), PieceType::Knight).notation(), "a7->a8n");
    assert_eq!(Move::new(Square(0), Square(1234)).notation(), "?0->?1234");
}

#[test]
fn pieces_are_written_with_their_letter_and_square() {
    assert_eq!(Piece::new(PieceType::King, Color::White, sq("e1")).notation(), "Ke1");
    assert_eq!(Piece::new(PieceType::Knight, Color::Black, sq("g8")).notation(), "ng8");
}

#[test]
fn the_start_position_is_rendered_rank_by_rank() {
    let expected = "8 rnbqkbnr\n7 pppppppp\n6 ********\n5 ********\n4 ********\n3 ********\n2 PPPPPPPP\n1 RNBQKBNR\n  abcdefgh\n";
    assert_eq!(Board::default().render(), expected);
}

#[test]
fn squares_beyond_the_mailbox_are_never_attacked() {
    let b = board("k1K5/8/R7/8/8/8/8/8 w KQkq - 0 0");
    assert!(!Move::is_under_attack(&b, Square(500), Color::Black));
    assert!(!Move::is_under_attack(&b, Square(120), Color::Black));
    assert!(Move::is_under_attack(&b, sq("a1"), Color::Black));
    assert!(!Move::is_under_attack(&b, sq("a1"), Color::White));
}

#[test]
fn check_is_an_attack_on_the_king() {
    for fen in ["k1K5/8/R7/8/8/8/8/8 w KQkq - 0 0", START, "k7/8/8/8/8/8/3p4/4K3 w - - 0 0"] {
        let b = board(fen);
        for c in [Color::White, Color::Black] {
            let king = b
                .pieces
                .all_pieces()
                .into_iter()
                .find(|p| p.color == c && p.piece_type == PieceType::King)
                .unwrap();
            assert_eq!(Move::is_in_check(&b, c), Move::is_under_attack(&b, king.square, c));
        }
    }
}

#[test]
fn every_promoting_move_comes_with_all_four_pieces() {
    let b = board("4k3/1P4P1/8/8/8/8/8/4K3 w - - 0 1");
    let moves = Move::generate_moves(&b);
    let mut promotions = 0;
    for m in &moves {
        if let MoveKind::Promotion(_) = m.move_kind {
            promotions += 1;
            for pt in PieceType::promotions() {
                assert!(moves.contains(&Move::promotion(m.from, m.to, pt)), "{:?} {:?}", m, pt);
            }
        }
    }
    assert_eq!(promotions, 8);
}

#[test]
fn generated_moves_hold_no_move_twice() {
    let fens = [
        START,
        "r3k2r/p1ppqpb1/bn2pnp1/3PN3/1p2P3/2N2Q1p/PPPBBPPP/R3K2R w KQkq - 0 1",
        "4k3/8/8/3pP3/8/8/8/4K3 w - d6 0 1",
        "4k3/1P4P1/8/8/3Q4/8/8/4K3 w - - 0 1",
    ];
    for fen in fens {
        let moves = Move::generate_moves(&board(fen));
        for (i, a) in moves.iter().enumerate() {
            for b in &moves[i + 1..] {
                assert_ne!(a, b, "{}", fen);
            }
        }
    }
}

#[test]
fn a_lone_queen_in_the_centre_reaches_twenty_seven_squares() {
    let b = board("k7/8/8/8/3Q4/8/8/7K w - - 0 1");
    let queen_moves = Move::moves_of_type(&b, PieceType::Queen);
    assert_eq!(queen_moves.len(), 27);
    let rook_like = Move::moves_of_type(&board("k7/8/8/8/3R4/8/8/7K w - - 0 1"), PieceType::Rook);
    assert_eq!(rook_like.len(), 14);
}

#[test]
fn attacks_follow_the_geometry_of_the_pieces() {
    let b = board("4k3/8/8/8/1r1p4/8/2N5/4K3 w - - 0 1");
    // The knight on c2 strikes a1, a3, b4, d4, e3, e1.
    for name in ["a1", "a3", "b4", "d4", "e3", "e1"] {
        assert!(Move::is_under_attack(&b, sq(name), Color::Black), "{}", name);
    }
    // The black rook on b4 sees along its rank until the pawn on d4.
    assert!(Move::is_under_attack(&b, sq("c4"), Color::White));
    assert!(!Move::is_under_attack(&b, sq("e4"), Color::White));
    assert!(Move::is_under_attack(&b, sq("b1"), Color::White));
    // The black pawn on d4 strikes c3 and e3, not d3.
    assert!(Move::is_under_attack(&b, sq("c3"), Color::White));
    assert!(Move::is_under_attack(&b, sq("e3"), Color::White));
    assert!(!Move::is_under_attack(&b, sq("d3"), Color::White));
}

#[test]
fn offset_and_its_negation_give_the_square_back() {
    for s in playable() {
        for d in [-21isize, -11, -10, -9, -1, 1, 9, 10, 11, 21] {
            assert_eq!(s.offset(d).offset(-d), s);
        }
    }
}

#[test]
fn boards_read_from_fen_have_an_empty_en_passant_target() {
    let b = board("4k3/8/8/3pP3/8/8/8/4K3 w - d6 0 1");
    let target = b.en_passant_target.expect("a target");
    assert_eq!(b.classify_target(&target, b.to_move), Target::Empty);
    assert!(matches!(
        str::parse::<Board>("4k3/8/8/3pP3/8/8/8/4K3 w - d5 0 1"),
        Err(FenError::InvalidEnPassant(_))
    ));
}
