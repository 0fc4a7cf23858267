use std::collections::HashMap;

use chess_board::{Color, Piece, PieceType, Square};

#[test]
fn next_returns_the_opposite_color() {
    assert_eq!(Color::White.next(), Color::Black);
    assert_eq!(Color::Black.next(), Color::White);
}

#[test]
fn all_returns_all_piece_types() {
    assert_eq!(
        PieceType::all(),
        [
            PieceType::Pawn,
            PieceType::Rook,
            PieceType::Knight,
            PieceType::Bishop,
            PieceType::King,
            PieceType::Queen,
        ]
    )
}

#[test]
fn from_algebraic_with_valid_algebraic_returns_valid_index() {
    assert_eq!(Square::from_algebraic("a1"), Some(Square(21)));
    assert_eq!(Square::from_algebraic("h8"), Some(Square(98)));
}

#[test]
fn from_algebraic_with_invalid_algebraic_returns_none() {
    assert_eq!(Square::from_algebraic("a9"), None);
    assert_eq!(Square::from_algebraic("z1"), None);
    assert_eq!(Square::from_algebraic("z12"), None);
}

#[test]
fn as_algebraic_with_valid_index_returns_valid_algebraic() {
    assert_eq!(Square::as_algebraic(&Square(21)), Some("a1".into()));
    assert_eq!(Square::as_algebraic(&Square(98)), Some("h8".into()));
}

#[test]
fn as_algebraic_with_invalid_index_returns_none() {
    assert_eq!(Square::as_algebraic(&Square(20)), None);
    assert_eq!(Square::as_algebraic(&Square(100)), None);
}

#[test]
fn translating_from_and_back_as_algebraic_is_identity() {
    let alg = "f5";
    assert_eq!(
        Square::as_algebraic(&Square::from_algebraic(alg).unwrap()),
        Some(alg.into())
    );
}

#[test]
fn as_symbol_symbolises_properly() {
    let mapping = HashMap::from([
        (PieceType::Pawn, 'p'),
        (PieceType::Rook, 'r'),
        (PieceType::Knight, 'n'),
        (PieceType::Bishop, 'b'),
        (PieceType::Queen, 'q'),
        (PieceType::King, 'k'),
    ]);

    for (piece_type, symbol) in mapping {
        let piece = Piece::new(piece_type, Color::Black, Square(0));

        assert_eq!(piece.as_symbol(), symbol);
    }
}

#[test]
fn as_symbol_respects_color() {
    let white_piece = Piece::new(PieceType::Pawn, Color::White, Square(0));
    assert_eq!(white_piece.as_symbol(), 'P'); // uppercase for white

    let black_piece = Piece::new(PieceType::Pawn, Color::Black, Square(0));
    assert_eq!(black_piece.as_symbol(), 'p'); // lowercase for black
}

#[test]
fn white_returns_all_white_pieces() {
    // TODO: Fill it (and create one for black) using the new FEN parsing
}
