use apophthegm::board::{convert, find_move, Board, GpuBoard, StandardBoard};
use apophthegm::chess::{Location, Move};
use apophthegm::piece::{Piece, PieceType, Side};
use apophthegm::state::GameState;

#[test]
fn gpu_get_set() {
    let mut b = GpuBoard::new_empty();
    let piece = Piece::new(Side::White, PieceType::Bishop);
    b.set(Location::new(0, 0), Some(piece));
    assert_eq!(b.get(Location::new(0, 0)), Some(piece));
    b.set(Location::new(1, 0), Some(piece));
    assert_eq!(b.get(Location::new(1, 0)), Some(piece));
    b.set(Location::new(0, 0), None);
    assert_eq!(b.get(Location::new(0, 0)), None);
    assert_eq!(b.get(Location::new(1, 0)), Some(piece));
}

#[test]
fn find_move_normal() {
    let mut a = StandardBoard::new_empty();
    let mut b = StandardBoard::new_empty();
    let piece = Piece::new(Side::White, PieceType::Pawn);
    a.set(Location::new(0, 1), Some(piece));
    b.set(Location::new(0, 3), Some(piece));

    assert_eq!(
        find_move(&a, &b),
        Ok(Move(Location::new(0, 1), Location::new(0, 3), None))
    );
}

#[test]
fn find_move_last_rank() {
    // Make sure that the bot doesn't think that everything that moves to the last rank is doing a promotion
    let mut a = StandardBoard::new_empty();
    let mut b = StandardBoard::new_empty();
    let piece = Piece::new(Side::White, PieceType::Queen);
    a.set(Location::new(0, 6), Some(piece));
    b.set(Location::new(0, 7), Some(piece));

    assert_eq!(
        find_move(&a, &b),
        Ok(Move(Location::new(0, 6), Location::new(0, 7), None))
    );
}

#[test]
fn find_move_errors() {
    let a = StandardBoard::new_empty();
    let b = StandardBoard::new_empty();
    assert_eq!(find_move(&a, &b), Err("Couldn't find start"));

    let mut c = StandardBoard::new_empty();
    let piece = Piece::new(Side::Black, PieceType::Rook);
    c.set(Location::new(3, 3), Some(piece));
    assert_eq!(find_move(&c, &b), Err("Couldn't find end"));
}

#[test]
fn find_move_promotion() {
    let mut a = StandardBoard::new_empty();
    let mut b = StandardBoard::new_empty();
    a.set(Location::new(1, 6), Some(Piece::new(Side::White, PieceType::Pawn)));
    b.set(Location::new(1, 7), Some(Piece::new(Side::White, PieceType::Queen)));
    assert_eq!(
        find_move(&a, &b),
        Ok(Move(
            Location::new(1, 6),
            Location::new(1, 7),
            Some(PieceType::Queen)
        ))
    );
}

#[test]
fn board_valid() {
    fn check(str: &str, exp: bool) {
        let state = GameState::from_fen(str);
        assert_eq!(state.get_board().is_valid(state.to_move.opposite()), exp);
    }
    check("rnbqkbnr/pppppppp/8/8/8/8/PPPPPPPP/RNBQKBNR w KQkq - 0 1", true);
    // Not enough kings
    check("8/8/8/8/8/8/k7/8 w KQkq - 0 1", false);
    check("8/8/8/8/8/8/k7/8 b KQkq - 0 1", false);

    // White to move, and it should move out of check
    check("7k/2r5/8/8/8/2K5/8/8 w - - 0 1", true);
    // Black to move, and black can now capture the king which is illegal
    check("7k/2r5/8/8/8/2K5/8/8 b - - 0 1", false);

    check("8/5k2/8/2p5/1K6/8/8/8 b - - 0 1", false); // Black can capture with pawn
    check("8/5k2/8/8/1K3q2/8/8/8 b - - 0 1", false); // Black can capture with queen
    check("8/5k2/3q4/8/1K6/8/8/8 b - - 0 1", false); // Black can capture with queen
    check("8/5k2/3b4/8/1K6/8/8/8 b - - 0 1", false); // Black can capture with bishop
    check("8/5k2/8/8/1K3Q2/8/8/8 w - - 0 1", false); // White can capture with queen
    check("8/8/5k2/3N4/1K6/8/8/8 w - - 0 1", false); // White can capture with horse

    check("8/4P3/5k2/8/1K6/8/8/8 w - - 0 1", true); // White can *not* capture with pawn
    check("8/1kp3R1/8/8/8/8/8/7K w - - 0 1", true); // White can *not* capture with the rook, a black pawn is in the way
    check("8/1kP3R1/8/8/8/8/8/7K w - - 0 1", true); // White can *not* capture with the rook, a white pawn is in the way
}

#[test]
fn convert_round_trip() {
    let state = GameState::from_fen("rnbqkbnr/pppppppp/8/8/8/8/PPPPPPPP/RNBQKBNR w KQkq - 0 1");
    let gpu: GpuBoard = convert(&state.get_board());
    let back: StandardBoard = convert(&gpu);
    for i in 0..64u8 {
        let loc = Location::new(i / 8, i % 8);
        assert_eq!(state.get(loc), back.get(loc));
    }
}

#[test]
fn check_wf_spots_bad_nibbles() {
    let mut b = GpuBoard::new_empty();
    assert!(b.check_wf());
    b.set(Location::new(2, 5), Some(Piece::new(Side::White, PieceType::King)));
    assert!(b.check_wf());
    // Nibble 7 names no piece kind; nibble 8 would be a white piece of
    // kind zero.
    b.0[3] = 0x0000_0700;
    assert!(!b.check_wf());
    b.0[3] = 0x0000_0800;
    assert!(!b.check_wf());
    b.0[3] = 0;
    assert!(b.check_wf());
}

#[test]
fn gpu_board_equality_ignores_reserved_word() {
    let mut a = GpuBoard::new_empty();
    let b = GpuBoard::new_empty();
    a.0[8] = 7;
    assert!(a == b);
    assert_eq!(a.get_prev(), 7);
    assert_eq!(b.get_prev(), 0);
}
