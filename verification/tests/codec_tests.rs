use apophthegm::board::{convert, Board, GpuBoard};
use apophthegm::chess::{EvalScore, Location};
use apophthegm::codec::{decode_boards, decode_evals, encode_boards};
use apophthegm::piece::{Piece, PieceType, Side};
use apophthegm::state::GameState;

#[test]
fn board_bytes_round_trip() {
    let start: GpuBoard = convert(
        &GameState::from_fen("rnbqkbnr/pppppppp/8/8/8/8/PPPPPPPP/RNBQKBNR w KQkq - 0 1")
            .get_board(),
    );
    let mut sparse = GpuBoard::new_empty();
    sparse.set(Location::new(7, 7), Some(Piece::new(Side::Black, PieceType::Horsy)));
    let boards = vec![start, sparse];
    let bytes = encode_boards(&boards);
    assert_eq!(bytes.len(), 72);
    let back = decode_boards(&bytes);
    assert_eq!(back.len(), 2);
    for k in 0..2 {
        for w in 0..9 {
            assert_eq!(back[k].0[w], boards[k].0[w]);
        }
    }
}

#[test]
fn board_encoding_is_little_endian_nibbles() {
    let mut b = GpuBoard::new_empty();
    // A white bishop on a1: nibble 0xB (side bit 8 | bishop 3) in the low
    // nibble of row word 0.
    b.set(Location::new(0, 0), Some(Piece::new(Side::White, PieceType::Bishop)));
    let bytes = encode_boards(&vec![b]);
    assert_eq!(bytes[0], 0x0B);
    for i in 1..36 {
        assert_eq!(bytes[i], 0);
    }
}

#[test]
fn eval_bytes_undo_the_sign_flip() {
    // Device words carry the score with the sign bit flipped.
    let bytes = vec![
        0x00, 0x00, 0x00, 0x80, // 0
        0x32, 0x00, 0x00, 0x80, // 50
        0xce, 0xff, 0xff, 0x7f, // -50
    ];
    let evals = decode_evals(&bytes);
    assert_eq!(evals, vec![EvalScore::from(0), EvalScore::from(50), EvalScore::from(-50)]);
}

#[test]
fn device_word_round_trip_and_order() {
    let samples = [0i32, 50, -50, i32::MAX, i32::MIN, 123456789, -987654321];
    for &v in samples.iter() {
        let e = EvalScore::from(v);
        assert_eq!(EvalScore::from_device_word(e.device_word()), e);
    }
    // Unsigned comparison of device words matches signed comparison of
    // the scores they carry.
    for &a in samples.iter() {
        for &b in samples.iter() {
            assert_eq!(
                EvalScore::from(a).device_word() < EvalScore::from(b).device_word(),
                a < b
            );
        }
    }
}
