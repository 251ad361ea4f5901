use apophthegm::buffers::AllocToken;
use apophthegm::chess::{EvalScore, Location, Move};
use apophthegm::gpu::{expansion_offsets, global_params_bytes, BuffOffsets};
use apophthegm::misc::{ceil_div, gcd, lcm};
use apophthegm::piece::{Piece, PieceType, Side};
use core::cmp::Ordering;

#[test]
fn arithmetic_helpers() {
    assert_eq!(gcd(36, 8), 4);
    assert_eq!(gcd(8, 36), 4);
    assert_eq!(gcd(7, 0), 7);
    assert_eq!(lcm(36, 8), 72);
    assert_eq!(lcm(4, 8), 8);
    assert_eq!(ceil_div(0, 64), 0);
    assert_eq!(ceil_div(1, 64), 1);
    assert_eq!(ceil_div(64, 64), 1);
    assert_eq!(ceil_div(65, 64), 2);
}

#[test]
fn locations_and_moves() {
    let l = Location::new(4, 1);
    assert_eq!(l.get_x(), 4);
    assert_eq!(l.get_y(), 1);
    assert_eq!(l.with_x(0).get_x(), 0);
    assert_eq!(l.with_y(3).get_y(), 3);
    assert_eq!(l.try_add(1, 1), Some(Location::new(5, 2)));
    assert_eq!(l.try_add(4, 0), None);
    assert_eq!(l.try_add(0, -2), None);
    assert_eq!(Location::all().len(), 64);

    let m = Move::from_str("e2e4");
    assert_eq!(m.0, Location::new(4, 1));
    assert_eq!(m.1, Location::new(4, 3));
    assert_eq!(m.2, None);
    let chars: String = m.uci_chars().iter().collect();
    assert_eq!(chars, "e2e4");

    let p = Move::from_str("b7b8Q");
    assert_eq!(p.2, Some(PieceType::Queen));
    let chars: String = p.uci_chars().iter().collect();
    assert_eq!(chars, "b7b8Q");
}

#[test]
fn pieces_and_nibbles() {
    let wq = Piece::from_fen_char('Q');
    assert_eq!(wq.side, Side::White);
    assert_eq!(wq.ty, PieceType::Queen);
    assert_eq!(wq.as_nibble(), 0x0A);
    let bp = Piece::from_fen_char('p');
    assert_eq!(bp.side, Side::Black);
    assert_eq!(bp.as_nibble(), 0x06);
    assert_eq!(bp.to_char(), 'p');
    assert_eq!(wq.to_char(), 'Q');
    assert_eq!(PieceType::from_triplet(5), PieceType::Horsy);
    assert_eq!(PieceType::Horsy.to_byte(), 5);
    assert_eq!(PieceType::Horsy.to_char(), 'N');
    assert_eq!(PieceType::from_char('n'), PieceType::Horsy);
    assert_eq!(Side::White.gpu_representation(), 8);
    assert_eq!(Side::Black.gpu_representation(), 0);
    assert_eq!(Side::White.opposite(), Side::Black);
}

#[test]
fn scores_compare_by_side() {
    let a = EvalScore::from(10);
    let b = EvalScore::from(-4);
    assert_eq!(EvalScore::better(&a, &b, Side::White), Ordering::Greater);
    assert_eq!(EvalScore::better(&a, &b, Side::Black), Ordering::Less);
    assert_eq!(EvalScore::better(&a, &a, Side::Black), Ordering::Equal);
    assert_eq!(EvalScore::worst(Side::White), EvalScore::from(i32::MIN));
    assert_eq!(EvalScore::worst(Side::Black), EvalScore::from(i32::MAX));
    assert_eq!(a.to_centipawn(), 10);
    assert_eq!(a.centipawn_relative(Side::White), 10);
    assert_eq!(a.centipawn_relative(Side::Black), -10);
}

#[test]
fn global_params_layout() {
    let input = AllocToken {
        buffer_index: 0,
        offset: 72,
        len: 1,
        len_elems: 2,
        len_bytes: 72,
    };
    let output = AllocToken {
        buffer_index: 0,
        offset: 144,
        len: 2,
        len_elems: 4,
        len_bytes: 144,
    };
    let offsets = expansion_offsets(&input, &output);
    assert_eq!(
        offsets,
        BuffOffsets {
            buf_offset_0: 2,
            buf_offset_1: 4,
            buf_offset_2: 0,
            buf_offset_3: 0,
        }
    );
    let bytes = global_params_bytes(300, Side::Black, 0, offsets);
    assert_eq!(bytes.len(), 28);
    assert_eq!(&bytes[0..4], &[44, 1, 0, 0]); // 300 little-endian
    assert_eq!(&bytes[4..8], &[0, 0, 0, 0]); // Black flag
    assert_eq!(&bytes[8..12], &[0, 0, 0, 0]); // move number
    assert_eq!(&bytes[12..16], &[2, 0, 0, 0]);
    assert_eq!(&bytes[16..20], &[4, 0, 0, 0]);
}
