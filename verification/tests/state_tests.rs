use apophthegm::chess::Move;
use apophthegm::state::{try_from_fen, GameState};

#[test]
fn play_normal_move() {
    let mut state = GameState::from_fen("8/8/8/8/8/8/1K5k/8 w - - 0 1");
    state.play(Move::from_str("b2c2"));
    assert_eq!(state, GameState::from_fen("8/8/8/8/8/8/2K4k/8 b - - 0 1"));
}

#[test]
fn play_promotion() {
    let mut state = GameState::from_fen("8/1P6/8/8/8/8/5K1k/8 w - - 0 1");
    state.play(Move::from_str("b7b8N"));
    assert_eq!(state, GameState::from_fen("1N6/8/8/8/8/8/5K1k/8 b - - 0 1"));
}

#[test]
fn play_promotion2() {
    let mut state = GameState::from_fen("8/1P6/8/8/8/8/5K1k/8 w - - 0 1");
    state.play(Move::from_str("b7b8Q"));
    assert_eq!(state, GameState::from_fen("1Q6/8/8/8/8/8/5K1k/8 b - - 0 1"));
}

#[test]
fn play_castle_white_short() {
    let mut state =
        GameState::from_fen("rnbqk2r/pppp1ppp/7n/4p3/1b2P3/3B1N2/PPPP1PPP/RNBQK2R w KQkq - 0 1");
    state.play(Move::from_str("e1g1"));
    assert_eq!(
        state,
        GameState::from_fen("rnbqk2r/pppp1ppp/7n/4p3/1b2P3/3B1N2/PPPP1PPP/RNBQ1RK1 b Qkq - 0 1")
    );
}

#[test]
fn play_castle_black_short() {
    let mut state =
        GameState::from_fen("rnbqk2r/pppp1ppp/7n/4p3/1b2P3/3B1N2/PPPP1PPP/RNBQK2R b KQkq - 0 1");
    state.play(Move::from_str("e8g8"));
    assert_eq!(
        state,
        GameState::from_fen("rnbq1rk1/pppp1ppp/7n/4p3/1b2P3/3B1N2/PPPP1PPP/RNBQK2R w KQq - 0 1")
    );
}

#[test]
fn play_castle_white_long() {
    let mut state =
        GameState::from_fen("r3kbnr/ppp1qppp/n2p4/4p3/4P1Q1/2NPB3/PPP2PPP/R3KBNR w KQkq - 0 1");
    state.play(Move::from_str("e1c1"));
    assert_eq!(
        state,
        GameState::from_fen("r3kbnr/ppp1qppp/n2p4/4p3/4P1Q1/2NPB3/PPP2PPP/2KR1BNR b Kkq - 0 1")
    );
}

#[test]
fn play_castle_black_long() {
    let mut state =
        GameState::from_fen("r3kbnr/ppp1qppp/n2p4/4p3/4P1Q1/2NPB3/PPP2PPP/2KR1BNR b Kkq - 0 1");
    state.play(Move::from_str("e8c8"));
    assert_eq!(
        state,
        GameState::from_fen("2kr1bnr/ppp1qppp/n2p4/4p3/4P1Q1/2NPB3/PPP2PPP/2KR1BNR w Kk - 0 1")
    );
}

#[test]
fn play_en_passant() {
    let mut state = GameState::from_fen("8/8/8/8/2p5/8/1P3K1k/8 w - - 0 1");
    state.play(Move::from_str("b2b4"));
    assert_eq!(state, GameState::from_fen("8/8/8/8/1Pp5/8/5K1k/8 b - b3 0 1"));
    state.play(Move::from_str("c4b3"));
    assert_eq!(state, GameState::from_fen("8/8/8/8/8/1p6/5K1k/8 w - - 0 2"));
}

#[test]
fn fen_rejects_bad_records() {
    // A ninth rank, a bad side letter, an off-board en-passant square.
    assert!(try_from_fen("8/8/8/8/8/8/8/8/8 w - - 0 1").is_none());
    assert!(try_from_fen("8/8/8/8/8/8/k7/8 x KQkq - 0 1").is_none());
    assert!(try_from_fen("8/8/8/8/8/8/k7/8 w - i9 0 1").is_none());
    assert!(try_from_fen("8/8/8/8/8/8/kX6/8 w - - 0 1").is_none());
    assert!(try_from_fen("8/8/8/8/8/8/8/9k w - - 0 1").is_none());
    // An oversized skip alone is tolerated, as long as no piece follows it.
    assert!(try_from_fen("9/8/8/8/8/8/8/k7 w - - 0 1").is_some());
}

#[test]
fn fen_reads_castling_and_en_passant() {
    let state = GameState::from_fen("rnbqkbnr/pppppppp/8/8/4P3/8/PPPP1PPP/RNBQKBNR b KQq e3 0 1");
    assert!(state.castles.white.kingside);
    assert!(state.castles.white.queenside);
    assert!(!state.castles.black.kingside);
    assert!(state.castles.black.queenside);
    let ep = state.en_passant_sq.unwrap();
    assert_eq!(ep.get_x(), 4);
    assert_eq!(ep.get_y(), 2);
}
