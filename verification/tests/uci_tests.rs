use apophthegm::chess::{EvalScore, Move};
use apophthegm::piece::Side;
use apophthegm::state::GameState;
use apophthegm::uci::{parse_uci_command, tokenize, UciCommand, UciEvalSession};

fn parse(line: &str) -> Option<UciCommand> {
    let chars: Vec<char> = line.chars().collect();
    parse_uci_command(&chars)
}

#[test]
fn tokenize_splits_on_whitespace_runs() {
    let chars: Vec<char> = "  go \t infinite\n".chars().collect();
    let tokens = tokenize(&chars);
    assert_eq!(tokens.len(), 2);
    let words: Vec<String> = tokens.iter().map(|t| t.iter().collect()).collect();
    assert_eq!(words, vec!["go".to_string(), "infinite".to_string()]);
}

#[test]
fn parse_simple_commands() {
    assert!(matches!(parse("uci\n"), Some(UciCommand::Uci)));
    assert!(matches!(parse("isready\n"), Some(UciCommand::IsReady)));
    assert!(matches!(parse("stop\n"), Some(UciCommand::Stop)));
    assert!(matches!(parse("go infinite\n"), Some(UciCommand::Go)));
    assert!(matches!(parse("ucinewgame\n"), Some(UciCommand::Other)));
    assert!(matches!(parse("\n"), Some(UciCommand::Other)));
}

#[test]
fn parse_refused_go_subcommands() {
    assert!(parse("go ponder\n").is_none());
    assert!(parse("go searchmoves e2e4\n").is_none());
    assert!(parse("go depth 5\n").is_none());
    assert!(parse("go nodes 100\n").is_none());
    assert!(parse("go mate 2\n").is_none());
}

#[test]
fn parse_position_startpos() {
    let cmd = parse("position startpos\n").unwrap();
    match cmd {
        UciCommand::Position(state) => {
            assert_eq!(
                state,
                GameState::from_fen("rnbqkbnr/pppppppp/8/8/8/8/PPPPPPPP/RNBQKBNR w KQkq - 0 1")
            );
        }
        _ => panic!("expected a position"),
    }
}

#[test]
fn parse_position_with_moves() {
    let cmd = parse("position startpos moves e2e4 e7e5\n").unwrap();
    match cmd {
        UciCommand::Position(state) => {
            let mut expected =
                GameState::from_fen("rnbqkbnr/pppppppp/8/8/8/8/PPPPPPPP/RNBQKBNR w KQkq - 0 1");
            expected.play(Move::from_str("e2e4"));
            expected.play(Move::from_str("e7e5"));
            assert_eq!(state, expected);
        }
        _ => panic!("expected a position"),
    }
}

#[test]
fn parse_position_fen() {
    let cmd = parse("position fen 8/8/8/8/8/8/1K5k/8 w - - 0 1 moves b2c2\n").unwrap();
    match cmd {
        UciCommand::Position(state) => {
            assert_eq!(state, GameState::from_fen("8/8/8/8/8/8/2K4k/8 b - - 0 1"));
        }
        _ => panic!("expected a position"),
    }
}

#[test]
fn parse_position_rejects_bad_input() {
    assert!(parse("position\n").is_none());
    assert!(parse("position fen not a real fen at all x\n").is_none());
    assert!(parse("position startpos moves zz99\n").is_none());
}

#[test]
fn session_reports_and_stops() {
    let mut session = UciEvalSession::new(Side::Black);
    assert!(!session.is_stopped());
    let (depth, nodes) = session.report_depth_and_nodes(2, 30);
    assert_eq!((depth, nodes), (2, 30));
    let (depth, nodes) = session.report_depth_and_nodes(1, 10);
    assert_eq!((depth, nodes), (1, 40));
    assert_eq!(session.depth, 2);

    let m = Move::from_str("e7e5");
    let report = session.set_best(m, EvalScore::from(-50)).unwrap();
    // Relative to Black, a score of -50 is 50 centipawns in its favor.
    assert_eq!(report.cp, 50);
    assert_eq!(report.depth, 2);
    assert_eq!(report.nodes, 40);
    assert_eq!(report.best, m);

    let emitted = session.stop().unwrap();
    assert_eq!(emitted, Some(m));
    assert!(session.is_stopped());
    // A stopped session ignores everything further.
    assert!(session.stop().is_none());
    assert!(session.set_best(m, EvalScore::from(0)).is_none());
}

#[test]
fn session_reports_null_best_move() {
    let mut session = UciEvalSession::new(Side::White);
    let emitted = session.stop().unwrap();
    assert_eq!(emitted, None);
}
