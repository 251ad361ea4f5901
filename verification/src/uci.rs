//! The text control protocol: parsing the commands a search driver
//! receives on its input, and the session bookkeeping behind the lines it
//! prints back. Reading lines and printing stay in the driver; the
//! decisions live here.

use crate::chess::{EvalScore, Move};
use crate::piece::Side;
use crate::state::{
    fen_parse, play_allowed, play_ok, played, state_spec_of, try_from_fen_chars, GameState,
    StateSpec,
};
use vstd::prelude::*;

verus! {

/// An ASCII whitespace character, as the token splitter sees it.
pub open spec fn is_ws(c: char) -> bool {
    c == ' ' || c == '\t' || c == '\n' || c == '\r' || c == '\x0c'
}

/// The first non-whitespace index at or after `i`.
pub open spec fn skip_ws(s: Seq<char>, i: int) -> int
    decreases s.len() - i,
{
    if i < 0 || i >= s.len() {
        s.len() as int
    } else if is_ws(s[i]) {
        skip_ws(s, i + 1)
    } else {
        i
    }
}

/// The first whitespace index at or after `i` (the end of a token).
pub open spec fn ws_token_end(s: Seq<char>, i: int) -> int
    decreases s.len() - i,
{
    if i < 0 || i >= s.len() {
        s.len() as int
    } else if !is_ws(s[i]) {
        ws_token_end(s, i + 1)
    } else {
        i
    }
}

proof fn lemma_skip_ws_bounds(s: Seq<char>, i: int)
    requires
        0 <= i <= s.len(),
    ensures
        i <= skip_ws(s, i) <= s.len(),
        skip_ws(s, i) < s.len() ==> !is_ws(s[skip_ws(s, i)]),
    decreases s.len() - i,
{
    if i < s.len() && is_ws(s[i]) {
        lemma_skip_ws_bounds(s, i + 1);
    }
}

proof fn lemma_ws_token_end_bounds(s: Seq<char>, i: int)
    requires
        0 <= i <= s.len(),
    ensures
        i <= ws_token_end(s, i) <= s.len(),
    decreases s.len() - i,
{
    if i < s.len() && !is_ws(s[i]) {
        lemma_ws_token_end_bounds(s, i + 1);
    }
}

/// The whitespace-separated tokens of `s`, from index `i` on: runs of
/// whitespace separate tokens and are dropped, as the driver's line
/// splitter does.
pub open spec fn split_ws(s: Seq<char>, i: int) -> Seq<Seq<char>>
    decreases s.len() - i,
    when 0 <= i <= s.len()
    via split_ws_decreases
{
    let j = skip_ws(s, i);
    if j >= s.len() {
        Seq::empty()
    } else {
        seq![s.subrange(j, ws_token_end(s, j))] + split_ws(s, ws_token_end(s, j))
    }
}

#[via_fn]
proof fn split_ws_decreases(s: Seq<char>, i: int) {
    lemma_skip_ws_bounds(s, i);
    let j = skip_ws(s, i);
    if j < s.len() {
        lemma_ws_token_end_bounds(s, j);
        assert(!is_ws(s[j]));
        assert(ws_token_end(s, j) == ws_token_end(s, j + 1));
        lemma_ws_token_end_bounds(s, j + 1);
    }
}

/// Split a line into its whitespace-separated tokens.
pub fn tokenize(line: &Vec<char>) -> (tokens: Vec<Vec<char>>)
    ensures
        tokens@.map_values(|t: Vec<char>| t@) == split_ws(line@, 0),
{
    let ghost s = line@;
    let n = line.len();
    let mut tokens: Vec<Vec<char>> = Vec::new();
    let mut i: usize = 0;
    while i < n
        invariant
            i <= n,
            n == s.len(),
            s == line@,
            split_ws(s, 0) == tokens@.map_values(|t: Vec<char>| t@) + split_ws(s, i as int),
        decreases n - i,
    {
        if is_ws_exec(line[i]) {
            proof {
                assert(skip_ws(s, i as int) == skip_ws(s, i + 1));
            }
            i = i + 1;
        } else {
            let start = i;
            let mut tok: Vec<char> = Vec::new();
            while i < n && !is_ws_exec(line[i])
                invariant
                    start <= i <= n,
                    n == s.len(),
                    s == line@,
                    !is_ws(s[start as int]),
                    ws_token_end(s, start as int) == ws_token_end(s, i as int),
                    tok@ == s.subrange(start as int, i as int),
                decreases n - i,
            {
                tok.push(line[i]);
                proof {
                    assert(tok@ =~= s.subrange(start as int, i + 1));
                }
                i = i + 1;
            }
            proof {
                assert(ws_token_end(s, i as int) == i as int);
                assert(skip_ws(s, start as int) == start as int);
                assert(tok@ == s.subrange(start as int, ws_token_end(s, start as int)));
                assert(split_ws(s, start as int) == seq![tok@] + split_ws(s, i as int));
            }
            tokens.push(tok);
            proof {
                assert(tokens@.map_values(|t: Vec<char>| t@) =~= map_views_snoc(
                    tokens@,
                    tok,
                ));
            }
        }
    }
    proof {
        assert(split_ws(s, n as int) =~= Seq::<Seq<char>>::empty());
        assert(split_ws(s, 0) =~= tokens@.map_values(|t: Vec<char>| t@));
    }
    tokens
}

/// The views of a token list whose last element was just pushed.
spec fn map_views_snoc(tokens: Seq<Vec<char>>, tok: Vec<char>) -> Seq<Seq<char>> {
    tokens.drop_last().map_values(|t: Vec<char>| t@).push(tok@)
}

/// Whether a character is ASCII whitespace.
fn is_ws_exec(c: char) -> (b: bool)
    ensures
        b == is_ws(c),
{
    c == ' ' || c == '\t' || c == '\n' || c == '\r' || c == '\x0c'
}

/// A parsed control command, at the specification level: `Position`
/// carries the resulting state's mathematical content.
pub enum CommandSpec {
    Uci,
    Position(StateSpec),
    Go,
    Stop,
    IsReady,
    Other,
    /// Input the driver must treat as a caller error.
    Invalid,
}

/// The tokens of the standard starting position's FEN record.
pub open spec fn startpos_fen() -> Seq<char> {
    "rnbqkbnr/pppppppp/8/8/8/8/PPPPPPPP/RNBQKBNR w KQkq - 0 1"@
}

/// Join tokens `i..end` with single spaces.
pub open spec fn join_tokens(toks: Seq<Seq<char>>, i: int, end: int) -> Seq<char>
    decreases end - i,
{
    if i < 0 || i >= end || i >= toks.len() {
        Seq::empty()
    } else if i + 1 >= end || i + 1 >= toks.len() {
        toks[i]
    } else {
        toks[i] + seq![' '] + join_tokens(toks, i + 1, end)
    }
}

/// Apply the move tokens from `i` on to a state; `None` where a token is
/// not a move or a move cannot be applied.
pub open spec fn apply_moves(f: StateSpec, toks: Seq<Seq<char>>, i: int) -> Option<StateSpec>
    decreases toks.len() - i,
{
    if i < 0 || i >= toks.len() {
        Some(f)
    } else if !Move::notation_ok(toks[i]) {
        None
    } else {
        let m = Move::parsed(toks[i]);
        if !play_ok(f, m) {
            None
        } else {
            apply_moves(played(f, m), toks, i + 1)
        }
    }
}

/// The state a `position` command denotes: `startpos` or six joined FEN
/// fields, then optionally `moves` and a list of moves to apply.
pub open spec fn position_spec(toks: Seq<Seq<char>>) -> Option<StateSpec> {
    if toks.len() < 2 {
        None
    } else {
        let (fen, rest) = if toks[1] == "startpos"@ {
            (startpos_fen(), 2int)
        } else {
            (join_tokens(toks, 2, 8), if toks.len() < 8 {
                toks.len() as int
            } else {
                8int
            })
        };
        match fen_parse(fen) {
            None => None,
            Some(f) => {
                if rest < toks.len() {
                    if toks[rest] == "moves"@ {
                        apply_moves(f, toks, rest + 1)
                    } else {
                        Some(f)
                    }
                } else {
                    Some(f)
                }
            },
        }
    }
}

/// Whether a `go` command carries a subcommand the engine refuses.
pub open spec fn go_refused(toks: Seq<Seq<char>>) -> bool {
    exists|i: int|
        1 <= i < toks.len() && ((#[trigger] toks[i]) == "ponder"@ || toks[i] == "searchmoves"@
            || toks[i] == "depth"@ || toks[i] == "nodes"@ || toks[i] == "mate"@)
}

/// The command a token list denotes.
pub open spec fn command_spec(toks: Seq<Seq<char>>) -> CommandSpec {
    if toks.len() == 0 {
        CommandSpec::Other
    } else if toks[0] == "uci"@ {
        CommandSpec::Uci
    } else if toks[0] == "position"@ {
        match position_spec(toks) {
            Some(f) => CommandSpec::Position(f),
            None => CommandSpec::Invalid,
        }
    } else if toks[0] == "go"@ {
        if go_refused(toks) {
            CommandSpec::Invalid
        } else {
            CommandSpec::Go
        }
    } else if toks[0] == "stop"@ {
        CommandSpec::Stop
    } else if toks[0] == "isready"@ {
        CommandSpec::IsReady
    } else {
        CommandSpec::Other
    }
}

/// A parsed control command.
pub enum UciCommand {
    Uci,
    Position(GameState),
    Go,
    Stop,
    IsReady,
    Other,
}

/// Whether a token equals a pattern string.
fn token_eq_str(t: &Vec<char>, pat: &str) -> (b: bool)
    ensures
        b == (t@ == pat@),
{
    let n = pat.unicode_len();
    if t.len() != n {
        proof {
            assert(t@ != pat@);
        }
        return false;
    }
    let mut i: usize = 0;
    while i < n
        invariant
            i <= n,
            n == pat@.len(),
            t@.len() == n,
            forall|k: int| 0 <= k < i ==> t@[k] == pat@[k],
        decreases n - i,
    {
        if t[i] != pat.get_char(i) {
            proof {
                assert(t@ != pat@);
            }
            return false;
        }
        i = i + 1;
    }
    proof {
        assert(t@ =~= pat@);
    }
    true
}

/// Parse one input line into a command; `None` is input the driver
/// must treat as a caller error (a malformed `position`, or a `go`
/// with a refused subcommand).
pub fn parse_uci_command(line: &Vec<char>) -> (r: Option<UciCommand>)
    ensures
        match command_spec(split_ws(line@, 0)) {
            CommandSpec::Uci => r == Some(UciCommand::Uci),
            CommandSpec::Position(f) => (r matches Some(c) && c matches UciCommand::Position(st)
                && state_spec_of(st) == f && st.wf()),
            CommandSpec::Go => r == Some(UciCommand::Go),
            CommandSpec::Stop => r == Some(UciCommand::Stop),
            CommandSpec::IsReady => r == Some(UciCommand::IsReady),
            CommandSpec::Other => r == Some(UciCommand::Other),
            CommandSpec::Invalid => r is None,
        },
{
    let tokens = tokenize(line);
    let ghost toks = tokens@.map_values(|t: Vec<char>| t@);
    if tokens.len() == 0 {
        return Some(UciCommand::Other);
    }
    proof {
        assert(toks[0] == tokens@[0]@);
    }
    if token_eq_str(&tokens[0], "uci") {
        Some(UciCommand::Uci)
    } else if token_eq_str(&tokens[0], "position") {
        match parse_position(&tokens) {
            Some(st) => Some(UciCommand::Position(st)),
            None => None,
        }
    } else if token_eq_str(&tokens[0], "go") {
        let mut i: usize = 1;
        while i < tokens.len()
            invariant
                1 <= i <= tokens@.len(),
                toks == tokens@.map_values(|t: Vec<char>| t@),
                toks == split_ws(line@, 0),
                toks.len() == tokens@.len(),
                toks.len() > 0,
                !(toks[0] == "uci"@),
                !(toks[0] == "position"@),
                toks[0] == "go"@,
                forall|k: int|
                    1 <= k < i ==> !((#[trigger] toks[k]) == "ponder"@ || toks[k]
                        == "searchmoves"@ || toks[k] == "depth"@ || toks[k] == "nodes"@
                        || toks[k] == "mate"@),
            decreases tokens@.len() - i,
        {
            proof {
                assert(toks[i as int] == tokens@[i as int]@);
            }
            if token_eq_str(&tokens[i], "ponder") || token_eq_str(&tokens[i], "searchmoves")
                || token_eq_str(&tokens[i], "depth") || token_eq_str(&tokens[i], "nodes")
                || token_eq_str(&tokens[i], "mate") {
                return None;
            }
            i = i + 1;
        }
        Some(UciCommand::Go)
    } else if token_eq_str(&tokens[0], "stop") {
        Some(UciCommand::Stop)
    } else if token_eq_str(&tokens[0], "isready") {
        Some(UciCommand::IsReady)
    } else {
        Some(UciCommand::Other)
    }
}

/// Build the state a `position` command names.
fn parse_position(tokens: &Vec<Vec<char>>) -> (r: Option<GameState>)
    ensures
        match position_spec(tokens@.map_values(|t: Vec<char>| t@)) {
            Some(f) => (r matches Some(st) && state_spec_of(st) == f && st.wf()),
            None => r is None,
        },
{
    let ghost toks = tokens@.map_values(|t: Vec<char>| t@);
    if tokens.len() < 2 {
        return None;
    }
    proof {
        assert(toks[1] == tokens@[1]@);
    }
    let (fen, rest): (Vec<char>, usize) = if token_eq_str(&tokens[1], "startpos") {
        let v = crate::state::chars_of("rnbqkbnr/pppppppp/8/8/8/8/PPPPPPPP/RNBQKBNR w KQkq - 0 1");
        proof {
            assert(v@ == startpos_fen());
        }
        (v, 2)
    } else {
        let end = if tokens.len() < 8 {
            tokens.len()
        } else {
            8
        };
        let mut v: Vec<char> = Vec::new();
        let mut i: usize = 2;
        proof {
            assert(join_tokens(toks, 2, 8) =~= Seq::<char>::empty() + join_tokens(toks, 2, 8));
        }
        while i < end
            invariant
                2 <= i <= end,
                end == (if toks.len() < 8 {
                    toks.len() as int
                } else {
                    8int
                }),
                toks == tokens@.map_values(|t: Vec<char>| t@),
                join_tokens(toks, 2, 8) == v@ + join_tokens(toks, i as int, 8),
            decreases end - i,
        {
            proof {
                assert(toks[i as int] == tokens@[i as int]@);
            }
            let t = &tokens[i];
            let mut k: usize = 0;
            let ghost vpre = v@;
            while k < t.len()
                invariant
                    k <= t@.len(),
                    t@ == toks[i as int],
                    v@ == vpre + t@.subrange(0, k as int),
                decreases t@.len() - k,
            {
                v.push(t[k]);
                proof {
                    assert(v@ =~= vpre + t@.subrange(0, k + 1));
                }
                k = k + 1;
            }
            proof {
                assert(t@.subrange(0, t@.len() as int) =~= t@);
            }
            if i + 1 < end {
                v.push(' ');
                proof {
                    assert(v@ =~= vpre + toks[i as int] + seq![' ']);
                    assert(join_tokens(toks, i as int, 8) == toks[i as int] + seq![' ']
                        + join_tokens(toks, i + 1, 8));
                    assert(join_tokens(toks, 2, 8) =~= v@ + join_tokens(toks, i + 1, 8));
                }
            } else {
                proof {
                    assert(v@ =~= vpre + toks[i as int]);
                    assert(join_tokens(toks, i as int, 8) == toks[i as int]);
                    assert(join_tokens(toks, i + 1, 8) =~= Seq::<char>::empty());
                    assert(join_tokens(toks, 2, 8) =~= v@ + join_tokens(toks, i + 1, 8));
                }
            }
            i = i + 1;
        }
        proof {
            if toks.len() <= 2 {
                assert(join_tokens(toks, 2, 8) =~= Seq::<char>::empty());
            }
            assert(join_tokens(toks, i as int, 8) =~= Seq::<char>::empty());
            assert(v@ =~= join_tokens(toks, 2, 8));
        }
        (v, end)
    };
    let mut state = match try_from_fen_chars(&fen) {
        Some(st) => st,
        None => {
            return None;
        },
    };
    let mut idx = rest;
    if idx < tokens.len() {
        proof {
            assert(toks[idx as int] == tokens@[idx as int]@);
        }
        if token_eq_str(&tokens[idx], "moves") {
            idx = idx + 1;
            let ghost f0 = state_spec_of(state);
            proof {
                assert(apply_moves(f0, toks, rest as int + 1) == apply_moves(
                    state_spec_of(state),
                    toks,
                    idx as int,
                ));
                assert(position_spec(toks) == apply_moves(f0, toks, rest as int + 1));
            }
            while idx < tokens.len()
                invariant
                    idx <= tokens@.len(),
                    toks == tokens@.map_values(|t: Vec<char>| t@),
                    toks.len() == tokens@.len(),
                    state.wf(),
                    apply_moves(f0, toks, rest as int + 1) == apply_moves(
                        state_spec_of(state),
                        toks,
                        idx as int,
                    ),
                    position_spec(toks) == apply_moves(f0, toks, rest as int + 1),
                decreases tokens@.len() - idx,
            {
                proof {
                    assert(toks[idx as int] == tokens@[idx as int]@);
                }
                if !Move::check_notation(&tokens[idx]) {
                    return None;
                }
                let m = Move::from_chars(&tokens[idx]);
                if !play_allowed(&state, m) {
                    return None;
                }
                state.play(m);
                idx = idx + 1;
            }
        }
    }
    Some(state)
}


/// One search session's bookkeeping behind the driver's output lines:
/// what has been reported, and whether the session was stopped.
#[derive(Clone, Copy, PartialEq, Eq, Structural, Debug)]
pub struct UciEvalSession {
    pub to_move: Side,
    pub stopped: bool,
    pub depth: u16,
    pub nodes: u64,
    pub best: Option<Move>,
}

/// One `info score ...` line the driver owes after a new best move.
#[derive(Clone, Copy, PartialEq, Eq, Structural, Debug)]
pub struct InfoReport {
    /// The score in centipawns, relative to the side to move.
    pub cp: i64,
    pub depth: u16,
    pub nodes: u64,
    pub best: Move,
}

impl UciEvalSession {
    pub fn new(to_move: Side) -> (r: Self)
        ensures
            r == (UciEvalSession { to_move, stopped: false, depth: 0, nodes: 0, best: None }),
    {
        UciEvalSession { to_move, stopped: false, depth: 0, nodes: 0, best: None }
    }

    /// Record a new best move. A stopped session ignores it; otherwise
    /// the returned report carries what the driver prints, with the score
    /// relative to the searching side.
    pub fn set_best(&mut self, m: Move, score: EvalScore) -> (emit: Option<InfoReport>)
        ensures
            old(self).stopped ==> emit is None && *final(self) == *old(self),
            !old(self).stopped ==> *final(self) == (UciEvalSession {
                best: Some(m),
                ..*old(self)
            }) && emit == Some(
                InfoReport {
                    cp: (if old(self).to_move is White {
                        score.0 as int
                    } else {
                        -(score.0 as int)
                    }) as i64,
                    depth: old(self).depth,
                    nodes: old(self).nodes,
                    best: m,
                },
            ),
    {
        if self.is_stopped() {
            return None;
        }
        self.best = Some(m);
        Some(
            InfoReport {
                cp: score.centipawn_relative(self.to_move),
                depth: self.depth,
                nodes: self.nodes,
                best: m,
            },
        )
    }

    /// Record a deeper ply and more visited nodes; the returned pair is
    /// what the driver prints (the reported depth, and the new node
    /// total, which wraps like the shared counter it stands for).
    pub fn report_depth_and_nodes(&mut self, depth: u16, nodes: u64) -> (r: (u16, u64))
        ensures
            final(self).depth == (if depth > old(self).depth {
                depth
            } else {
                old(self).depth
            }),
            final(self).nodes == (old(self).nodes + nodes) % 0x1_0000_0000_0000_0000,
            final(self).to_move == old(self).to_move,
            final(self).stopped == old(self).stopped,
            final(self).best == old(self).best,
            r.0 == depth,
            r.1 == final(self).nodes,
    {
        if depth > self.depth {
            self.depth = depth;
        }
        let room = u64::MAX - self.nodes;
        let new_nodes = if nodes <= room {
            self.nodes + nodes
        } else {
            nodes - room - 1
        };
        proof {
            let total = old(self).nodes + nodes;
            if nodes <= room {
                vstd::arithmetic::div_mod::lemma_small_mod(
                    total as nat,
                    0x1_0000_0000_0000_0000,
                );
            } else {
                assert(total == 0x1_0000_0000_0000_0000 + (nodes - room - 1));
                vstd::arithmetic::div_mod::lemma_mod_add_multiples_vanish(
                    nodes - room - 1,
                    0x1_0000_0000_0000_0000,
                );
                vstd::arithmetic::div_mod::lemma_small_mod(
                    (nodes - room - 1) as nat,
                    0x1_0000_0000_0000_0000,
                );
            }
        }
        self.nodes = new_nodes;
        (depth, new_nodes)
    }

    /// Stop the session: the first stop returns the best move to report
    /// (`None` inside means no best move was ever set and the driver
    /// reports a null move); a second stop does nothing.
    pub fn stop(&mut self) -> (emit: Option<Option<Move>>)
        ensures
            old(self).stopped ==> emit is None && *final(self) == *old(self),
            !old(self).stopped ==> *final(self) == (UciEvalSession {
                stopped: true,
                ..*old(self)
            }) && emit == Some(old(self).best),
    {
        if self.is_stopped() {
            return None;
        }
        self.stopped = true;
        Some(self.best)
    }

    pub fn is_stopped(&self) -> (r: bool)
        ensures
            r == self.stopped,
    {
        self.stopped
    }
}

} // verus!
