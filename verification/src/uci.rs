use vstd::prelude::*;
use vstd::string::StringSliceAdditionalSpecFns;
use crate::board::Board;
use crate::board::fen::{byte_views, split_tokens, tokens};
use crate::board::notation::{parse_uint, spec_parse_uint};
use crate::board::rules::RulesEnum;
use crate::moves::algebraic::spec_parse_move;
use crate::moves::make_move::move_applicable;
use crate::moves::mv::Move;

verus! {

/// Whether the console keeps reading commands.
#[derive(Clone, Copy, Debug, PartialEq, Eq, Structural)]
pub enum UciRunState {
    Continue,
    Quit,
}

/// What a console command asks for. Where a command carries text (a network
/// path, a FEN, moves) the text stays in the command's tokens: the path is
/// token 4, a FEN is tokens 2 and 3, and the moves follow the `moves` token.
#[derive(Clone, Copy, Debug, PartialEq, Eq, Structural)]
pub enum UciCommand {
    /// An empty line or an unknown keyword.
    Unknown,
    Quit,
    Stop,
    IsReady,
    /// `uci`: name the engine and its options.
    Identify,
    SetNnFile,
    SetMultiPv(usize),
    InvalidMultiPv,
    SetVariant(RulesEnum),
    UnknownVariant,
    UnsupportedSetOption,
    PositionMissingArguments,
    /// The initial position; with `listed`, followed by the moves from token 3 on.
    StartPos { listed: bool },
    UnsupportedStartPos,
    /// The position of a FEN; with `listed`, followed by the moves from token 5 on.
    Fen { listed: bool },
    FenWithoutMoves,
    UnknownPosition,
    ShowBoard,
    GoMissingArguments,
    MovetimeMissing,
    InvalidMovetime,
    GoMovetime(u64),
    NodesMissing,
    InvalidNodes,
    GoNodes(u64),
    GoInfinite,
    UnknownGo,
}

/// Token `i` exists and is the word `w`.
pub open spec fn is_kw(t: Seq<Seq<u8>>, i: int, w: &str) -> bool {
    0 <= i < t.len() && t[i] == w.spec_bytes()
}

/// A count as the console reads it: the number, or `dflt` where the token is
/// not a number that fits.
pub open spec fn number_or(s: Seq<u8>, max: int, dflt: int) -> int {
    match spec_parse_uint(s, max) {
        Some(v) => v,
        None => dflt,
    }
}

pub open spec fn spec_setoption(t: Seq<Seq<u8>>) -> UciCommand {
    let named = t.len() >= 5 && is_kw(t, 1, "name") && is_kw(t, 3, "value");
    if named && is_kw(t, 2, "NNFile") {
        UciCommand::SetNnFile
    } else if named && is_kw(t, 2, "MultiPV") {
        let m = number_or(t[4], usize::MAX as int, 1);
        if m == 0 || m > 1000 {
            UciCommand::InvalidMultiPv
        } else {
            UciCommand::SetMultiPv(m as usize)
        }
    } else if named && is_kw(t, 2, "Variant") {
        if is_kw(t, 4, "copenhagen11x11") {
            UciCommand::SetVariant(RulesEnum::Copenhagen11x11)
        } else if is_kw(t, 4, "historical11x11") {
            UciCommand::SetVariant(RulesEnum::Historical11x11)
        } else {
            UciCommand::UnknownVariant
        }
    } else {
        UciCommand::UnsupportedSetOption
    }
}

pub open spec fn spec_position(t: Seq<Seq<u8>>) -> UciCommand {
    if t.len() < 2 {
        UciCommand::PositionMissingArguments
    } else if is_kw(t, 1, "startpos") {
        if t.len() == 2 {
            UciCommand::StartPos { listed: false }
        } else if is_kw(t, 2, "moves") {
            UciCommand::StartPos { listed: true }
        } else {
            UciCommand::UnsupportedStartPos
        }
    } else if is_kw(t, 1, "fen") {
        if t.len() < 5 {
            UciCommand::Fen { listed: false }
        } else if !is_kw(t, 4, "moves") {
            UciCommand::FenWithoutMoves
        } else {
            UciCommand::Fen { listed: true }
        }
    } else {
        UciCommand::UnknownPosition
    }
}

pub open spec fn spec_go(t: Seq<Seq<u8>>) -> UciCommand {
    if t.len() < 2 {
        UciCommand::GoMissingArguments
    } else if is_kw(t, 1, "movetime") {
        if t.len() < 3 {
            UciCommand::MovetimeMissing
        } else if number_or(t[2], u64::MAX as int, 0) == 0 {
            UciCommand::InvalidMovetime
        } else {
            UciCommand::GoMovetime(number_or(t[2], u64::MAX as int, 0) as u64)
        }
    } else if is_kw(t, 1, "nodes") {
        if t.len() < 3 {
            UciCommand::NodesMissing
        } else if number_or(t[2], u64::MAX as int, 0) == 0 {
            UciCommand::InvalidNodes
        } else {
            UciCommand::GoNodes(number_or(t[2], u64::MAX as int, 0) as u64)
        }
    } else if is_kw(t, 1, "infinite") {
        UciCommand::GoInfinite
    } else {
        UciCommand::UnknownGo
    }
}

/// The command a line's tokens ask for.
pub open spec fn spec_uci_command(t: Seq<Seq<u8>>) -> UciCommand {
    if t.len() == 0 {
        UciCommand::Unknown
    } else if is_kw(t, 0, "quit") {
        UciCommand::Quit
    } else if is_kw(t, 0, "stop") {
        UciCommand::Stop
    } else if is_kw(t, 0, "isready") {
        UciCommand::IsReady
    } else if is_kw(t, 0, "uci") {
        UciCommand::Identify
    } else if is_kw(t, 0, "setoption") {
        spec_setoption(t)
    } else if is_kw(t, 0, "position") {
        spec_position(t)
    } else if is_kw(t, 0, "board") {
        UciCommand::ShowBoard
    } else if is_kw(t, 0, "go") {
        spec_go(t)
    } else {
        UciCommand::Unknown
    }
}

/// `position fen` needs the FEN's two fields: a line that stops short of them
/// names no position at all.
pub open spec fn spec_fen_cut_short(t: Seq<Seq<u8>>) -> bool {
    is_kw(t, 0, "position") && is_kw(t, 1, "fen") && t.len() < 4
}

/// The whitespace-separated tokens of a console line.
pub fn uci_tokens(line: &str) -> (t: Vec<Vec<u8>>)
    ensures
        byte_views(t@) == tokens(line.spec_bytes()),
{
    let b = line.as_bytes();
    let t = split_tokens(b, 0, b.len());
    proof {
        assert(b@.subrange(0, b@.len() as int) =~= b@);
    }
    t
}

fn same_bytes(a: &[u8], b: &[u8]) -> (r: bool)
    ensures
        r == (a@ == b@),
{
    if a.len() != b.len() {
        return false;
    }
    let mut i: usize = 0;
    while i < a.len()
        invariant
            a@.len() == b@.len(),
            i <= a@.len(),
            forall|k: int| 0 <= k < i ==> a@[k] == b@[k],
        decreases a@.len() - i,
    {
        if a[i] != b[i] {
            return false;
        }
        i += 1;
    }
    proof {
        assert(a@ =~= b@);
    }
    true
}

fn token_is(t: &Vec<Vec<u8>>, i: usize, w: &str) -> (r: bool)
    ensures
        r == is_kw(byte_views(t@), i as int, w),
{
    if i >= t.len() {
        return false;
    }
    let r = same_bytes(t[i].as_slice(), w.as_bytes());
    proof {
        assert(byte_views(t@)[i as int] == t@[i as int]@);
    }
    r
}

fn read_number(t: &Vec<Vec<u8>>, i: usize, max: u64, dflt: u64) -> (r: u64)
    requires
        i < t@.len(),
    ensures
        r == number_or(byte_views(t@)[i as int], max as int, dflt as int),
{
    let s = t[i].as_slice();
    let r = match parse_uint(s, 0, s.len(), max) {
        Some(v) => v,
        None => dflt,
    };
    proof {
        assert(s@.subrange(0, s@.len() as int) =~= s@);
        assert(byte_views(t@)[i as int] == t@[i as int]@);
    }
    r
}

/// Whether a line's tokens are a `position fen` cut short of its two fields.
pub fn fen_cut_short(t: &Vec<Vec<u8>>) -> (r: bool)
    ensures
        r == spec_fen_cut_short(byte_views(t@)),
{
    token_is(t, 0, "position") && token_is(t, 1, "fen") && t.len() < 4
}

/// The command that a console line's tokens ask for.
pub fn uci_command(t: &Vec<Vec<u8>>) -> (c: UciCommand)
    ensures
        c == spec_uci_command(byte_views(t@)),
{
    let ghost v = byte_views(t@);
    if t.len() == 0 {
        UciCommand::Unknown
    } else if token_is(t, 0, "quit") {
        UciCommand::Quit
    } else if token_is(t, 0, "stop") {
        UciCommand::Stop
    } else if token_is(t, 0, "isready") {
        UciCommand::IsReady
    } else if token_is(t, 0, "uci") {
        UciCommand::Identify
    } else if token_is(t, 0, "setoption") {
        let named = t.len() >= 5 && token_is(t, 1, "name") && token_is(t, 3, "value");
        if named && token_is(t, 2, "NNFile") {
            UciCommand::SetNnFile
        } else if named && token_is(t, 2, "MultiPV") {
            let m = read_number(t, 4, usize::MAX as u64, 1);
            if m == 0 || m > 1000 {
                UciCommand::InvalidMultiPv
            } else {
                UciCommand::SetMultiPv(m as usize)
            }
        } else if named && token_is(t, 2, "Variant") {
            if token_is(t, 4, "copenhagen11x11") {
                UciCommand::SetVariant(RulesEnum::Copenhagen11x11)
            } else if token_is(t, 4, "historical11x11") {
                UciCommand::SetVariant(RulesEnum::Historical11x11)
            } else {
                UciCommand::UnknownVariant
            }
        } else {
            UciCommand::UnsupportedSetOption
        }
    } else if token_is(t, 0, "position") {
        if t.len() < 2 {
            UciCommand::PositionMissingArguments
        } else if token_is(t, 1, "startpos") {
            if t.len() == 2 {
                UciCommand::StartPos { listed: false }
            } else if token_is(t, 2, "moves") {
                UciCommand::StartPos { listed: true }
            } else {
                UciCommand::UnsupportedStartPos
            }
        } else if token_is(t, 1, "fen") {
            if t.len() < 5 {
                UciCommand::Fen { listed: false }
            } else if !token_is(t, 4, "moves") {
                UciCommand::FenWithoutMoves
            } else {
                UciCommand::Fen { listed: true }
            }
        } else {
            UciCommand::UnknownPosition
        }
    } else if token_is(t, 0, "board") {
        UciCommand::ShowBoard
    } else if token_is(t, 0, "go") {
        if t.len() < 2 {
            UciCommand::GoMissingArguments
        } else if token_is(t, 1, "movetime") {
            if t.len() < 3 {
                UciCommand::MovetimeMissing
            } else {
                let ms = read_number(t, 2, u64::MAX, 0);
                if ms == 0 {
                    UciCommand::InvalidMovetime
                } else {
                    UciCommand::GoMovetime(ms)
                }
            }
        } else if token_is(t, 1, "nodes") {
            if t.len() < 3 {
                UciCommand::NodesMissing
            } else {
                let nodes = read_number(t, 2, u64::MAX, 0);
                if nodes == 0 {
                    UciCommand::InvalidNodes
                } else {
                    UciCommand::GoNodes(nodes)
                }
            }
        } else if token_is(t, 1, "infinite") {
            UciCommand::GoInfinite
        } else {
            UciCommand::UnknownGo
        }
    } else {
        UciCommand::Unknown
    }
}

impl Board {
    /// The moves named by the tokens from `start` on, read on this board; at
    /// the first token that names no move, its index and the reason.
    pub fn parse_moves(&self, t: &Vec<Vec<u8>>, start: usize) -> (r: Result<Vec<Move>, (usize, String)>)
        requires
            self.wf(),
        ensures
            match r {
                Ok(mvs) => {
                    &&& forall|i: int|
                        start <= i < t@.len() ==> spec_parse_move(#[trigger] t@[i]@, self.size()) is Some
                    &&& mvs@.len() == (if start <= t@.len() { t@.len() - start } else { 0 })
                    &&& forall|k: int|
                        0 <= k < mvs@.len() ==> Some(((#[trigger] mvs@[k]).spec_from(), mvs@[k].spec_to()))
                            == spec_parse_move(t@[start + k]@, self.size())
                },
                Err((i, _)) => {
                    &&& start <= i < t@.len()
                    &&& spec_parse_move(t@[i as int]@, self.size()) is None
                    &&& forall|j: int| start <= j < i ==> spec_parse_move(#[trigger] t@[j]@, self.size()) is Some
                },
            },
    {
        let mut mvs: Vec<Move> = Vec::new();
        let mut i = start;
        if i >= t.len() {
            return Ok(mvs);
        }
        while i < t.len()
            invariant
                self.wf(),
                start <= i <= t@.len(),
                mvs@.len() == i - start,
                forall|j: int| start <= j < i ==> spec_parse_move(#[trigger] t@[j]@, self.size()) is Some,
                forall|k: int|
                    0 <= k < mvs@.len() ==> Some(((#[trigger] mvs@[k]).spec_from(), mvs@[k].spec_to()))
                        == spec_parse_move(t@[start + k]@, self.size()),
            decreases t@.len() - i,
        {
            match self.move_from_bytes(t[i].as_slice()) {
                Ok(mv) => {
                    mvs.push(mv);
                },
                Err(e) => {
                    return Err((i, e));
                },
            }
            i += 1;
        }
        Ok(mvs)
    }

    /// Whether `make_move` takes the move here: a piece on the from-square
    /// and, unless the piece stays, nothing on the to-square.
    pub fn can_make_move(&self, mv: Move) -> (r: bool)
        requires
            self.wf(),
        ensures
            r == move_applicable(self, mv),
    {
        let from = mv.from();
        let to = mv.to();
        if from >= self.board.len() || to >= self.board.len() {
            return false;
        }
        self.board[from] != crate::board::types::Piece::EMPTY && (from == to || self.board[to]
            == crate::board::types::Piece::EMPTY)
    }
}

} // verus!
