use vstd::prelude::*;
use crate::board::Board;
use crate::board::fen::spec_fen_text;
use crate::board::notation::chars_of;
use crate::board::types::Side;

verus! {

/// A position of a played game, in FEN, with the side to move.
pub struct Fen {
    pub fen: String,
    pub stm: Side,
}

/// The positions of one game, in order, and its winner once it is known.
pub struct LearningGame {
    pub fens: Vec<Fen>,
    pub winner: Side,
    pub is_completed: bool,
}

/// A position kept for training, with the winner of its game.
pub struct GameFen {
    pub fen: Fen,
    pub result: Side,
}

/// Training positions gathered from finished games, at most `side_limit`
/// from games won by each side.
pub struct Batcher {
    pub positions: Vec<GameFen>,
    pub attackers_wins: usize,
    pub defenders_wins: usize,
    pub limit: usize,
    pub side_limit: usize,
}

pub open spec fn fen_view(f: Fen) -> (Seq<char>, Side) {
    (f.fen@, f.stm)
}

pub open spec fn game_fen_view(g: GameFen) -> (Seq<char>, Side, Side) {
    (g.fen.fen@, g.fen.stm, g.result)
}

/// How many more positions of a game won by the side with `wins` wins fit.
pub open spec fn spec_room(len: int, limit: int, wins: int, side_limit: int) -> int {
    let total = if len >= limit {
        0
    } else {
        limit - len
    };
    let side = if wins >= side_limit {
        0
    } else {
        side_limit - wins
    };
    if total < side {
        total
    } else {
        side
    }
}

pub open spec fn min_int(a: int, b: int) -> int {
    if a < b {
        a
    } else {
        b
    }
}

impl LearningGame {
    pub fn new() -> (g: Self)
        ensures
            g.fens@.len() == 0,
            g.winner == Side::DEFENDERS,
            !g.is_completed,
    {
        LearningGame { fens: Vec::new(), winner: Side::DEFENDERS, is_completed: false }
    }

    /// Records the position of `board`, unless the game is over.
    pub fn add_position(&mut self, board: &Board)
        requires
            board.wf(),
        ensures
            old(self).is_completed ==> *final(self) == *old(self),
            !old(self).is_completed ==> {
                &&& final(self).fens@.map_values(|f: Fen| fen_view(f)) == old(self).fens@.map_values(
                    |f: Fen| fen_view(f),
                ).push((chars_of(spec_fen_text(board)), board.side_to_move))
                &&& final(self).winner == old(self).winner
                &&& final(self).is_completed == old(self).is_completed
            },
    {
        if self.is_completed {
            return;
        }
        let fen = board.get_fen();
        self.fens.push(Fen { fen, stm: board.side_to_move });
        proof {
            assert(self.fens@.map_values(|f: Fen| fen_view(f)) =~= old(self).fens@.map_values(|f: Fen| fen_view(f)).push(
                (chars_of(spec_fen_text(board)), board.side_to_move),
            ));
        }
    }

    /// Closes the game with its winner; no position is recorded after this.
    pub fn mark_winner(&mut self, winner: Side)
        ensures
            final(self).winner == winner,
            final(self).is_completed,
            final(self).fens == old(self).fens,
    {
        self.winner = winner;
        self.is_completed = true;
    }

    /// Forgets the positions and reopens the game.
    pub fn clear(&mut self)
        ensures
            final(self).fens@.len() == 0,
            !final(self).is_completed,
            final(self).winner == old(self).winner,
    {
        self.fens.clear();
        self.is_completed = false;
    }

    pub fn fens(&self) -> (f: &Vec<Fen>)
        ensures
            f == &self.fens,
    {
        &self.fens
    }
}

impl GameFen {
    /// 1 when the side to move of the position went on to win, else 0.
    pub fn win_score(&self) -> (s: u8)
        ensures
            s == (if self.result == self.fen.stm {
                1u8
            } else {
                0u8
            }),
    {
        if self.result == self.fen.stm {
            1
        } else {
            0
        }
    }
}

impl Batcher {
    /// The counters agree with the positions and stay within their limits.
    pub open spec fn wf(&self) -> bool {
        &&& self.limit == 2 * self.side_limit
        &&& self.attackers_wins <= self.side_limit
        &&& self.defenders_wins <= self.side_limit
        &&& self.positions@.len() == self.attackers_wins + self.defenders_wins
    }

    pub open spec fn view_positions(&self) -> Seq<(Seq<char>, Side, Side)> {
        self.positions@.map_values(|g: GameFen| game_fen_view(g))
    }

    /// A batcher for at most `limit` positions, rounded down to an even
    /// number, half of them from each side's wins.
    pub fn new(limit: usize) -> (b: Self)
        ensures
            b.wf(),
            b.side_limit == limit / 2,
            b.limit == 2 * (limit / 2),
            b.positions@.len() == 0,
            b.attackers_wins == 0,
            b.defenders_wins == 0,
    {
        let side_limit = limit / 2;
        Batcher { positions: Vec::new(), attackers_wins: 0, defenders_wins: 0, limit: side_limit * 2, side_limit }
    }

    /// Takes the positions of a finished game, in order, as long as there is
    /// room for them in the batch and in the share of the game's winner. The
    /// positions of an unfinished game are not taken.
    pub fn add_game(&mut self, game: LearningGame)
        requires
            old(self).wf(),
        ensures
            final(self).wf(),
            final(self).limit == old(self).limit,
            final(self).side_limit == old(self).side_limit,
            !game.is_completed ==> *final(self) == *old(self),
            game.is_completed ==> {
                let wins = if game.winner == Side::DEFENDERS {
                    old(self).defenders_wins
                } else {
                    old(self).attackers_wins
                };
                let added = min_int(
                    game.fens@.len() as int,
                    spec_room(
                        old(self).positions@.len() as int,
                        old(self).limit as int,
                        wins as int,
                        old(self).side_limit as int,
                    ),
                );
                &&& final(self).view_positions() == old(self).view_positions() + game.fens@.subrange(
                    0,
                    added,
                ).map_values(|f: Fen| (f.fen@, f.stm, game.winner))
                &&& game.winner == Side::DEFENDERS ==> final(self).defenders_wins == old(self).defenders_wins + added
                    && final(self).attackers_wins == old(self).attackers_wins
                &&& game.winner == Side::ATTACKERS ==> final(self).attackers_wins == old(self).attackers_wins + added
                    && final(self).defenders_wins == old(self).defenders_wins
            },
    {
        if !game.is_completed {
            return;
        }
        let ghost len0 = self.positions@.len() as int;
        let ghost old_view = self.view_positions();
        let ghost w0 = if game.winner == Side::DEFENDERS {
            self.defenders_wins as int
        } else {
            self.attackers_wins as int
        };
        let ghost room = spec_room(len0, self.limit as int, w0, self.side_limit as int);
        let ghost aw0 = self.attackers_wins;
        let ghost dw0 = self.defenders_wins;
        let n = game.fens.len();
        let mut i: usize = 0;
        while i < n && self.positions.len() < self.limit
            invariant
                self.wf(),
                self.limit == old(self).limit,
                self.side_limit == old(self).side_limit,
                n == game.fens@.len(),
                game.is_completed,
                i <= n,
                len0 == old(self).positions@.len(),
                old_view == old(self).view_positions(),
                w0 == (if game.winner == Side::DEFENDERS {
                    old(self).defenders_wins as int
                } else {
                    old(self).attackers_wins as int
                }),
                aw0 == old(self).attackers_wins,
                dw0 == old(self).defenders_wins,
                room == spec_room(len0, self.limit as int, w0, self.side_limit as int),
                self.positions@.len() - len0 == min_int(i as int, room),
                game.winner == Side::DEFENDERS ==> self.defenders_wins == dw0 + min_int(i as int, room)
                    && self.attackers_wins == aw0,
                game.winner == Side::ATTACKERS ==> self.attackers_wins == aw0 + min_int(i as int, room)
                    && self.defenders_wins == dw0,
                self.view_positions() == old_view + game.fens@.subrange(0, min_int(i as int, room)).map_values(
                    |f: Fen| (f.fen@, f.stm, game.winner),
                ),
            decreases n - i,
        {
            let f = &game.fens[i];
            let ghost before = self.view_positions();
            let ghost k = min_int(i as int, room);
            if game.winner == Side::DEFENDERS && self.defenders_wins < self.side_limit {
                let fen = f.fen.clone();
                self.positions.push(GameFen { fen: Fen { fen, stm: f.stm }, result: game.winner });
                self.defenders_wins += 1;
            } else if game.winner == Side::ATTACKERS && self.attackers_wins < self.side_limit {
                let fen = f.fen.clone();
                self.positions.push(GameFen { fen: Fen { fen, stm: f.stm }, result: game.winner });
                self.attackers_wins += 1;
            }
            proof {
                let g = |f: Fen| (f.fen@, f.stm, game.winner);
                if min_int(i + 1, room) == k + 1 {
                    assert(k == i);
                    assert(game.fens@.subrange(0, k + 1).map_values(g) =~= game.fens@.subrange(0, k).map_values(g).push(
                        g(game.fens@[k]),
                    ));
                    assert(self.view_positions() =~= before.push(g(game.fens@[k])));
                }
            }
            i += 1;
        }
    }

    /// Whether the batch has reached its limit.
    pub fn is_full(&self) -> (b: bool)
        ensures
            b == (self.positions@.len() >= self.limit),
    {
        self.positions.len() >= self.limit
    }

    /// Empties the batch.
    pub fn clear(&mut self)
        requires
            old(self).wf(),
        ensures
            final(self).wf(),
            final(self).positions@.len() == 0,
            final(self).attackers_wins == 0,
            final(self).defenders_wins == 0,
            final(self).limit == old(self).limit,
            final(self).side_limit == old(self).side_limit,
    {
        self.positions.clear();
        self.attackers_wins = 0;
        self.defenders_wins = 0;
    }
}

} // verus!
