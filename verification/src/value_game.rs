//! A variant of the odds game in which each move raises the odds a little, and
//! chance may end the game before the new odds take effect.
use vstd::prelude::*;
use crate::chance::{random_ratio, random_u32_inclusive};
use crate::common::{Outcome, Player as PlayerTrait};

verus! {

/// The odds are out of at least this many chances.
pub const DENOMINATOR: u32 = 100;

#[derive(Debug, Clone, Copy, PartialEq, Eq, Structural)]
pub enum OddsGamePlayer {
    A,
    B,
}

/// New odds: for a win of A, and for a win of B.
#[derive(Debug, Clone, Copy, PartialEq, Eq, Hash, Structural)]
pub struct OddsGameAction(pub u32, pub u32);

#[derive(Debug, Clone)]
pub struct OddsGame {
    pub w: u32,
    pub l: u32,
    pub to_play: OddsGamePlayer,
    pub winner: Option<OddsGamePlayer>,
}

impl OddsGamePlayer {
    pub open spec fn spec_index(self) -> nat {
        match self {
            OddsGamePlayer::A => 0,
            OddsGamePlayer::B => 1,
        }
    }

    pub open spec fn spec_other(self) -> OddsGamePlayer {
        match self {
            OddsGamePlayer::A => OddsGamePlayer::B,
            OddsGamePlayer::B => OddsGamePlayer::A,
        }
    }

    pub fn into_usize(self) -> (r: usize)
        ensures
            r == self.spec_index(),
    {
        match self {
            OddsGamePlayer::A => 0,
            OddsGamePlayer::B => 1,
        }
    }
}

impl PlayerTrait for OddsGamePlayer {
    open spec fn all() -> Seq<OddsGamePlayer> {
        seq![OddsGamePlayer::A, OddsGamePlayer::B]
    }

    open spec fn seat(self) -> nat {
        self.spec_index()
    }

    fn list() -> (r: Vec<OddsGamePlayer>) {
        let r = vec![OddsGamePlayer::A, OddsGamePlayer::B];
        assert(r@ =~= Self::all());
        r
    }

    fn seat_index(self) -> (r: usize) {
        self.into_usize()
    }
}

pub open spec fn spec_min(a: int, b: int) -> int {
    if a <= b {
        a
    } else {
        b
    }
}

/// `new` is `old` raised by at most ten, but not above a hundred; that is,
/// `new == min(old + d, 100)` for some `d` from 0 to 10.
pub open spec fn is_raise(old: u32, new: u32) -> bool {
    spec_min(old as int, DENOMINATOR as int) <= new <= spec_min(old + 10, DENOMINATOR as int)
}

impl OddsGame {
    pub fn new() -> (r: OddsGame)
        ensures
            r.w == 1 && r.l == 1 && r.to_play == OddsGamePlayer::A && r.winner is None,
    {
        OddsGame { w: 1, l: 1, to_play: OddsGamePlayer::A, winner: None }
    }

    /// Plays `action` given the two draws of chance: whether the current odds
    /// end the game, and if so whether A wins.
    pub fn apply_with_draws(&mut self, action: OddsGameAction, ends: bool, a_wins: bool)
        ensures
            final(self).winner == (if ends {
                Some(
                    if a_wins {
                        OddsGamePlayer::A
                    } else {
                        OddsGamePlayer::B
                    },
                )
            } else {
                old(self).winner
            }),
            final(self).w == action.0,
            final(self).l == action.1,
            final(self).to_play == old(self).to_play.spec_other(),
    {
        if ends {
            if a_wins {
                self.winner = Some(OddsGamePlayer::A);
            } else {
                self.winner = Some(OddsGamePlayer::B);
            }
        }
        self.w = action.0;
        self.l = action.1;
        self.to_play = if self.to_play == OddsGamePlayer::A {
            OddsGamePlayer::B
        } else {
            OddsGamePlayer::A
        };
    }

    /// Rolls the current odds, then installs the new ones and passes the turn.
    ///
    /// The game ends with chance `(w + l) / max(100, w + l)`, and then A wins
    /// with chance `w / (w + l)`.
    pub fn apply_action(&mut self, action: OddsGameAction)
        requires
            old(self).w + old(self).l <= u32::MAX,
        ensures
            final(self).w == action.0,
            final(self).l == action.1,
            final(self).to_play == old(self).to_play.spec_other(),
            final(self).winner == old(self).winner || final(self).winner == Some(OddsGamePlayer::A)
                || final(self).winner == Some(OddsGamePlayer::B),
            old(self).w + old(self).l == 0 ==> final(self).winner == old(self).winner,
            old(self).w + old(self).l >= DENOMINATOR ==> final(self).winner is Some,
            old(self).w + old(self).l >= DENOMINATOR && old(self).l == 0 ==> final(self).winner
                == Some(OddsGamePlayer::A),
            old(self).w + old(self).l >= DENOMINATOR && old(self).w == 0 ==> final(self).winner
                == Some(OddsGamePlayer::B),
    {
        let total = self.w + self.l;
        let out_of = if DENOMINATOR >= total {
            DENOMINATOR
        } else {
            total
        };
        let ends = random_ratio(total, out_of);
        let a_wins = if ends {
            random_ratio(self.w, total)
        } else {
            false
        };
        self.apply_with_draws(action, ends, a_wins);
    }

    pub fn current_player(&self) -> (r: OddsGamePlayer)
        ensures
            r == self.to_play,
    {
        self.to_play
    }

    /// Three moves drawn at random, each raising each of the odds by up to ten
    /// but not above a hundred.
    pub fn get_actions(&self, player: OddsGamePlayer) -> (r: Vec<OddsGameAction>)
        requires
            player == self.to_play,
            self.w + 10 <= u32::MAX,
            self.l + 10 <= u32::MAX,
        ensures
            r.len() == 3,
            forall|i: int|
                0 <= i < 3 ==> is_raise(self.w, (#[trigger] r[i]).0) && is_raise(self.l, r[i].1),
    {
        let mut actions: Vec<OddsGameAction> = Vec::new();
        let mut k: usize = 0;
        while k < 3
            invariant
                k <= 3,
                actions.len() == k,
                self.w + 10 <= u32::MAX,
                self.l + 10 <= u32::MAX,
                forall|i: int|
                    0 <= i < k ==> is_raise(self.w, (#[trigger] actions[i]).0) && is_raise(
                        self.l,
                        actions[i].1,
                    ),
            decreases 3 - k,
        {
            let dw = random_u32_inclusive(0, 10);
            let dl = random_u32_inclusive(0, 10);
            let a = self.w + dw;
            let b = self.l + dl;
            let a = if a <= DENOMINATOR {
                a
            } else {
                DENOMINATOR
            };
            let b = if b <= DENOMINATOR {
                b
            } else {
                DENOMINATOR
            };
            let action = OddsGameAction(a, b);
            actions.push(action);
            assert(actions[k as int] == action);
            k = k + 1;
        }
        actions
    }

    pub fn is_terminal(&self) -> (r: bool)
        ensures
            r == self.winner is Some,
    {
        self.winner.is_some()
    }

    pub fn outcome(&self, player: OddsGamePlayer) -> (r: Option<Outcome>)
        ensures
            self.winner is None ==> r is None,
            self.winner matches Some(w) ==> r == Some(
                if w == player {
                    Outcome::Win
                } else {
                    Outcome::Loss
                },
            ),
    {
        match self.winner {
            None => None,
            Some(winner) => {
                if winner == player {
                    Some(Outcome::Win)
                } else {
                    Some(Outcome::Loss)
                }
            },
        }
    }
}

} // verus!
