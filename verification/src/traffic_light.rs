//! Traffic light: whoever is to play scores a point, and chance picks who plays
//! next; the first to ten points ends the game.
use vstd::prelude::*;
use crate::chance::random_ratio;
use crate::common::{Outcome, Player};

verus! {

/// The points that end the game.
pub const TARGET: i32 = 10;

#[derive(Debug, Clone, Copy, PartialEq, Eq, Structural)]
pub enum P {
    A,
    B,
}

#[derive(Debug, Clone, Copy, PartialEq, Eq, Hash, Structural)]
pub enum A {
    Roll,
    Roll2,
}

impl P {
    pub open spec fn spec_index(self) -> nat {
        match self {
            P::A => 0,
            P::B => 1,
        }
    }
}

impl Player for P {
    open spec fn all() -> Seq<P> {
        seq![P::A, P::B]
    }

    open spec fn seat(self) -> nat {
        self.spec_index()
    }

    fn list() -> (r: Vec<P>) {
        let r = vec![P::A, P::B];
        assert(r@ =~= Self::all());
        r
    }

    fn seat_index(self) -> (r: usize) {
        match self {
            P::A => 0,
            P::B => 1,
        }
    }
}

#[derive(Debug, Clone)]
pub struct TrafficLight {
    pub points1: i32,
    pub points2: i32,
    pub to_play: P,
    pub prev: P,
}

impl TrafficLight {
    pub fn name() -> (r: String)
        ensures
            r@ == "TrafficLight"@,
    {
        "TrafficLight".to_string()
    }

    pub fn new() -> (r: TrafficLight)
        ensures
            r.points1 == 0 && r.points2 == 0 && r.to_play == P::A && r.prev == P::B,
    {
        TrafficLight { points1: 0, points2: 0, to_play: P::A, prev: P::B }
    }

    pub fn current_player(&self) -> (r: P)
        ensures
            r == self.to_play,
    {
        self.to_play
    }

    pub fn prev_player(&self) -> (r: P)
        ensures
            r == self.prev,
    {
        self.prev
    }

    pub fn get_actions(&self, player: P) -> (r: Vec<A>)
        ensures
            r@ == seq![A::Roll, A::Roll2],
    {
        let r = vec![A::Roll, A::Roll2];
        assert(r@ =~= seq![A::Roll, A::Roll2]);
        r
    }

    /// The player to play scores a point; the next player is then chosen with
    /// equal chances. Both actions do the same.
    pub fn apply_action(&mut self, action: A)
        requires
            old(self).points1 < i32::MAX,
            old(self).points2 < i32::MAX,
        ensures
            old(self).to_play == P::A ==> final(self).points1 == old(self).points1 + 1
                && final(self).points2 == old(self).points2,
            old(self).to_play == P::B ==> final(self).points2 == old(self).points2 + 1
                && final(self).points1 == old(self).points1,
            final(self).prev == old(self).to_play,
    {
        let points: i32 = 1;
        if self.to_play == P::A {
            self.points1 = self.points1 + points;
        } else {
            self.points2 = self.points2 + points;
        }
        self.prev = self.to_play;
        self.to_play = if random_ratio(1, 2) {
            P::A
        } else {
            P::B
        };
    }

    pub open spec fn spec_is_terminal(&self) -> bool {
        self.points1 >= TARGET || self.points2 >= TARGET
    }

    pub fn is_terminal(&self) -> (r: bool)
        ensures
            r == self.spec_is_terminal(),
    {
        self.points1 >= TARGET || self.points2 >= TARGET
    }

    pub open spec fn spec_outcome(&self, player: P) -> Option<Outcome> {
        if !self.spec_is_terminal() {
            None
        } else if self.points1 == self.points2 {
            Some(Outcome::Draw)
        } else if (self.points1 > self.points2) == (player == P::A) {
            Some(Outcome::Win)
        } else {
            Some(Outcome::Loss)
        }
    }

    /// Once the game is over, the player with more points wins; equal points draw.
    pub fn outcome(&self, player: P) -> (r: Option<Outcome>)
        ensures
            r == self.spec_outcome(player),
    {
        if !self.is_terminal() {
            return None;
        }
        if self.points1 == self.points2 {
            Some(Outcome::Draw)
        } else if self.points1 > self.points2 {
            if player == P::A {
                Some(Outcome::Win)
            } else {
                Some(Outcome::Loss)
            }
        } else {
            if player == P::B {
                Some(Outcome::Win)
            } else {
                Some(Outcome::Loss)
            }
        }
    }

    pub fn pairwise_outcome(&self, player1: P, player2: P) -> (r: Option<Outcome>)
        ensures
            r == self.spec_outcome(player1),
    {
        self.outcome(player1)
    }
}

} // verus!
