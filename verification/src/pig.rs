//! Pig: players roll a die to build a turn total, and bank it before rolling a one.
use vstd::prelude::*;
use crate::common::{chars_to_string, numeral, push_numeral, push_str, Outcome, Player as PlayerTrait};

verus! {

/// The score that wins the game.
pub const WIN_SCORE: u32 = 50;

#[derive(Debug, Clone, Copy, PartialEq, Eq, Structural)]
pub enum Player {
    P1,
    P2,
}

#[derive(Debug, Clone, Copy, PartialEq, Eq, Structural)]
pub enum Action {
    Roll,
    Bank,
    Die(u8),
}

#[derive(Debug, Clone)]
pub struct Pig {
    pub scores: [u32; 2],
    pub turn_total: u32,
    pub to_play: Player,
    pub pending_roll: bool,
    pub winner: Option<Player>,
}

impl Player {
    pub open spec fn spec_index(self) -> nat {
        match self {
            Player::P1 => 0,
            Player::P2 => 1,
        }
    }

    pub open spec fn spec_other(self) -> Player {
        match self {
            Player::P1 => Player::P2,
            Player::P2 => Player::P1,
        }
    }

    pub fn other(self) -> (r: Player)
        ensures
            r == self.spec_other(),
    {
        match self {
            Player::P1 => Player::P2,
            Player::P2 => Player::P1,
        }
    }

    pub fn into_usize(self) -> (r: usize)
        ensures
            r == self.spec_index(),
    {
        match self {
            Player::P1 => 0,
            Player::P2 => 1,
        }
    }
}

impl PlayerTrait for Player {
    open spec fn all() -> Seq<Player> {
        seq![Player::P1, Player::P2]
    }

    open spec fn seat(self) -> nat {
        self.spec_index()
    }

    fn list() -> (r: Vec<Player>) {
        let r = vec![Player::P1, Player::P2];
        assert(r@ =~= Self::all());
        r
    }

    fn seat_index(self) -> (r: usize) {
        self.into_usize()
    }
}

impl Action {
    /// The number of an action: 0 for a roll, 1 for banking, and one more than
    /// the face for a die result.
    pub open spec fn spec_index(self) -> nat {
        match self {
            Action::Roll => 0,
            Action::Bank => 1,
            Action::Die(n) => (n as nat) + 1,
        }
    }

    /// The action that a number names; a die face is read back modulo 256.
    pub open spec fn spec_from_index(n: nat) -> Action {
        if n == 0 {
            Action::Roll
        } else if n == 1 {
            Action::Bank
        } else {
            Action::Die(((n - 1) % 256) as u8)
        }
    }

    pub fn into_index(self) -> (r: usize)
        ensures
            r == self.spec_index(),
    {
        match self {
            Action::Roll => 0,
            Action::Bank => 1,
            Action::Die(n) => n as usize + 1,
        }
    }

    pub fn from_index(n: usize) -> (r: Action)
        ensures
            r == Self::spec_from_index(n as nat),
    {
        if n == 0 {
            Action::Roll
        } else if n == 1 {
            Action::Bank
        } else {
            let face = (n - 1) % 256;
            Action::Die(face as u8)
        }
    }
}

/// Numbering an action and reading the number back gives the same action,
/// except for a die showing zero, which reads back as banking.
pub proof fn lemma_action_round_trip(a: Action)
    requires
        a != Action::Die(0),
    ensures
        Action::spec_from_index(a.spec_index()) == a,
{
}

impl Pig {
    /// The scores and the turn total, as `P1: <score> | P2: <score> | Turn: <total>`.
    pub fn render(&self) -> (r: String)
        ensures
            r@ == "P1: "@ + numeral(self.scores[0] as nat, 10) + " | P2: "@ + numeral(self.scores[1] as nat, 10)
                + " | Turn: "@ + numeral(self.turn_total as nat, 10),
    {
        let mut out: Vec<char> = Vec::new();
        push_str(&mut out, "P1: ");
        push_numeral(&mut out, self.scores[0] as u128, 10);
        push_str(&mut out, " | P2: ");
        push_numeral(&mut out, self.scores[1] as u128, 10);
        push_str(&mut out, " | Turn: ");
        push_numeral(&mut out, self.turn_total as u128, 10);
        assert(Seq::<char>::empty() + "P1: "@ =~= "P1: "@);
        chars_to_string(&out)
    }

    pub fn name() -> (r: String)
        ensures
            r@ == "Pig"@,
    {
        "Pig".to_string()
    }

    pub fn new() -> (r: Pig)
        ensures
            r.scores@ == seq![0u32, 0u32],
            r.turn_total == 0,
            r.to_play == Player::P1,
            !r.pending_roll,
            r.winner is None,
    {
        let r = Pig {
            scores: [0, 0],
            turn_total: 0,
            to_play: Player::P1,
            pending_roll: false,
            winner: None,
        };
        assert(r.scores@ =~= seq![0u32, 0u32]);
        r
    }

    /// The actions that `apply_action` accepts without overflowing a counter.
    pub open spec fn can_apply(&self, action: Action) -> bool {
        match action {
            Action::Bank => self.scores[self.to_play.spec_index() as int] + self.turn_total
                <= u32::MAX,
            Action::Die(face) => self.turn_total + face <= u32::MAX,
            Action::Roll => true,
        }
    }

    pub fn apply_action(&mut self, action: Action)
        requires
            old(self).can_apply(action),
        ensures
            match action {
                Action::Roll => *final(self) == (Pig { pending_roll: true, ..*old(self) }),
                Action::Bank => {
                    let idx = old(self).to_play.spec_index() as int;
                    let banked = (old(self).scores[idx] + old(self).turn_total) as u32;
                    &&& final(self).scores@ == old(self).scores@.update(idx, banked)
                    &&& final(self).turn_total == 0
                    &&& final(self).pending_roll == old(self).pending_roll
                    &&& if banked >= WIN_SCORE {
                        &&& final(self).winner == Some(old(self).to_play)
                        &&& final(self).to_play == old(self).to_play
                    } else {
                        &&& final(self).winner == old(self).winner
                        &&& final(self).to_play == old(self).to_play.spec_other()
                    }
                },
                Action::Die(face) => {
                    &&& !final(self).pending_roll
                    &&& final(self).scores == old(self).scores
                    &&& final(self).winner == old(self).winner
                    &&& if face == 1 {
                        &&& final(self).turn_total == 0
                        &&& final(self).to_play == old(self).to_play.spec_other()
                    } else {
                        &&& final(self).turn_total == old(self).turn_total + face
                        &&& final(self).to_play == old(self).to_play
                    }
                },
            },
    {
        match action {
            Action::Roll => {
                self.pending_roll = true;
            },
            Action::Bank => {
                let idx = self.to_play.into_usize();
                self.scores[idx] = self.scores[idx] + self.turn_total;
                self.turn_total = 0;
                if self.scores[idx] >= WIN_SCORE {
                    self.winner = Some(self.to_play);
                } else {
                    self.to_play = self.to_play.other();
                }
            },
            Action::Die(face) => {
                self.pending_roll = false;
                if face == 1 {
                    self.turn_total = 0;
                    self.to_play = self.to_play.other();
                } else {
                    self.turn_total = self.turn_total + face as u32;
                }
            },
        }
    }

    pub fn current_player(&self) -> (r: Player)
        ensures
            r == self.to_play,
    {
        self.to_play
    }

    /// The available actions, and for a die roll the relative weight of each face.
    pub fn get_actions(&self, player: Player) -> (r: (Vec<Action>, Option<Vec<u32>>))
        ensures
            self.pending_roll ==> r.0@ == seq![
                Action::Die(1),
                Action::Die(2),
                Action::Die(3),
                Action::Die(4),
                Action::Die(5),
                Action::Die(6),
            ] && (r.1 matches Some(w) && w@ == seq![1u32, 1, 1, 1, 1, 1]),
            !self.pending_roll && self.turn_total == 0 ==> r.0@ == seq![Action::Roll] && r.1 is None,
            !self.pending_roll && self.turn_total != 0 ==> r.0@ == seq![Action::Roll, Action::Bank]
                && r.1 is None,
    {
        if self.pending_roll {
            let mut actions: Vec<Action> = Vec::new();
            let mut weights: Vec<u32> = Vec::new();
            let mut face: u8 = 1;
            while face <= 6
                invariant
                    1 <= face <= 7,
                    actions.len() == face - 1,
                    weights.len() == face - 1,
                    forall|i: int| 0 <= i < actions.len() ==> actions[i] == Action::Die((i + 1) as u8),
                    forall|i: int| 0 <= i < weights.len() ==> weights[i] == 1,
                decreases 7 - face,
            {
                actions.push(Action::Die(face));
                weights.push(1);
                face = face + 1;
            }
            assert(actions@ =~= seq![
                Action::Die(1),
                Action::Die(2),
                Action::Die(3),
                Action::Die(4),
                Action::Die(5),
                Action::Die(6),
            ]);
            assert(weights@ =~= seq![1u32, 1, 1, 1, 1, 1]);
            (actions, Some(weights))
        } else if self.turn_total == 0 {
            let r = vec![Action::Roll];
            assert(r@ =~= seq![Action::Roll]);
            (r, None)
        } else {
            let r = vec![Action::Roll, Action::Bank];
            assert(r@ =~= seq![Action::Roll, Action::Bank]);
            (r, None)
        }
    }

    pub fn is_random(&self) -> (r: bool)
        ensures
            r == self.pending_roll,
    {
        self.pending_roll
    }

    pub fn is_terminal(&self) -> (r: bool)
        ensures
            r == self.winner is Some,
    {
        self.winner.is_some()
    }

    pub fn outcome(&self, player: Player) -> (r: Option<Outcome>)
        ensures
            self.winner is None ==> r is None,
            self.winner matches Some(w) ==> r == Some(
                if w == player {
                    Outcome::Win
                } else {
                    Outcome::Loss
                },
            ),
    {
        match self.winner {
            None => None,
            Some(winner) => {
                if winner == player {
                    Some(Outcome::Win)
                } else {
                    Some(Outcome::Loss)
                }
            },
        }
    }

    pub fn pairwise_outcome(&self, player1: Player, player2: Player) -> (r: Option<Outcome>)
        ensures
            r == self.spec_outcome(player1),
    {
        self.outcome(player1)
    }

    pub open spec fn spec_outcome(&self, player: Player) -> Option<Outcome> {
        match self.winner {
            None => None,
            Some(w) => Some(
                if w == player {
                    Outcome::Win
                } else {
                    Outcome::Loss
                },
            ),
        }
    }
}

} // verus!
