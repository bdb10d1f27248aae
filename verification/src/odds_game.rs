//! The odds game: a player names winning and losing odds out of a hundred, then
//! chance decides whether the game ends and who wins.
use vstd::prelude::*;
use crate::chance::random_u32_inclusive;
use crate::common::{chars_to_string, numeral, push_numeral, push_str, Outcome, Player as PlayerTrait};

verus! {

/// The odds are out of at least this many chances.
pub const DENOMINATOR: u32 = 100;

#[derive(Debug, Clone, Copy, PartialEq, Eq, Structural)]
pub enum Player {
    A,
    B,
}

#[derive(Debug, Clone, Copy, PartialEq, Eq, Structural)]
pub enum Action {
    /// Odds of `w` for a win of A and `l` for a win of B.
    Choose(u32, u32),
    /// The roll's result: a winner, or none.
    Roll(Option<Player>),
}

#[derive(Debug, Clone)]
pub struct OddsGame {
    pub w: u32,
    pub l: u32,
    pub to_play: Player,
    pub roll: bool,
    pub winner: Option<Player>,
}

pub open spec fn spec_denom(w: u32, l: u32) -> nat {
    if w + l >= DENOMINATOR {
        (w + l) as nat
    } else {
        DENOMINATOR as nat
    }
}

/// The chances of a roll that ends nothing.
pub open spec fn spec_rest(w: u32, l: u32) -> u32 {
    (spec_denom(w, l) - w - l) as u32
}

/// The number of chances that the odds are out of: at least a hundred, and at
/// least the sum of the two odds.
pub fn denom(w: u32, l: u32) -> (r: u32)
    requires
        w + l <= u32::MAX,
    ensures
        r == spec_denom(w, l),
{
    let s = w + l;
    if s >= DENOMINATOR {
        s
    } else {
        DENOMINATOR
    }
}

impl Player {
    pub open spec fn spec_index(self) -> nat {
        match self {
            Player::A => 0,
            Player::B => 1,
        }
    }

    pub open spec fn spec_other(self) -> Player {
        match self {
            Player::A => Player::B,
            Player::B => Player::A,
        }
    }

    pub fn into_usize(self) -> (r: usize)
        ensures
            r == self.spec_index(),
    {
        match self {
            Player::A => 0,
            Player::B => 1,
        }
    }
}

impl PlayerTrait for Player {
    open spec fn all() -> Seq<Player> {
        seq![Player::A, Player::B]
    }

    open spec fn seat(self) -> nat {
        self.spec_index()
    }

    fn list() -> (r: Vec<Player>) {
        let r = vec![Player::A, Player::B];
        assert(r@ =~= Self::all());
        r
    }

    fn seat_index(self) -> (r: usize) {
        self.into_usize()
    }
}

impl Action {
    /// The number of an action: the two odds side by side for a choice
    /// (`w` in the high half of a 64-bit word), and 0, 1 or 2 for a roll.
    pub open spec fn spec_index(self) -> nat {
        match self {
            Action::Choose(w, l) => (w as nat) * 0x1_0000_0000 + (l as nat),
            Action::Roll(opt) => match opt {
                Some(Player::A) => 1,
                Some(Player::B) => 2,
                None => 0,
            },
        }
    }

    /// The action that a number names: numbers above two are choices.
    pub open spec fn spec_from_index(n: nat) -> Action {
        if n > 2 {
            Action::Choose((n / 0x1_0000_0000) as u32, (n % 0x1_0000_0000) as u32)
        } else if n == 2 {
            Action::Roll(Some(Player::B))
        } else if n == 1 {
            Action::Roll(Some(Player::A))
        } else {
            Action::Roll(None)
        }
    }

    pub fn into_index(self) -> (r: u64)
        ensures
            r == self.spec_index(),
    {
        match self {
            Action::Choose(w, l) => {
                let r = ((w as u64) << 32u64) | (l as u64);
                assert(r == (w as u64) * 0x1_0000_0000u64 + (l as u64)) by (bit_vector)
                    requires
                        r == ((w as u64) << 32u64) | (l as u64),
                ;
                r
            },
            Action::Roll(opt) => match opt {
                Some(Player::A) => 1,
                Some(Player::B) => 2,
                None => 0,
            },
        }
    }

    pub fn from_index(val: u64) -> (r: Action)
        ensures
            r == Self::spec_from_index(val as nat),
    {
        if val > 2 {
            let w = (val >> 32u64) as u32;
            let l = val as u32;
            assert(w == val / 0x1_0000_0000u64 && l == val % 0x1_0000_0000u64) by (bit_vector)
                requires
                    w == (val >> 32u64) as u32,
                    l == val as u32,
            ;
            Action::Choose(w, l)
        } else if val == 2 {
            Action::Roll(Some(Player::B))
        } else if val == 1 {
            Action::Roll(Some(Player::A))
        } else {
            Action::Roll(None)
        }
    }
}

/// Numbering an action and reading the number back gives the same action,
/// except for the choices whose numbers are 0, 1 or 2 (a zero winning odds and
/// a losing odds of at most two), which read back as rolls.
pub proof fn lemma_action_round_trip(a: Action)
    requires
        !(a matches Action::Choose(w, l) && w == 0 && l <= 2),
    ensures
        Action::spec_from_index(a.spec_index()) == a,
{
    if let Action::Choose(w, l) = a {
        let n = a.spec_index();
        assert(n / 0x1_0000_0000 == w && n % 0x1_0000_0000 == l) by (nonlinear_arith)
            requires
                n == (w as nat) * 0x1_0000_0000 + (l as nat),
                l < 0x1_0000_0000,
        ;
    }
}

impl OddsGame {
    /// The two odds, as `<w> <l>`.
    pub fn render(&self) -> (r: String)
        ensures
            r@ == numeral(self.w as nat, 10) + " "@ + numeral(self.l as nat, 10),
    {
        let mut out: Vec<char> = Vec::new();
        push_numeral(&mut out, self.w as u128, 10);
        push_str(&mut out, " ");
        push_numeral(&mut out, self.l as u128, 10);
        assert(Seq::<char>::empty() + numeral(self.w as nat, 10) =~= numeral(self.w as nat, 10));
        chars_to_string(&out)
    }

    pub fn name() -> (r: String)
        ensures
            r@ == "OddsGame"@,
    {
        "OddsGame".to_string()
    }

    pub fn new() -> (r: OddsGame)
        ensures
            r.w == 1 && r.l == 1 && r.to_play == Player::A && !r.roll && r.winner is None,
    {
        OddsGame { w: 1, l: 1, to_play: Player::A, roll: false, winner: None }
    }

    pub fn apply_action(&mut self, action: Action)
        ensures
            match action {
                Action::Choose(w, l) => *final(self) == (OddsGame {
                    w,
                    l,
                    roll: true,
                    to_play: old(self).to_play.spec_other(),
                    ..*old(self)
                }),
                Action::Roll(Some(p)) => *final(self) == (OddsGame {
                    winner: Some(p),
                    ..*old(self)
                }),
                Action::Roll(None) => *final(self) == (OddsGame { roll: false, ..*old(self) }),
            },
    {
        match action {
            Action::Choose(w, l) => {
                self.w = w;
                self.l = l;
                self.roll = true;
                self.to_play = if self.to_play == Player::A {
                    Player::B
                } else {
                    Player::A
                };
            },
            Action::Roll(opt) => match opt {
                Some(Player::A) => self.winner = Some(Player::A),
                Some(Player::B) => self.winner = Some(Player::B),
                _ => self.roll = false,
            },
        }
    }

    pub fn current_player(&self) -> (r: Player)
        ensures
            r == self.to_play,
    {
        self.to_play
    }

    /// The available actions. When the odds are to be rolled, the three results
    /// come with their weights: the winning odds, the losing odds, and the rest
    /// of the chances. Otherwise eight choices of odds are drawn at random.
    pub fn get_actions(&self, player: Player) -> (r: (Vec<Action>, Option<Vec<u32>>))
        requires
            self.roll ==> self.w + self.l <= u32::MAX,
        ensures
            self.roll ==> {
                &&& r.0@ == seq![
                    Action::Roll(Some(Player::A)),
                    Action::Roll(Some(Player::B)),
                    Action::Roll(None),
                ]
                &&& r.1 matches Some(weights) && weights@ == seq![
                    self.w,
                    self.l,
                    spec_rest(self.w, self.l),
                ]
            },
            !self.roll ==> {
                &&& r.0@.len() == 8
                &&& r.1 is None
                &&& forall|i: int|
                    0 <= i < 8 ==> (#[trigger] r.0@[i] matches Action::Choose(w, l) && w
                        <= DENOMINATOR && l <= DENOMINATOR)
            },
    {
        if self.roll {
            let d = denom(self.w, self.l);
            let actions = vec![
                Action::Roll(Some(Player::A)),
                Action::Roll(Some(Player::B)),
                Action::Roll(None),
            ];
            let rest = d - self.w - self.l;
            let weights = vec![self.w, self.l, rest];
            assert(actions@ =~= seq![
                Action::Roll(Some(Player::A)),
                Action::Roll(Some(Player::B)),
                Action::Roll(None),
            ]);
            assert(weights@ =~= seq![self.w, self.l, spec_rest(self.w, self.l)]);
            (actions, Some(weights))
        } else {
            let mut actions: Vec<Action> = Vec::new();
            let mut k: usize = 0;
            while k < 8
                invariant
                    k <= 8,
                    actions.len() == k,
                    forall|i: int|
                        0 <= i < k ==> (#[trigger] actions@[i] matches Action::Choose(w, l) && w
                            <= DENOMINATOR && l <= DENOMINATOR),
                decreases 8 - k,
            {
                let w = random_u32_inclusive(0, 100);
                let l = random_u32_inclusive(0, 100);
                let w = if w < DENOMINATOR {
                    w
                } else {
                    DENOMINATOR
                };
                let l = if l < DENOMINATOR {
                    l
                } else {
                    DENOMINATOR
                };
                actions.push(Action::Choose(w, l));
                k = k + 1;
            }
            (actions, None)
        }
    }

    pub fn is_random(&self) -> (r: bool)
        ensures
            r == self.roll,
    {
        self.roll
    }

    pub fn is_terminal(&self) -> (r: bool)
        ensures
            r == self.winner is Some,
    {
        self.winner.is_some()
    }

    pub open spec fn spec_outcome(&self, player: Player) -> Option<Outcome> {
        match self.winner {
            None => None,
            Some(w) => Some(
                if w == player {
                    Outcome::Win
                } else {
                    Outcome::Loss
                },
            ),
        }
    }

    pub fn outcome(&self, player: Player) -> (r: Option<Outcome>)
        ensures
            r == self.spec_outcome(player),
    {
        match self.winner {
            None => None,
            Some(winner) => {
                if winner == player {
                    Some(Outcome::Win)
                } else {
                    Some(Outcome::Loss)
                }
            },
        }
    }

    pub fn pairwise_outcome(&self, player1: Player, player2: Player) -> (r: Option<Outcome>)
        ensures
            r == self.spec_outcome(player1),
    {
        self.outcome(player1)
    }
}

} // verus!
