//! The vocabulary of Catan: resources, players, cards and actions, and the
//! numbering of actions as machine words.
use vstd::prelude::*;
use crate::common::Player as PlayerTrait;

verus! {

pub type HexId = usize;

pub type VertexId = usize;

pub type EdgeId = usize;

pub const N_HEXES: usize = 19;

pub const N_VERTICES: usize = 54;

pub const N_EDGES: usize = 72;

pub const N_ROLLS: usize = 11;

#[derive(Debug, Clone, Copy, PartialEq, Eq, Hash, Structural)]
pub enum Resource {
    Brick,
    Grain,
    Lumber,
    Ore,
    Wool,
}

#[derive(Debug, Clone, Copy, PartialEq, Eq, Hash, Structural)]
pub enum Purchasable {
    Road,
    Settlement,
    City,
    DevCard,
}

#[derive(Debug, Clone, Copy, PartialEq, Eq, PartialOrd, Ord, Hash, Structural)]
pub enum Player {
    Blue,
    Orange,
    Red,
    White,
}

#[derive(Debug, Clone, Copy, PartialEq, Eq, Hash, Structural)]
pub enum DevCard {
    Knight,
    VictoryPoint,
    RoadBuilding,
    YearOfPlenty,
    Monopoly,
}

#[derive(Debug, Clone, Copy, PartialEq, Eq, Hash)]
pub enum Action {
    RollDice,
    Roll(u8),
    BuildSettlement(VertexId),
    UpgradeSettlement(VertexId),
    BuildRoad(EdgeId),
    BuyDevCard,
    ReceiveDevCard(DevCard),
    PlayDevCard(DevCard),
    MoveRobber(HexId),
    DiscardResource(Resource),
    StealFrom(Player),
    StealResourceFrom(Player, Resource),
    Monopolize(Resource),
    TakeFreeResource(Resource),
    ExchangeResources(((Resource, u8), Resource)),
    EndTurn,
}

/// What chance made of an action: the dice total with each player's
/// production (none on a seven), the development card drawn, the cards a
/// monopoly gathered, or the card stolen.
#[derive(Debug, Clone, Copy)]
pub enum ActionResult {
    DiceRolled(u8, Option<[[u8; 5]; 4]>),
    DevCardBought(DevCard),
    Monopolized(Resource, u8),
    ResourceStolen(Resource),
}

/// The static parts of the board that every player sees.
pub struct InitialObservation {
    pub resources: Vec<Option<Resource>>,
    pub rolls: Vec<Option<u8>>,
}

/// The cards in the observing player's own hand, by kind.
#[derive(Debug, Clone, Copy)]
pub struct ObserverHand {
    pub resources: [u8; 5],
    pub dev_cards: [u8; 5],
}

/// What one player knows of the game at a given moment.
#[derive(Debug)]
pub struct Observation {
    pub observer: Player,
    pub current_player: Player,
    pub is_terminal: bool,
    pub actions: Vec<Action>,
    pub observer_hand: ObserverHand,
    pub hidden_hands: Vec<HiddenHand>,
    pub robber: HexId,
    /// Every building: its owner, its vertex and whether it is a city.
    pub buildings: Vec<(Player, VertexId, bool)>,
    /// Every road: its owner and its edge.
    pub roads: Vec<(Player, EdgeId)>,
}

/// What a player sees of an opponent's hand: only its sizes.
#[derive(Debug, Clone, Copy, PartialEq, Eq, Structural)]
pub struct HiddenHand {
    pub player: Player,
    pub resources: u8,
    pub dev_cards: u8,
}

// ---------------------------------------------------------------------------
// Positions of the enum variants

impl Purchasable {
    pub open spec fn spec_index(self) -> nat {
        match self {
            Purchasable::Road => 0,
            Purchasable::Settlement => 1,
            Purchasable::City => 2,
            Purchasable::DevCard => 3,
        }
    }

    pub fn into_usize(self) -> (r: usize)
        ensures
            r == self.spec_index(),
            r < 4,
    {
        match self {
            Purchasable::Road => 0,
            Purchasable::Settlement => 1,
            Purchasable::City => 2,
            Purchasable::DevCard => 3,
        }
    }
}

impl Resource {
    pub open spec fn spec_index(self) -> nat {
        match self {
            Resource::Brick => 0,
            Resource::Grain => 1,
            Resource::Lumber => 2,
            Resource::Ore => 3,
            Resource::Wool => 4,
        }
    }

    pub open spec fn spec_from_index(n: nat) -> Resource {
        if n == 0 {
            Resource::Brick
        } else if n == 1 {
            Resource::Grain
        } else if n == 2 {
            Resource::Lumber
        } else if n == 3 {
            Resource::Ore
        } else {
            Resource::Wool
        }
    }

    pub fn into_usize(self) -> (r: usize)
        ensures
            r == self.spec_index(),
            r < 5,
    {
        match self {
            Resource::Brick => 0,
            Resource::Grain => 1,
            Resource::Lumber => 2,
            Resource::Ore => 3,
            Resource::Wool => 4,
        }
    }

    pub fn from_usize(n: usize) -> (r: Resource)
        requires
            n < 5,
        ensures
            r.spec_index() == n,
            r == Self::spec_from_index(n as nat),
    {
        if n == 0 {
            Resource::Brick
        } else if n == 1 {
            Resource::Grain
        } else if n == 2 {
            Resource::Lumber
        } else if n == 3 {
            Resource::Ore
        } else {
            Resource::Wool
        }
    }
}

impl DevCard {
    pub open spec fn spec_index(self) -> nat {
        match self {
            DevCard::Knight => 0,
            DevCard::VictoryPoint => 1,
            DevCard::RoadBuilding => 2,
            DevCard::YearOfPlenty => 3,
            DevCard::Monopoly => 4,
        }
    }

    pub open spec fn spec_from_index(n: nat) -> DevCard {
        if n == 0 {
            DevCard::Knight
        } else if n == 1 {
            DevCard::VictoryPoint
        } else if n == 2 {
            DevCard::RoadBuilding
        } else if n == 3 {
            DevCard::YearOfPlenty
        } else {
            DevCard::Monopoly
        }
    }

    pub fn into_usize(self) -> (r: usize)
        ensures
            r == self.spec_index(),
            r < 5,
    {
        match self {
            DevCard::Knight => 0,
            DevCard::VictoryPoint => 1,
            DevCard::RoadBuilding => 2,
            DevCard::YearOfPlenty => 3,
            DevCard::Monopoly => 4,
        }
    }

    pub fn from_usize(n: usize) -> (r: DevCard)
        requires
            n < 5,
        ensures
            r.spec_index() == n,
            r == Self::spec_from_index(n as nat),
    {
        if n == 0 {
            DevCard::Knight
        } else if n == 1 {
            DevCard::VictoryPoint
        } else if n == 2 {
            DevCard::RoadBuilding
        } else if n == 3 {
            DevCard::YearOfPlenty
        } else {
            DevCard::Monopoly
        }
    }
}

impl Player {
    pub open spec fn spec_index(self) -> nat {
        match self {
            Player::Blue => 0,
            Player::Orange => 1,
            Player::Red => 2,
            Player::White => 3,
        }
    }

    pub open spec fn spec_from_index(n: nat) -> Player {
        if n == 0 {
            Player::Blue
        } else if n == 1 {
            Player::Orange
        } else if n == 2 {
            Player::Red
        } else {
            Player::White
        }
    }

    pub fn into_usize(self) -> (r: usize)
        ensures
            r == self.spec_index(),
            r < 4,
    {
        match self {
            Player::Blue => 0,
            Player::Orange => 1,
            Player::Red => 2,
            Player::White => 3,
        }
    }

    pub fn from_usize(n: usize) -> (r: Player)
        requires
            n < 4,
        ensures
            r.spec_index() == n,
            r == Self::spec_from_index(n as nat),
    {
        if n == 0 {
            Player::Blue
        } else if n == 1 {
            Player::Orange
        } else if n == 2 {
            Player::Red
        } else {
            Player::White
        }
    }

    /// The player who moves after this one.
    pub fn next(&self) -> (r: Player)
        ensures
            r.spec_index() == (self.spec_index() + 1) % 4,
    {
        match *self {
            Player::Blue => Player::Orange,
            Player::Orange => Player::Red,
            Player::Red => Player::White,
            Player::White => Player::Blue,
        }
    }

    /// The other three players, in seating order.
    pub fn enemies(&self) -> (r: [Player; 3])
        ensures
            forall|i: int| 0 <= i < 3 ==> r@[i] != *self,
            forall|i: int, j: int| 0 <= i < j < 3 ==> r@[i].spec_index() < r@[j].spec_index(),
    {
        match *self {
            Player::Blue => [Player::Orange, Player::Red, Player::White],
            Player::Orange => [Player::Blue, Player::Red, Player::White],
            Player::Red => [Player::Blue, Player::Orange, Player::White],
            Player::White => [Player::Blue, Player::Orange, Player::Red],
        }
    }
}

impl PlayerTrait for Player {
    open spec fn all() -> Seq<Player> {
        seq![Player::Blue, Player::Orange, Player::Red, Player::White]
    }

    open spec fn seat(self) -> nat {
        self.spec_index()
    }

    fn list() -> (r: Vec<Player>) {
        let r = vec![Player::Blue, Player::Orange, Player::Red, Player::White];
        assert(r@ =~= Self::all());
        r
    }

    fn seat_index(self) -> (r: usize) {
        self.into_usize()
    }
}

impl From<Player> for usize {
    fn from(value: Player) -> (r: usize) {
        value.into_usize()
    }
}

impl vstd::std_specs::convert::FromSpecImpl<Player> for usize {
    open spec fn obeys_from_spec() -> bool {
        true
    }

    open spec fn from_spec(v: Player) -> usize {
        v.spec_index() as usize
    }
}

/// Every resource, in order.
pub fn resources() -> (r: [Resource; 5])
    ensures
        forall|i: int| 0 <= i < 5 ==> (#[trigger] r@[i]).spec_index() == i,
{
    [Resource::Brick, Resource::Grain, Resource::Lumber, Resource::Ore, Resource::Wool]
}

/// Every player, in seating order.
pub fn players() -> (r: [Player; 4])
    ensures
        forall|i: int| 0 <= i < 4 ==> (#[trigger] r@[i]).spec_index() == i,
{
    [Player::Blue, Player::Orange, Player::Red, Player::White]
}

/// The development cards by position, as the bank lists them.
pub fn dev_cards() -> (r: [DevCard; 5])
    ensures
        r@ == seq![
            DevCard::Knight,
            DevCard::VictoryPoint,
            DevCard::RoadBuilding,
            DevCard::YearOfPlenty,
            DevCard::VictoryPoint,
        ],
{
    let r = [
        DevCard::Knight,
        DevCard::VictoryPoint,
        DevCard::RoadBuilding,
        DevCard::YearOfPlenty,
        DevCard::VictoryPoint,
    ];
    assert(r@ =~= seq![
        DevCard::Knight,
        DevCard::VictoryPoint,
        DevCard::RoadBuilding,
        DevCard::YearOfPlenty,
        DevCard::VictoryPoint,
    ]);
    r
}

/// How many of the 36 outcomes of two dice give each total from 2 to 12.
pub fn roll_weights() -> (r: [u32; 11])
    ensures
        forall|i: int| 0 <= i < 11 ==> #[trigger] r@[i] == (if i <= 5 { i + 1 } else { 11 - i }),
{
    [1, 2, 3, 4, 5, 6, 5, 4, 3, 2, 1]
}

// ---------------------------------------------------------------------------
// Numbering of actions
//
// An action is numbered by up to four bytes: the lowest names the kind of
// action, the next ones its arguments.

/// Byte `k` of `n`, counted from the least significant one.
pub open spec fn byte(n: nat, k: nat) -> nat
    decreases k,
{
    if k == 0 {
        n % 256
    } else {
        byte(n / 256, (k - 1) as nat)
    }
}

/// The number of an action, computed without wrap-around.
pub open spec fn encode(a: Action) -> nat {
    match a {
        Action::RollDice => 0,
        Action::Roll(v) => 1 + 256 * (v as nat),
        Action::BuildSettlement(v) => 2 + 256 * (v as nat),
        Action::UpgradeSettlement(v) => 3 + 256 * (v as nat),
        Action::BuildRoad(e) => 4 + 256 * (e as nat),
        Action::BuyDevCard => 5,
        Action::ReceiveDevCard(d) => 6 + 256 * d.spec_index(),
        Action::PlayDevCard(d) => 7 + 256 * d.spec_index(),
        Action::MoveRobber(h) => 8 + 256 * (h as nat),
        Action::DiscardResource(r) => 9 + 256 * r.spec_index(),
        Action::StealFrom(p) => 10 + 256 * p.spec_index(),
        Action::StealResourceFrom(p, r) => 11 + 256 * p.spec_index() + 65536 * r.spec_index(),
        Action::Monopolize(r) => 12 + 256 * r.spec_index(),
        Action::TakeFreeResource(r) => 13 + 256 * r.spec_index(),
        Action::ExchangeResources(((from_r, qty), to_r)) => 14 + 256 * from_r.spec_index() + 65536
            * (qty as nat) + 16777216 * to_r.spec_index(),
        Action::EndTurn => 15,
    }
}

/// The ids that an action carries all fit in a byte.
pub open spec fn fits_in_bytes(a: Action) -> bool {
    match a {
        Action::BuildSettlement(v) => v < 256,
        Action::UpgradeSettlement(v) => v < 256,
        Action::BuildRoad(e) => e < 256,
        Action::MoveRobber(h) => h < 256,
        _ => true,
    }
}

/// The ids that an action carries are small enough to be numbered on any platform.
pub open spec fn fits_in_word(a: Action) -> bool {
    match a {
        Action::BuildSettlement(v) => v < 0x100_0000,
        Action::UpgradeSettlement(v) => v < 0x100_0000,
        Action::BuildRoad(e) => e < 0x100_0000,
        Action::MoveRobber(h) => h < 0x100_0000,
        _ => true,
    }
}

/// The numbers that name an action: the kind byte is at most 15, and each
/// argument byte that names a resource, card or player is in range.
pub open spec fn is_action_number(n: nat) -> bool {
    let b0 = byte(n, 0);
    let b1 = byte(n, 1);
    let b2 = byte(n, 2);
    let b3 = byte(n, 3);
    &&& b0 <= 15
    &&& (b0 == 6 || b0 == 7 || b0 == 9 || b0 == 12 || b0 == 13) ==> b1 < 5
    &&& b0 == 10 ==> b1 < 4
    &&& b0 == 11 ==> b1 < 4 && b2 < 5
    &&& b0 == 14 ==> b1 < 5 && b3 < 5
}

/// The action that a number names; only its four lowest bytes matter.
pub open spec fn decode(n: nat) -> Action {
    let b0 = byte(n, 0);
    let b1 = byte(n, 1);
    let b2 = byte(n, 2);
    let b3 = byte(n, 3);
    if b0 == 0 {
        Action::RollDice
    } else if b0 == 1 {
        Action::Roll(b1 as u8)
    } else if b0 == 2 {
        Action::BuildSettlement(b1 as usize)
    } else if b0 == 3 {
        Action::UpgradeSettlement(b1 as usize)
    } else if b0 == 4 {
        Action::BuildRoad(b1 as usize)
    } else if b0 == 5 {
        Action::BuyDevCard
    } else if b0 == 6 {
        Action::ReceiveDevCard(DevCard::spec_from_index(b1))
    } else if b0 == 7 {
        Action::PlayDevCard(DevCard::spec_from_index(b1))
    } else if b0 == 8 {
        Action::MoveRobber(b1 as usize)
    } else if b0 == 9 {
        Action::DiscardResource(Resource::spec_from_index(b1))
    } else if b0 == 10 {
        Action::StealFrom(Player::spec_from_index(b1))
    } else if b0 == 11 {
        Action::StealResourceFrom(Player::spec_from_index(b1), Resource::spec_from_index(b2))
    } else if b0 == 12 {
        Action::Monopolize(Resource::spec_from_index(b1))
    } else if b0 == 13 {
        Action::TakeFreeResource(Resource::spec_from_index(b1))
    } else if b0 == 14 {
        Action::ExchangeResources(
            ((Resource::spec_from_index(b1), b2 as u8), Resource::spec_from_index(b3)),
        )
    } else {
        Action::EndTurn
    }
}

proof fn lemma_bytes_of(n: usize)
    ensures
        (n & 0xFF) as nat == byte(n as nat, 0),
        ((n >> 8) & 0xFF) as nat == byte(n as nat, 1),
        ((n >> 16) & 0xFF) as nat == byte(n as nat, 2),
        ((n >> 24) & 0xFF) as nat == byte(n as nat, 3),
{
    assert(n & 0xFF == n % 256) by (bit_vector);
    assert((n >> 8) & 0xFF == (n / 256) % 256) by (bit_vector);
    assert((n >> 16) & 0xFF == ((n / 256) / 256) % 256) by (bit_vector);
    assert((n >> 24) & 0xFF == (((n / 256) / 256) / 256) % 256) by (bit_vector);
    assert(byte(n as nat, 1) == byte(n as nat / 256, 0));
    assert(byte(n as nat, 2) == byte(n as nat / 256, 1));
    assert(byte(n as nat / 256, 1) == byte((n as nat / 256) / 256, 0));
    assert(byte(n as nat, 3) == byte(n as nat / 256, 2));
    assert(byte(n as nat / 256, 2) == byte((n as nat / 256) / 256, 1));
    assert(byte((n as nat / 256) / 256, 1) == byte(((n as nat / 256) / 256) / 256, 0));
}

impl Action {
    /// The action that `n` names.
    pub fn from_index(n: usize) -> (r: Action)
        requires
            is_action_number(n as nat),
        ensures
            r == decode(n as nat),
    {
        let b0 = n & 0xFF;
        let b1 = (n >> 8) & 0xFF;
        let b2 = (n >> 16) & 0xFF;
        let b3 = (n >> 24) & 0xFF;
        proof {
            lemma_bytes_of(n);
        }
        if b0 == 0 {
            Action::RollDice
        } else if b0 == 1 {
            Action::Roll(b1 as u8)
        } else if b0 == 2 {
            Action::BuildSettlement(b1)
        } else if b0 == 3 {
            Action::UpgradeSettlement(b1)
        } else if b0 == 4 {
            Action::BuildRoad(b1)
        } else if b0 == 5 {
            Action::BuyDevCard
        } else if b0 == 6 {
            Action::ReceiveDevCard(DevCard::from_usize(b1))
        } else if b0 == 7 {
            Action::PlayDevCard(DevCard::from_usize(b1))
        } else if b0 == 8 {
            Action::MoveRobber(b1)
        } else if b0 == 9 {
            Action::DiscardResource(Resource::from_usize(b1))
        } else if b0 == 10 {
            Action::StealFrom(Player::from_usize(b1))
        } else if b0 == 11 {
            Action::StealResourceFrom(Player::from_usize(b1), Resource::from_usize(b2))
        } else if b0 == 12 {
            Action::Monopolize(Resource::from_usize(b1))
        } else if b0 == 13 {
            Action::TakeFreeResource(Resource::from_usize(b1))
        } else if b0 == 14 {
            Action::ExchangeResources(
                ((Resource::from_usize(b1), b2 as u8), Resource::from_usize(b3)),
            )
        } else {
            Action::EndTurn
        }
    }

    /// The number of this action.
    pub fn into_index(self) -> (r: usize)
        requires
            fits_in_word(self),
        ensures
            r == encode(self),
    {
        match self {
            Action::RollDice => 0,
            Action::Roll(v) => 1 + 256 * (v as usize),
            Action::BuildSettlement(v) => 2 + 256 * v,
            Action::UpgradeSettlement(v) => 3 + 256 * v,
            Action::BuildRoad(e) => 4 + 256 * e,
            Action::BuyDevCard => 5,
            Action::ReceiveDevCard(d) => 6 + 256 * d.into_usize(),
            Action::PlayDevCard(d) => 7 + 256 * d.into_usize(),
            Action::MoveRobber(h) => 8 + 256 * h,
            Action::DiscardResource(r) => 9 + 256 * r.into_usize(),
            Action::StealFrom(p) => 10 + 256 * p.into_usize(),
            Action::StealResourceFrom(p, r) => 11 + 256 * p.into_usize() + 65536 * r.into_usize(),
            Action::Monopolize(r) => 12 + 256 * r.into_usize(),
            Action::TakeFreeResource(r) => 13 + 256 * r.into_usize(),
            Action::ExchangeResources(((from_r, qty), to_r)) => {
                14 + 256 * from_r.into_usize() + 65536 * (qty as usize) + 16777216
                    * to_r.into_usize()
            },
            Action::EndTurn => 15,
        }
    }
}

/// Numbering an action and reading the number back gives the same action,
/// for every action whose ids fit in a byte.
#[verifier::spinoff_prover]
#[verifier::rlimit(40)]
pub proof fn lemma_action_round_trip(a: Action)
    requires
        fits_in_bytes(a),
    ensures
        is_action_number(encode(a)),
        decode(encode(a)) == a,
{
    let n = encode(a);
    match a {
        Action::RollDice => lemma_bytes_of_sum(n, 0, 0, 0, 0),
        Action::Roll(v) => lemma_bytes_of_sum(n, 1, v as nat, 0, 0),
        Action::BuildSettlement(v) => lemma_bytes_of_sum(n, 2, v as nat, 0, 0),
        Action::UpgradeSettlement(v) => lemma_bytes_of_sum(n, 3, v as nat, 0, 0),
        Action::BuildRoad(e) => lemma_bytes_of_sum(n, 4, e as nat, 0, 0),
        Action::BuyDevCard => lemma_bytes_of_sum(n, 5, 0, 0, 0),
        Action::ReceiveDevCard(d) => lemma_bytes_of_sum(n, 6, d.spec_index(), 0, 0),
        Action::PlayDevCard(d) => lemma_bytes_of_sum(n, 7, d.spec_index(), 0, 0),
        Action::MoveRobber(h) => lemma_bytes_of_sum(n, 8, h as nat, 0, 0),
        Action::DiscardResource(r) => lemma_bytes_of_sum(n, 9, r.spec_index(), 0, 0),
        Action::StealFrom(p) => lemma_bytes_of_sum(n, 10, p.spec_index(), 0, 0),
        Action::StealResourceFrom(p, r) => lemma_bytes_of_sum(
            n,
            11,
            p.spec_index(),
            r.spec_index(),
            0,
        ),
        Action::Monopolize(r) => lemma_bytes_of_sum(n, 12, r.spec_index(), 0, 0),
        Action::TakeFreeResource(r) => lemma_bytes_of_sum(n, 13, r.spec_index(), 0, 0),
        Action::ExchangeResources(((from_r, qty), to_r)) => lemma_bytes_of_sum(
            n,
            14,
            from_r.spec_index(),
            qty as nat,
            to_r.spec_index(),
        ),
        Action::EndTurn => lemma_bytes_of_sum(n, 15, 0, 0, 0),
    }
}

proof fn lemma_bytes_of_sum(n: nat, t: nat, f1: nat, f2: nat, f3: nat)
    requires
        n == t + 256 * f1 + 65536 * f2 + 16777216 * f3,
        t < 256,
        f1 < 256,
        f2 < 256,
        f3 < 256,
    ensures
        byte(n, 0) == t,
        byte(n, 1) == f1,
        byte(n, 2) == f2,
        byte(n, 3) == f3,
{
    let n1 = f1 + 256 * f2 + 65536 * f3;
    let n2 = f2 + 256 * f3;
    assert(n % 256 == t && n / 256 == n1) by (nonlinear_arith)
        requires
            n == t + 256 * n1,
            t < 256,
    ;
    assert(n1 % 256 == f1 && n1 / 256 == n2) by (nonlinear_arith)
        requires
            n1 == f1 + 256 * n2,
            f1 < 256,
    ;
    assert(n2 % 256 == f2 && n2 / 256 == f3) by (nonlinear_arith)
        requires
            n2 == f2 + 256 * f3,
            f2 < 256,
    ;
    assert(f3 % 256 == f3);
    assert(byte(n, 1) == byte(n1, 0));
    assert(byte(n, 2) == byte(n1, 1));
    assert(byte(n1, 1) == byte(n2, 0));
    assert(byte(n, 3) == byte(n1, 2));
    assert(byte(n1, 2) == byte(n2, 1));
    assert(byte(n2, 1) == byte(f3, 0));
}

} // verus!
