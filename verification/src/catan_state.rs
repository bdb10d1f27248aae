//! The rules of a game of Catan: whose turn it is, which actions are open,
//! and what each action does to the bank, the hands and the board.
use vstd::prelude::*;
use crate::adjacency::below;
use crate::bank::Bank;
use crate::bitboard::{Bitboard, ascending};
use crate::board::{Board, lemma_road_marker_leads, pidx, road_added, road_marker_valid, settlement_added, share};
use crate::catan_common::{
    Action, DevCard, EdgeId, HexId, HiddenHand, InitialObservation, N_EDGES, N_HEXES, N_VERTICES,
    Observation, ObserverHand, Player, Purchasable, Resource, VertexId, dev_cards, players,
    resources, roll_weights,
};
use crate::chance::random_weighted_index;
use crate::common::{chars_to_string, numeral, push_str, Outcome};
use crate::road_trails::{RoadTrailTable, table_complete};

verus! {

/// The stage of a turn, which decides who acts and what they may do.
#[derive(Debug, Clone, Copy)]
pub enum Phase {
    /// The current player trades, builds, buys and plays cards, or ends the turn.
    Normal,
    /// The dice are about to be rolled.
    Rolling,
    /// The opening placement of settlements and roads.
    Setup,
    /// Players with too many cards discard; the counts still to discard, by player.
    Discarding([u8; 4]),
    /// The current player moves the robber.
    MovingRobber,
    /// The current player picks whom to rob at the robber's hex.
    StealingFromHex(HexId),
    /// A card is drawn at random from this player's hand.
    StealingFromPlayer(Player),
    /// The roads still to build for free.
    RoadBuilding(u8),
    /// The resource cards still to take for free.
    YearOfPlenty(u8),
    /// The current player names a resource to take from everyone.
    Monopoly,
    /// A development card is drawn at random from the bank.
    BuyingDevCard,
}

/// The price of each purchase, by resource (brick, grain, lumber, ore, wool).
pub open spec fn spec_buy_cost(item: Purchasable) -> Seq<u8> {
    match item {
        Purchasable::Road => seq![1u8, 0, 1, 0, 0],
        Purchasable::Settlement => seq![1u8, 1, 1, 0, 1],
        Purchasable::City => seq![0u8, 2, 0, 3, 0],
        Purchasable::DevCard => seq![0u8, 1, 0, 1, 1],
    }
}

/// A player's name, as its `Debug` form writes it.
pub open spec fn player_name(p: Player) -> Seq<char> {
    match p {
        Player::Blue => "Blue"@,
        Player::Orange => "Orange"@,
        Player::Red => "Red"@,
        Player::White => "White"@,
    }
}

fn push_player_name(out: &mut Vec<char>, p: Player)
    ensures
        final(out)@ == old(out)@ + player_name(p),
{
    match p {
        Player::Blue => push_str(out, "Blue"),
        Player::Orange => push_str(out, "Orange"),
        Player::Red => push_str(out, "Red"),
        Player::White => push_str(out, "White"),
    }
}

/// The lines of the first `n` players: each player's name, a space, and its
/// buildings as a bitboard in hexadecimal.
pub open spec fn buildings_text(s: State, n: nat) -> Seq<char>
    decreases n,
{
    if n == 0 {
        Seq::empty()
    } else {
        buildings_text(s, (n - 1) as nat) + player_name(Player::spec_from_index((n - 1) as nat)) + " "@
            + "Bitboard "@ + numeral(s.board.player_buildings@[n - 1].value as nat, 16) + "\n"@
    }
}

pub fn buy_cost(item: Purchasable) -> (r: [u8; 5])
    ensures
        r@ == spec_buy_cost(item),
{
    let r: [u8; 5] = match item {
        Purchasable::Road => [1, 0, 1, 0, 0],
        Purchasable::Settlement => [1, 1, 1, 0, 1],
        Purchasable::City => [0, 2, 0, 3, 0],
        Purchasable::DevCard => [0, 1, 0, 1, 1],
    };
    assert(r@ =~= spec_buy_cost(item));
    r
}

pub open spec fn sum5(b: Seq<u8>) -> int {
    b[0] + b[1] + b[2] + b[3] + b[4]
}

pub open spec fn sum4(b: Seq<u8>) -> int {
    b[0] + b[1] + b[2] + b[3]
}

/// Points from buildings: one per settlement, two per city.


/// The first player with cards left to discard.
pub open spec fn first_discarder(remaining: Seq<u8>) -> Player {
    if remaining[0] > 0 {
        Player::Blue
    } else if remaining[1] > 0 {
        Player::Orange
    } else if remaining[2] > 0 {
        Player::Red
    } else {
        Player::White
    }
}

/// Moves of the robber to each hex below `n` but the one it is on.
pub open spec fn robber_moves(robber: nat, n: nat) -> Seq<Action>
    decreases n,
{
    if n == 0 {
        Seq::empty()
    } else {
        let prev = robber_moves(robber, (n - 1) as nat);
        if (n - 1) as nat != robber {
            prev.push(Action::MoveRobber((n - 1) as usize))
        } else {
            prev
        }
    }
}

/// The hand holds at least one card.
pub open spec fn has_cards(hand: Seq<u8>) -> bool {
    exists|k: int| 0 <= k < 5 && hand[k] > 0
}

/// One action per resource below `n` whose count in `counts` is positive.
pub open spec fn per_resource(counts: Seq<u8>, n: nat, kind: spec_fn(Resource) -> Action) -> Seq<Action>
    decreases n,
{
    if n == 0 {
        Seq::empty()
    } else {
        let prev = per_resource(counts, (n - 1) as nat, kind);
        if counts[n - 1] > 0 {
            prev.push(kind(Resource::spec_from_index((n - 1) as nat)))
        } else {
            prev
        }
    }
}

/// The positive counts among the first `n`, in order.
pub open spec fn positive_counts(counts: Seq<u8>, n: nat) -> Seq<u32>
    decreases n,
{
    if n == 0 {
        Seq::empty()
    } else {
        let prev = positive_counts(counts, (n - 1) as nat);
        if counts[n - 1] > 0 {
            prev.push(counts[n - 1] as u32)
        } else {
            prev
        }
    }
}

/// The development card listed at position `i` of the bank's draw table.
pub open spec fn drawn_card(i: int) -> DevCard {
    seq![DevCard::Knight, DevCard::VictoryPoint, DevCard::RoadBuilding, DevCard::YearOfPlenty, DevCard::VictoryPoint][i]
}

/// A draw for each position below `n` whose count is positive.
pub open spec fn dev_draws(counts: Seq<u8>, n: nat) -> Seq<Action>
    decreases n,
{
    if n == 0 {
        Seq::empty()
    } else {
        let prev = dev_draws(counts, (n - 1) as nat);
        if counts[n - 1] > 0 {
            prev.push(Action::ReceiveDevCard(drawn_card(n - 1)))
        } else {
            prev
        }
    }
}

/// Trades of `ratios[r1]` cards of resource `r1` for one of each resource
/// below `n` other than `r1` that the bank has.
pub open spec fn trades_from(ratios: Seq<u8>, stock: Seq<u8>, r1: int, n: nat) -> Seq<Action>
    decreases n,
{
    if n == 0 {
        Seq::empty()
    } else {
        let prev = trades_from(ratios, stock, r1, (n - 1) as nat);
        if r1 != n - 1 && stock[n - 1] != 0 {
            prev.push(
                Action::ExchangeResources(
                    ((Resource::spec_from_index(r1 as nat), ratios[r1]), Resource::spec_from_index((n - 1) as nat)),
                ),
            )
        } else {
            prev
        }
    }
}

/// The trades of every resource below `n` that the hand holds enough of.
pub open spec fn trades(ratios: Seq<u8>, hand: Seq<u8>, stock: Seq<u8>, n: nat) -> Seq<Action>
    decreases n,
{
    if n == 0 {
        Seq::empty()
    } else {
        let prev = trades(ratios, hand, stock, (n - 1) as nat);
        if hand[n - 1] >= ratios[n - 1] {
            prev + trades_from(ratios, stock, n - 1, 5)
        } else {
            prev
        }
    }
}

/// The rolls of two dice, from 2 to 12.
pub open spec fn roll_actions() -> Seq<Action> {
    Seq::new(11, |i: int| Action::Roll((i + 2) as u8))
}

/// How many of the 36 throws of two dice give each total from 2 to 12.
pub open spec fn roll_weight_seq() -> Seq<u32> {
    Seq::new(11, |i: int| if i <= 5 { (i + 1) as u32 } else { (11 - i) as u32 })
}

/// The action that builds or buys `item` at `id`.
pub open spec fn build_action(item: Purchasable, id: nat) -> Action {
    match item {
        Purchasable::Road => Action::BuildRoad(id as usize),
        Purchasable::Settlement => Action::BuildSettlement(id as usize),
        Purchasable::City => Action::UpgradeSettlement(id as usize),
        Purchasable::DevCard => Action::BuyDevCard,
    }
}

pub open spec fn build_actions(item: Purchasable, ids: Seq<nat>) -> Seq<Action> {
    ids.map_values(|id: nat| build_action(item, id))
}

/// One `kind` action per id, in order.
fn actions_for(item: Purchasable, ids: &Vec<usize>) -> (r: Vec<Action>)
    ensures
        r@ == build_actions(item, ids@.map_values(|x: usize| x as nat)),
{
    let mut r: Vec<Action> = Vec::new();
    let mut i: usize = 0;
    while i < ids.len()
        invariant
            i <= ids.len(),
            r@ == build_actions(item, ids@.subrange(0, i as int).map_values(|x: usize| x as nat)),
        decreases ids.len() - i,
    {
        let id = ids[i];
        let a = match item {
            Purchasable::Road => Action::BuildRoad(id),
            Purchasable::Settlement => Action::BuildSettlement(id),
            Purchasable::City => Action::UpgradeSettlement(id),
            Purchasable::DevCard => Action::BuyDevCard,
        };
        r.push(a);
        proof {
            assert(ids@.subrange(0, i + 1).map_values(|x: usize| x as nat) =~= ids@.subrange(0, i as int).map_values(
                |x: usize| x as nat,
            ).push(id as nat));
        }
        i = i + 1;
    }
    assert(ids@.subrange(0, ids.len() as int) =~= ids@);
    r
}

/// Every cost is within the matching count.
fn covers(cost: &[u8; 5], have: &[u8; 5]) -> (r: bool)
    ensures
        r == forall|k: int| 0 <= k < 5 ==> cost@[k] <= have@[k],
{
    cost[0] <= have[0] && cost[1] <= have[1] && cost[2] <= have[2] && cost[3] <= have[3] && cost[4] <= have[4]
}

/// `d` as whole numbers.
pub open spec fn ints(d: Seq<u8>) -> Seq<int> {
    Seq::new(5, |k: int| d[k] as int)
}

/// A bundle with `n` cards of resource `k`.
pub open spec fn single(k: int, n: int) -> Seq<int> {
    Seq::new(5, |i: int| if i == k { n } else { 0int })
}

pub open spec fn min_int(a: int, b: int) -> int {
    if a <= b {
        a
    } else {
        b
    }
}

pub open spec fn max4(a: Seq<u8>) -> int {
    let m01 = if a[0] >= a[1] { a[0] as int } else { a[1] as int };
    let m23 = if a[2] >= a[3] { a[2] as int } else { a[3] as int };
    if m01 >= m23 {
        m01
    } else {
        m23
    }
}

/// What the first `n` players receive together of resource `k`.
pub open spec fn shares_below(b: Board, roll: int, k: int, stock: nat, n: int) -> int
    decreases n,
{
    if n <= 0 {
        0
    } else {
        shares_below(b, roll, k, stock, n - 1) + share(b, roll, k, n - 1, stock)
    }
}

/// The bank never pays out more of a resource than it holds.
proof fn lemma_shares_fit(b: Board, roll: int, k: int, stock: nat)
    ensures
        shares_below(b, roll, k, stock, 4) <= stock,
{
    reveal_with_fuel(shares_below, 5);
    crate::board::lemma_shares_within_stock(b, roll, k, stock);
}

/// The buildings at `ids` owned by `p`, marked as cities or not.
pub open spec fn building_entries(p: Player, ids: Seq<nat>, city: bool) -> Seq<(Player, VertexId, bool)> {
    ids.map_values(|v: nat| (p, v as usize, city))
}

pub open spec fn road_entries(p: Player, ids: Seq<nat>) -> Seq<(Player, EdgeId)> {
    ids.map_values(|e: nat| (p, e as usize))
}

/// One tagged entry per id, in order.
fn tag_buildings(p: Player, ids: &Vec<usize>, city: bool, out: &mut Vec<(Player, VertexId, bool)>)
    ensures
        final(out)@ == old(out)@ + building_entries(p, ids@.map_values(|x: usize| x as nat), city),
{
    let ghost start = out@;
    let mut i: usize = 0;
    while i < ids.len()
        invariant
            i <= ids.len(),
            out@ == start + building_entries(p, ids@.subrange(0, i as int).map_values(|x: usize| x as nat), city),
        decreases ids.len() - i,
    {
        out.push((p, ids[i], city));
        proof {
            assert(building_entries(p, ids@.subrange(0, i + 1).map_values(|x: usize| x as nat), city) =~= building_entries(
                p,
                ids@.subrange(0, i as int).map_values(|x: usize| x as nat),
                city,
            ).push((p, ids@[i as int], city)));
        }
        i = i + 1;
    }
    assert(ids@.subrange(0, ids.len() as int) =~= ids@);
}

fn tag_roads(p: Player, ids: &Vec<usize>, out: &mut Vec<(Player, EdgeId)>)
    ensures
        final(out)@ == old(out)@ + road_entries(p, ids@.map_values(|x: usize| x as nat)),
{
    let ghost start = out@;
    let mut i: usize = 0;
    while i < ids.len()
        invariant
            i <= ids.len(),
            out@ == start + road_entries(p, ids@.subrange(0, i as int).map_values(|x: usize| x as nat)),
        decreases ids.len() - i,
    {
        out.push((p, ids[i]));
        proof {
            assert(road_entries(p, ids@.subrange(0, i + 1).map_values(|x: usize| x as nat)) =~= road_entries(
                p,
                ids@.subrange(0, i as int).map_values(|x: usize| x as nat),
            ).push((p, ids@[i as int])));
        }
        i = i + 1;
    }
    assert(ids@.subrange(0, ids.len() as int) =~= ids@);
}

/// A game of Catan in progress.
#[derive(Clone)]
pub struct State {
    pub phase: Phase,
    pub bank: Bank,
    pub board: Board,
    pub whose_turn: Player,
    pub turn_order: [Player; 4],
    /// Each player's resource cards, by resource.
    pub player_resources: [[u8; 5]; 4],
    /// The knights each player has played.
    pub armies: [u8; 4],
    pub army_leader: Option<Player>,
    /// Each player's development cards, by kind.
    pub dev_cards: [[u8; 5]; 4],
    /// The kinds of development card bought this turn, which cannot be played yet.
    pub locked_dev_cards: [bool; 5],
    pub has_played_dev_card: bool,
}

impl State {
    pub open spec fn hand(&self, p: Player) -> Seq<u8> {
        self.player_resources@[pidx(p)]@
    }

    pub open spec fn cards(&self, p: Player) -> Seq<u8> {
        self.dev_cards@[pidx(p)]@
    }

    pub open spec fn spec_victory_points(&self, p: Player) -> int {
        self.board.spec_victory_points(p) + self.cards(p)[1] + if self.army_leader == Some(p) {
            2int
        } else {
            0int
        }
    }

    /// The board is well formed and the turn order seats every player once.
    pub open spec fn wf(&self) -> bool {
        &&& self.board.wf()
        &&& self.turn_order@ == seq![Player::Blue, Player::Orange, Player::Red, Player::White]
    }

    /// Everything but the bank's resources and the hands is as in `other`.
    pub open spec fn same_but_resources(&self, other: State) -> bool {
        &&& self.phase == other.phase
        &&& self.bank.buildings == other.bank.buildings
        &&& self.bank.dev_cards == other.bank.dev_cards
        &&& self.board == other.board
        &&& self.whose_turn == other.whose_turn
        &&& self.turn_order == other.turn_order
        &&& self.armies == other.armies
        &&& self.army_leader == other.army_leader
        &&& self.dev_cards == other.dev_cards
        &&& self.locked_dev_cards == other.locked_dev_cards
        &&& self.has_played_dev_card == other.has_played_dev_card
    }

    /// `new` is `old` with `gain` moved from the bank into `p`'s hand.
    pub open spec fn moved_to(old: State, new: State, p: Player, gain: Seq<u8>) -> bool {
        &&& new.same_but_resources(old)
        &&& forall|k: int| 0 <= k < 5 ==> #[trigger] new.bank.resources@[k] == old.bank.resources@[k] - gain[k]
        &&& forall|q: Player, k: int| 0 <= k < 5 ==> #[trigger] new.hand(q)[k] == old.hand(q)[k] + if q == p {
            gain[k] as int
        } else {
            0int
        }
    }

    /// `new` is `old` with `loss` moved from `p`'s hand into the bank.
    pub open spec fn moved_from(old: State, new: State, p: Player, loss: Seq<u8>) -> bool {
        &&& new.same_but_resources(old)
        &&& forall|k: int| 0 <= k < 5 ==> #[trigger] new.bank.resources@[k] == old.bank.resources@[k] + loss[k]
        &&& forall|q: Player, k: int| 0 <= k < 5 ==> #[trigger] new.hand(q)[k] == old.hand(q)[k] - if q == p {
            loss[k] as int
        } else {
            0int
        }
    }

    /// A game on `board` before the first roll: the bank full, the hands empty,
    /// Blue to roll.
    pub fn with_board(board: Board) -> (r: State)
        requires
            board.wf(),
        ensures
            r.wf(),
            r.board == board,
            r.phase matches Phase::Rolling,
            r.bank.resources@ == seq![19u8, 19, 19, 19, 19],
            forall|p: int| 0 <= p < 4 ==> #[trigger] r.bank.buildings@[p]@ == seq![13u8, 5, 4, 0],
            r.bank.dev_cards@ == seq![14u8, 5, 2, 2, 2],
            r.whose_turn == Player::Blue,
            forall|p: Player, k: int| 0 <= k < 5 ==> #[trigger] r.hand(p)[k] == 0,
            forall|p: Player, k: int| 0 <= k < 5 ==> #[trigger] r.cards(p)[k] == 0,
            r.armies@ == seq![0u8, 0, 0, 0],
            r.army_leader is None,
            r.locked_dev_cards@ == seq![false, false, false, false, false],
            !r.has_played_dev_card,
    {
        let bank = Bank::bank();
        let empty: [u8; 5] = [0, 0, 0, 0, 0];
        let r = State {
            bank,
            board,
            whose_turn: Player::Blue,
            turn_order: [Player::Blue, Player::Orange, Player::Red, Player::White],
            player_resources: [empty, empty, empty, empty],
            armies: [0, 0, 0, 0],
            dev_cards: [empty, empty, empty, empty],
            locked_dev_cards: [false, false, false, false, false],
            army_leader: None,
            has_played_dev_card: false,
            phase: Phase::Rolling,
        };
        assert(r.turn_order@ =~= seq![Player::Blue, Player::Orange, Player::Red, Player::White]);
        assert(r.armies@ =~= seq![0u8, 0, 0, 0]);
        assert(r.locked_dev_cards@ =~= seq![false, false, false, false, false]);
        r
    }

    /// The parts of what every player sees that never change.
    pub fn observe_initial(&self) -> (r: InitialObservation)
        ensures
            r.resources@ == self.board.shared_data.resources@,
            r.rolls@ == self.board.shared_data.rolls@,
    {
        self.board.game_map()
    }

    /// One point per settlement, two per city, one per victory point card, two
    /// for the largest army and two for the longest road.
    pub fn victory_points(&self, player: Player) -> (r: u32)
        ensures
            r == self.spec_victory_points(player),
    {
        let from_board = self.board.victory_points(player);
        proof {
            let b = self.board.player_buildings@[pidx(player)];
            b.lemma_view_finite();
            crate::bitboard::lemma_full_len::<u64>();
            vstd::set_lib::lemma_len_subset(b@, Bitboard::<u64>::full());
            vstd::set_lib::lemma_len_subset(b@.intersect(self.board.cities@), b@);
        }
        let largest_army: u32 = if self.army_leader == Some(player) {
            2
        } else {
            0
        };
        from_board + self.dev_cards[player.into_usize()][1] as u32 + largest_army
    }

    /// The player to act: in the discarding phase the first player with
    /// cards left to discard, otherwise the player whose turn it is.
    pub open spec fn spec_current_player(&self) -> Player {
        match self.phase {
            Phase::Discarding(remaining) => first_discarder(remaining@),
            _ => self.whose_turn,
        }
    }

    /// The player to act is known: not during the opening placement, and not
    /// while discarding with nothing left to discard.
    pub open spec fn has_current_player(&self) -> bool {
        match self.phase {
            Phase::Setup => false,
            Phase::Discarding(remaining) => sum4(remaining@) > 0,
            _ => true,
        }
    }

    pub fn current_player(&self) -> (r: Player)
        requires
            self.has_current_player(),
        ensures
            r == self.spec_current_player(),
    {
        match self.phase {
            Phase::Discarding(remaining) => {
                if remaining[0] > 0 {
                    Player::Blue
                } else if remaining[1] > 0 {
                    Player::Orange
                } else if remaining[2] > 0 {
                    Player::Red
                } else {
                    Player::White
                }
            },
            _ => self.whose_turn,
        }
    }

    /// The robber may go to any hex but its own.
    pub fn get_robber_actions(&self) -> (r: Vec<Action>)
        ensures
            r@ == robber_moves(self.board.robber as nat, N_HEXES as nat),
    {
        let mut r: Vec<Action> = Vec::new();
        let mut id: usize = 0;
        while id < N_HEXES
            invariant
                id <= N_HEXES,
                r@ == robber_moves(self.board.robber as nat, id as nat),
            decreases N_HEXES - id,
        {
            if id != self.board.robber_hex_id() {
                r.push(Action::MoveRobber(id));
            }
            id = id + 1;
        }
        r
    }

    /// The robbing choices among `list`: each player other than the current
    /// one who holds a card.
    pub open spec fn steal_targets(&self, list: Seq<Player>) -> Seq<Action>
        decreases list.len(),
    {
        if list.len() == 0 {
            Seq::empty()
        } else {
            let prev = self.steal_targets(list.drop_last());
            let p = list.last();
            if p != self.spec_current_player() && has_cards(self.hand(p)) {
                prev.push(Action::StealFrom(p))
            } else {
                prev
            }
        }
    }

    pub open spec fn hex_steals(&self, hex_id: nat) -> Seq<Action> {
        self.steal_targets(self.board.players_touching(self.board.adj().h2v(hex_id), 4))
    }

    /// The players at `hex_id` that the current player may rob.
    pub fn get_hex_steal_actions(&self, hex_id: HexId) -> (r: Vec<Action>)
        requires
            self.wf(),
            self.has_current_player(),
            hex_id < N_HEXES,
        ensures
            r@ == self.hex_steals(hex_id as nat),
    {
        let on_hex = self.board.players_on_hex(hex_id);
        let current = self.current_player();
        let mut r: Vec<Action> = Vec::new();
        let mut i: usize = 0;
        while i < on_hex.len()
            invariant
                i <= on_hex.len(),
                current == self.spec_current_player(),
                r@ == self.steal_targets(on_hex@.subrange(0, i as int)),
            decreases on_hex.len() - i,
        {
            let p = on_hex[i];
            let hand = &self.player_resources[p.into_usize()];
            let holds = hand[0] > 0 || hand[1] > 0 || hand[2] > 0 || hand[3] > 0 || hand[4] > 0;
            proof {
                let next = on_hex@.subrange(0, i + 1);
                assert(next.drop_last() =~= on_hex@.subrange(0, i as int));
                assert(next.last() == p);
                if holds {
                    assert(has_cards(self.hand(p)));
                } else {
                    assert(!has_cards(self.hand(p)));
                }
            }
            if p != current && holds {
                r.push(Action::StealFrom(p));
            }
            i = i + 1;
        }
        assert(on_hex@.subrange(0, on_hex.len() as int) =~= on_hex@);
        r
    }

    /// Which card is taken from `target`: one action per resource it holds,
    /// weighted by how many it holds.
    pub fn get_player_steal_actions(&self, target: Player) -> (r: (Vec<Action>, Option<Vec<u32>>))
        ensures
            r.0@ == per_resource(self.hand(target), 5, |res: Resource| Action::StealResourceFrom(target, res)),
            r.1 matches Some(w) && w@ == positive_counts(self.hand(target), 5),
    {
        let counts = &self.player_resources[target.into_usize()];
        let all = resources();
        let mut actions: Vec<Action> = Vec::new();
        let mut weights: Vec<u32> = Vec::new();
        let mut i: usize = 0;
        while i < 5
            invariant
                i <= 5,
                counts@ == self.hand(target),
                forall|k: int| 0 <= k < 5 ==> (#[trigger] all@[k]) == Resource::spec_from_index(k as nat),
                actions@ == per_resource(self.hand(target), i as nat, |res: Resource| Action::StealResourceFrom(target, res)),
                weights@ == positive_counts(self.hand(target), i as nat),
            decreases 5 - i,
        {
            if counts[i] > 0 {
                actions.push(Action::StealResourceFrom(target, all[i]));
                weights.push(counts[i] as u32);
            }
            i = i + 1;
        }
        (actions, Some(weights))
    }

    /// A discard of each resource `player` holds.
    pub fn get_discard_actions(&self, player: Player) -> (r: Vec<Action>)
        ensures
            r@ == per_resource(self.hand(player), 5, |res: Resource| Action::DiscardResource(res)),
    {
        let counts = &self.player_resources[player.into_usize()];
        let all = resources();
        let mut actions: Vec<Action> = Vec::new();
        let mut i: usize = 0;
        while i < 5
            invariant
                i <= 5,
                counts@ == self.hand(player),
                forall|k: int| 0 <= k < 5 ==> (#[trigger] all@[k]) == Resource::spec_from_index(k as nat),
                actions@ == per_resource(self.hand(player), i as nat, |res: Resource| Action::DiscardResource(res)),
            decreases 5 - i,
        {
            if counts[i] > 0 {
                actions.push(Action::DiscardResource(all[i]));
            }
            i = i + 1;
        }
        actions
    }

    /// The trades with the bank open to `player`: for each resource it holds
    /// enough of at its ratio, one card of each other resource the bank has.
    pub fn get_exchange_actions(&self, player: Player) -> (r: Vec<Action>)
        requires
            self.wf(),
        ensures
            r@ == trades(
                Seq::new(5, |k: int| self.board.ratio(player, k)),
                self.hand(player),
                self.bank.resources@,
                5,
            ),
    {
        let ratios = self.board.exchange_ratios(player);
        let ghost rs = Seq::new(5, |k: int| self.board.ratio(player, k));
        assert(ratios@ =~= rs);
        let hand = &self.player_resources[player.into_usize()];
        let all = resources();
        let mut actions: Vec<Action> = Vec::new();
        let mut i: usize = 0;
        while i < 5
            invariant
                i <= 5,
                ratios@ == rs,
                hand@ == self.hand(player),
                forall|k: int| 0 <= k < 5 ==> (#[trigger] all@[k]) == Resource::spec_from_index(k as nat),
                actions@ == trades(rs, self.hand(player), self.bank.resources@, i as nat),
            decreases 5 - i,
        {
            if hand[i] >= ratios[i] {
                let ghost before = actions@;
                let mut j: usize = 0;
                while j < 5
                    invariant
                        i < 5,
                        j <= 5,
                        ratios@ == rs,
                        forall|k: int| 0 <= k < 5 ==> (#[trigger] all@[k]) == Resource::spec_from_index(k as nat),
                        actions@ == before + trades_from(rs, self.bank.resources@, i as int, j as nat),
                    decreases 5 - j,
                {
                    if i != j && self.bank.resources[j] != 0 {
                        actions.push(Action::ExchangeResources(((all[i], ratios[i]), all[j])));
                    }
                    proof {
                        let t = trades_from(rs, self.bank.resources@, i as int, j as nat);
                        if i != j && self.bank.resources@[j as int] != 0 {
                            assert(before + t.push(Action::ExchangeResources(((all[i as int], ratios[i as int]), all[j as int])))
                                =~= (before + t).push(Action::ExchangeResources(((all[i as int], ratios[i as int]), all[j as int]))));
                        }
                    }
                    j = j + 1;
                }
            }
            i = i + 1;
        }
        actions
    }

    /// A draw for each kind of development card the bank holds, weighted by its count.
    pub fn get_receive_dev_card_actions(&self) -> (r: (Vec<Action>, Option<Vec<u32>>))
        ensures
            r.0@ == dev_draws(self.bank.dev_cards@, 5),
            r.1 matches Some(w) && w@ == positive_counts(self.bank.dev_cards@, 5),
    {
        let counts = self.bank.dev_card_weights();
        let table = dev_cards();
        let mut actions: Vec<Action> = Vec::new();
        let mut weights: Vec<u32> = Vec::new();
        let mut i: usize = 0;
        while i < 5
            invariant
                i <= 5,
                counts.len() == 5,
                forall|k: int| 0 <= k < 5 ==> #[trigger] counts@[k] == self.bank.dev_cards@[k],
                forall|k: int| 0 <= k < 5 ==> #[trigger] table@[k] == drawn_card(k),
                actions@ == dev_draws(self.bank.dev_cards@, i as nat),
                weights@ == positive_counts(self.bank.dev_cards@, i as nat),
            decreases 5 - i,
        {
            if counts[i] > 0 {
                actions.push(Action::ReceiveDevCard(table[i]));
                weights.push(counts[i]);
            }
            i = i + 1;
        }
        (actions, Some(weights))
    }

    /// The first `remaining` free roads open to `player`, lowest edges first.
    pub fn get_road_building_actions(&self, player: Player, remaining: u8) -> (r: Vec<Action>)
        requires
            self.board.road_slots@.intersect(self.board.player_road_slots@[pidx(player)]@) != Set::<nat>::empty(),
        ensures
            r@ == build_actions(
                Purchasable::Road,
                ascending(self.board.road_slots@.intersect(self.board.player_road_slots@[pidx(player)]@), 128).take(
                    if (remaining as int) < ascending(self.board.road_slots@.intersect(self.board.player_road_slots@[pidx(player)]@), 128).len() {
                        remaining as int
                    } else {
                        ascending(self.board.road_slots@.intersect(self.board.player_road_slots@[pidx(player)]@), 128).len() as int
                    },
                ),
            ),
    {
        let slots = self.board.available_roads(player);
        let ids = slots.values();
        let ghost all = ids@.map_values(|x: usize| x as nat);
        let mut taken: Vec<usize> = Vec::new();
        let mut i: usize = 0;
        while i < ids.len() && i < remaining as usize
            invariant
                i <= ids.len(),
                i <= remaining,
                taken@ == ids@.subrange(0, i as int),
            decreases ids.len() - i,
        {
            taken.push(ids[i]);
            assert(taken@ =~= ids@.subrange(0, i + 1));
            i = i + 1;
        }
        proof {
            let n = if (remaining as int) < all.len() { remaining as int } else { all.len() as int };
            assert(all.len() == ids.len());
            assert(i == n);
            assert(taken@.map_values(|x: usize| x as nat) =~= all.take(n));
        }
        actions_for(Purchasable::Road, &taken)
    }

    /// A free card of each resource the bank holds.
    pub fn get_year_of_plenty_actions(&self) -> (r: Vec<Action>)
        ensures
            r@ == per_resource(self.bank.resources@, 5, |res: Resource| Action::TakeFreeResource(res)),
    {
        let all = resources();
        let mut actions: Vec<Action> = Vec::new();
        let mut i: usize = 0;
        while i < 5
            invariant
                i <= 5,
                forall|k: int| 0 <= k < 5 ==> (#[trigger] all@[k]) == Resource::spec_from_index(k as nat),
                actions@ == per_resource(self.bank.resources@, i as nat, |res: Resource| Action::TakeFreeResource(res)),
            decreases 5 - i,
        {
            if self.bank.resources[i] > 0 {
                actions.push(Action::TakeFreeResource(all[i]));
            }
            i = i + 1;
        }
        actions
    }

    /// Any resource may be named.
    pub fn get_monopoly_actions(&self) -> (r: Vec<Action>)
        ensures
            r@ == seq![
                Action::Monopolize(Resource::Brick),
                Action::Monopolize(Resource::Grain),
                Action::Monopolize(Resource::Lumber),
                Action::Monopolize(Resource::Ore),
                Action::Monopolize(Resource::Wool),
            ],
    {
        let r = vec![
            Action::Monopolize(Resource::Brick),
            Action::Monopolize(Resource::Grain),
            Action::Monopolize(Resource::Lumber),
            Action::Monopolize(Resource::Ore),
            Action::Monopolize(Resource::Wool),
        ];
        assert(r@ =~= seq![
            Action::Monopolize(Resource::Brick),
            Action::Monopolize(Resource::Grain),
            Action::Monopolize(Resource::Lumber),
            Action::Monopolize(Resource::Ore),
            Action::Monopolize(Resource::Wool),
        ]);
        r
    }

    /// The totals of two dice, weighted by how many throws give each.
    pub fn get_roll_actions(&self) -> (r: (Vec<Action>, Option<Vec<u32>>))
        ensures
            r.0@ == roll_actions(),
            r.1 matches Some(w) && w@ == roll_weight_seq(),
    {
        let weights = roll_weights();
        let mut actions: Vec<Action> = Vec::new();
        let mut w: Vec<u32> = Vec::new();
        let mut i: usize = 0;
        while i < 11
            invariant
                i <= 11,
                forall|k: int| 0 <= k < 11 ==> #[trigger] weights@[k] == (if k <= 5 { k + 1 } else { 11 - k }),
                actions@ == roll_actions().take(i as int),
                w.len() == i,
                forall|k: int| 0 <= k < i ==> #[trigger] w@[k] == weights@[k],
            decreases 11 - i,
        {
            actions.push(Action::Roll((i + 2) as u8));
            w.push(weights[i]);
            assert(actions@ =~= roll_actions().take(i + 1));
            i = i + 1;
        }
        assert(actions@ =~= roll_actions());
        assert(w@ =~= roll_weight_seq());
        (actions, Some(w))
    }

    /// How many of `item` `player` may still buy.
    pub open spec fn stock_of(&self, player: Player, item: Purchasable) -> int {
        if item == Purchasable::DevCard {
            Bank::dev_card_total(self.bank.dev_cards@)
        } else {
            self.bank.buildings@[pidx(player)]@[item.spec_index() as int] as int
        }
    }

    /// `player` may buy `item`: one is left, and both the bank and `player`
    /// hold its price.
    pub open spec fn affordable(&self, player: Player, item: Purchasable) -> bool {
        &&& self.stock_of(player, item) > 0
        &&& forall|k: int| 0 <= k < 5 ==> spec_buy_cost(item)[k] <= self.bank.resources@[k]
        &&& forall|k: int| 0 <= k < 5 ==> spec_buy_cost(item)[k] <= self.hand(player)[k]
    }

    /// The purchases of `item` open to `player`, lowest places first.
    pub open spec fn purchases(&self, player: Player, item: Purchasable) -> Seq<Action> {
        if !self.affordable(player, item) {
            Seq::empty()
        } else {
            match item {
                Purchasable::DevCard => seq![Action::BuyDevCard],
                Purchasable::Settlement => build_actions(
                    item,
                    ascending(self.board.settlement_slots@.intersect(self.board.player_settlement_slots@[pidx(player)]@), 64),
                ),
                Purchasable::City => build_actions(item, ascending(self.board.buildings_of(player).difference(self.board.cities@), 64)),
                Purchasable::Road => build_actions(
                    item,
                    ascending(self.board.road_slots@.intersect(self.board.player_road_slots@[pidx(player)]@), 128),
                ),
            }
        }
    }

    /// Playing `card`, if `player` holds one not bought this turn.
    pub open spec fn play_if(&self, player: Player, card: DevCard) -> Seq<Action> {
        if self.cards(player)[card.spec_index() as int] > 0 && !self.locked_dev_cards@[card.spec_index() as int] {
            seq![Action::PlayDevCard(card)]
        } else {
            Seq::empty()
        }
    }

    /// The development cards `player` may play: none once one was played this turn.
    pub open spec fn card_plays(&self, player: Player) -> Seq<Action> {
        if self.has_played_dev_card {
            Seq::empty()
        } else {
            self.play_if(player, DevCard::Knight) + self.play_if(player, DevCard::Monopoly) + self.play_if(
                player,
                DevCard::RoadBuilding,
            ) + self.play_if(player, DevCard::YearOfPlenty)
        }
    }

    pub open spec fn spec_trades(&self, player: Player) -> Seq<Action> {
        trades(Seq::new(5, |k: int| self.board.ratio(player, k)), self.hand(player), self.bank.resources@, 5)
    }

    /// The actions of a normal turn: ending it, buying roads, settlements,
    /// cities and development cards, playing a card, and trading with the bank.
    pub open spec fn normal_actions(&self, player: Player) -> Seq<Action> {
        seq![Action::EndTurn] + self.purchases(player, Purchasable::Road) + self.purchases(player, Purchasable::Settlement)
            + self.purchases(player, Purchasable::City) + self.purchases(player, Purchasable::DevCard) + self.card_plays(
            player,
        ) + self.spec_trades(player)
    }

    fn get_purchases(&self, player: Player, item: Purchasable) -> (r: Vec<Action>)
        requires
            Bank::dev_card_total(self.bank.dev_cards@) <= u8::MAX,
        ensures
            r@ == self.purchases(player, item),
    {
        let cost = buy_cost(item);
        if self.bank.purchasable_count(player, item) > 0 && covers(&cost, &self.bank.resources) && covers(
            &cost,
            &self.player_resources[player.into_usize()],
        ) {
            match item {
                Purchasable::DevCard => vec![Action::BuyDevCard],
                Purchasable::Settlement => {
                    let ids = self.board.available_settlements(player).values();
                    let r = actions_for(item, &ids);
                    r
                },
                Purchasable::City => {
                    let ids = self.board.settlements(player).values();
                    actions_for(item, &ids)
                },
                Purchasable::Road => {
                    let ids = self.board.available_roads(player).values();
                    actions_for(item, &ids)
                },
            }
        } else {
            Vec::new()
        }
    }

    fn play_option(&self, player: Player, card: DevCard) -> (r: Vec<Action>)
        ensures
            r@ == self.play_if(player, card),
    {
        let k = card.into_usize();
        if self.dev_cards[player.into_usize()][k] > 0 && !self.locked_dev_cards[k] {
            vec![Action::PlayDevCard(card)]
        } else {
            Vec::new()
        }
    }

    /// Every action open to `player` in a normal turn.
    #[verifier::rlimit(30)]
    pub fn get_normal_actions(&self, player: Player) -> (r: Vec<Action>)
        requires
            self.wf(),
            Bank::dev_card_total(self.bank.dev_cards@) <= u8::MAX,
        ensures
            r@ == self.normal_actions(player),
            forall|v: usize| #[trigger] r@.contains(Action::UpgradeSettlement(v)) <==> (self.affordable(player, Purchasable::City)
                && self.board.buildings_of(player).contains(v as nat) && !self.board.cities@.contains(v as nat)),
            forall|v: usize| #[trigger] r@.contains(Action::BuildSettlement(v)) <==> (self.affordable(player, Purchasable::Settlement)
                && self.board.settlement_slots@.contains(v as nat) && self.board.player_settlement_slots@[pidx(player)]@.contains(
                v as nat,
            )),
            forall|e: usize| #[trigger] r@.contains(Action::BuildRoad(e)) <==> (self.affordable(player, Purchasable::Road)
                && self.board.road_slots@.contains(e as nat) && self.board.player_road_slots@[pidx(player)]@.contains(e as nat)),
    {
        proof {
            let na = self.normal_actions(player);
            assert forall|v: usize| #[trigger] na.contains(Action::UpgradeSettlement(v)) <==> (self.affordable(player, Purchasable::City)
                && self.board.buildings_of(player).contains(v as nat) && !self.board.cities@.contains(v as nat)) by {
                lemma_normal_turn_offers(*self, player, v);
            }
            assert forall|v: usize| #[trigger] na.contains(Action::BuildSettlement(v)) <==> (self.affordable(player, Purchasable::Settlement)
                && self.board.settlement_slots@.contains(v as nat) && self.board.player_settlement_slots@[pidx(player)]@.contains(
                v as nat,
            )) by {
                lemma_normal_turn_offers(*self, player, v);
            }
            assert forall|e: usize| #[trigger] na.contains(Action::BuildRoad(e)) <==> (self.affordable(player, Purchasable::Road)
                && self.board.road_slots@.contains(e as nat) && self.board.player_road_slots@[pidx(player)]@.contains(e as nat)) by {
                lemma_normal_turn_offers(*self, player, e);
            }
        }
        let mut actions = vec![Action::EndTurn];
        let ghost start = actions@;
        let mut roads = self.get_purchases(player, Purchasable::Road);
        let ghost a = roads@;
        actions.append(&mut roads);
        let mut settlements = self.get_purchases(player, Purchasable::Settlement);
        let ghost b = settlements@;
        actions.append(&mut settlements);
        let mut cities = self.get_purchases(player, Purchasable::City);
        let ghost c = cities@;
        actions.append(&mut cities);
        let mut cards = self.get_purchases(player, Purchasable::DevCard);
        let ghost d = cards@;
        actions.append(&mut cards);
        let ghost before_plays = actions@;
        assert(before_plays == start + a + b + c + d);
        let mut plays: Vec<Action> = Vec::new();
        if !self.has_played_dev_card {
            let mut k = self.play_option(player, DevCard::Knight);
            plays.append(&mut k);
            let mut m = self.play_option(player, DevCard::Monopoly);
            plays.append(&mut m);
            let mut rb = self.play_option(player, DevCard::RoadBuilding);
            plays.append(&mut rb);
            let mut y = self.play_option(player, DevCard::YearOfPlenty);
            plays.append(&mut y);
        }
        assert(plays@ == self.card_plays(player));
        let ghost e = plays@;
        actions.append(&mut plays);
        let mut trades = self.get_exchange_actions(player);
        let ghost f = trades@;
        actions.append(&mut trades);
        assert(actions@ == start + a + b + c + d + e + f);
        assert(start == seq![Action::EndTurn]);
        actions
    }

    /// `new` has `into_bank` moved from `p`'s hand into the bank (a negative
    /// entry moves cards the other way); the other hands are as in `old`.
    pub open spec fn resources_moved(old: State, new: State, p: Player, into_bank: Seq<int>) -> bool {
        &&& forall|k: int| 0 <= k < 5 ==> #[trigger] new.bank.resources@[k] == old.bank.resources@[k] + into_bank[k]
        &&& forall|q: Player, k: int| 0 <= k < 5 ==> #[trigger] new.hand(q)[k] == old.hand(q)[k] - if q == p {
            into_bank[k]
        } else {
            0int
        }
    }

    /// `p`'s pieces left change by `delta` (roads, settlements, cities); the
    /// other players' are as in `old`.
    pub open spec fn pieces_changed(old: State, new: State, p: Player, delta: Seq<int>) -> bool {
        forall|q: Player, i: int| 0 <= i < 4 ==> #[trigger] new.bank.buildings@[pidx(q)]@[i] == old.bank.buildings@[pidx(q)]@[i] + if q == p {
            delta[i]
        } else {
            0int
        }
    }

    /// The development cards, the armies and the turn are as in `old`.
    pub open spec fn same_cards_and_turn(old: State, new: State) -> bool {
        &&& new.bank.dev_cards == old.bank.dev_cards
        &&& new.dev_cards == old.dev_cards
        &&& new.locked_dev_cards == old.locked_dev_cards
        &&& new.has_played_dev_card == old.has_played_dev_card
        &&& new.armies == old.armies
        &&& new.army_leader == old.army_leader
        &&& new.whose_turn == old.whose_turn
        &&& new.turn_order == old.turn_order
    }

    /// Only the phase differs from `old`, and it is `phase`.
    pub open spec fn only_phase(old: State, new: State, phase: Phase) -> bool {
        &&& new.phase == phase
        &&& new.bank == old.bank
        &&& new.board == old.board
        &&& new.player_resources == old.player_resources
        &&& Self::same_cards_and_turn(old, new)
    }

    pub fn roll_dice(&mut self)
        ensures
            Self::only_phase(*old(self), *final(self), Phase::Rolling),
    {
        self.phase = Phase::Rolling;
    }

    pub open spec fn can_build_settlement(&self, table: Map<u128, u8>, player: Player, v: nat) -> bool {
        &&& self.wf()
        &&& table_complete(table, self.board.adj())
        &&& v < N_VERTICES
        &&& self.bank.buildings@[pidx(player)]@[1] > 0
        &&& forall|k: int| 0 <= k < 5 ==> self.hand(player)[k] >= #[trigger] spec_buy_cost(Purchasable::Settlement)[k]
        &&& forall|k: int| 0 <= k < 5 ==> self.bank.resources@[k] + #[trigger] spec_buy_cost(Purchasable::Settlement)[k] <= u8::MAX
    }

    /// `player` pays for a settlement, uses one of its settlements and builds it at `v`.
    pub open spec fn settlement_built(old: State, new: State, table: Map<u128, u8>, player: Player, v: nat) -> bool {
        &&& Self::resources_moved(old, new, player, ints(spec_buy_cost(Purchasable::Settlement)))
        &&& Self::pieces_changed(old, new, player, seq![0int, -1, 0, 0])
        &&& settlement_added(old.board, new.board, table, player, v)
        &&& new.wf()
        &&& new.phase == old.phase
        &&& Self::same_cards_and_turn(old, new)
    }

    pub fn build_settlement(&mut self, table: &RoadTrailTable, player: Player, vertex_id: VertexId)
        requires
            old(self).can_build_settlement(table.map@, player, vertex_id as nat),
        ensures
            Self::settlement_built(*old(self), *final(self), table.map@, player, vertex_id as nat),
    {
        let cost = buy_cost(Purchasable::Settlement);
        self.give_to_bank(player, cost);
        let ghost paid = *self;
        let pi = player.into_usize();
        let mut pieces = self.bank.buildings[pi];
        pieces[1] = pieces[1] - 1;
        self.bank.buildings[pi] = pieces;
        self.board.add_settlement(table, player, vertex_id);
        proof {
            let o = *old(self);
            let n = *self;
            assert(Self::resources_moved(o, n, player, ints(spec_buy_cost(Purchasable::Settlement)))) by {
                assert forall|q: Player, k: int| 0 <= k < 5 implies #[trigger] n.hand(q)[k] == o.hand(q)[k] - if q == player {
                    ints(spec_buy_cost(Purchasable::Settlement))[k]
                } else {
                    0int
                } by {
                    assert(n.hand(q) == paid.hand(q));
                }
            }
            assert(Self::pieces_changed(o, n, player, seq![0int, -1, 0, 0]));
            assert(settlement_added(o.board, n.board, table.map@, player, vertex_id as nat));
            assert(n.wf());
            assert(Self::same_cards_and_turn(o, n));
        }
    }

    pub open spec fn can_upgrade_settlement(&self, player: Player, v: nat) -> bool {
        &&& self.wf()
        &&& v < N_VERTICES
        &&& self.bank.buildings@[pidx(player)]@[1] < u8::MAX
        &&& self.bank.buildings@[pidx(player)]@[2] > 0
        &&& forall|k: int| 0 <= k < 5 ==> self.hand(player)[k] >= #[trigger] spec_buy_cost(Purchasable::City)[k]
        &&& forall|k: int| 0 <= k < 5 ==> self.bank.resources@[k] + #[trigger] spec_buy_cost(Purchasable::City)[k] <= u8::MAX
    }

    /// `player` pays for a city, takes back a settlement, uses a city and
    /// marks `v` as a city.
    pub open spec fn settlement_upgraded(old: State, new: State, player: Player, v: nat) -> bool {
        &&& Self::resources_moved(old, new, player, ints(spec_buy_cost(Purchasable::City)))
        &&& Self::pieces_changed(old, new, player, seq![0int, 1, -1, 0])
        &&& new.board.cities@ == old.board.cities@.insert(v)
        &&& new.board == Board { cities: new.board.cities, ..old.board }
        &&& new.wf()
        &&& new.phase == old.phase
        &&& Self::same_cards_and_turn(old, new)
    }

    pub fn upgrade_settlement(&mut self, player: Player, vertex_id: VertexId)
        requires
            old(self).can_upgrade_settlement(player, vertex_id as nat),
        ensures
            Self::settlement_upgraded(*old(self), *final(self), player, vertex_id as nat),
    {
        let cost = buy_cost(Purchasable::City);
        self.give_to_bank(player, cost);
        let ghost paid = *self;
        let pi = player.into_usize();
        let mut pieces = self.bank.buildings[pi];
        pieces[1] = pieces[1] + 1;
        pieces[2] = pieces[2] - 1;
        self.bank.buildings[pi] = pieces;
        self.board.upgrade_settlement(vertex_id);
        proof {
            let o = *old(self);
            let n = *self;
            assert forall|q: Player| #[trigger] n.hand(q) == paid.hand(q) by {}
            assert(n.board =~= Board { cities: n.board.cities, ..o.board });
        }
    }

    pub open spec fn can_build_road(&self, table: Map<u128, u8>, player: Player, e: nat) -> bool {
        &&& self.wf()
        &&& table_complete(table, self.board.adj())
        &&& e < N_EDGES
        &&& self.board.roads_of(player).insert(e).len() <= 15
        &&& self.bank.buildings@[pidx(player)]@[0] > 0
        &&& match self.phase {
            Phase::Normal => {
                &&& forall|k: int| 0 <= k < 5 ==> self.hand(player)[k] >= #[trigger] spec_buy_cost(Purchasable::Road)[k]
                &&& forall|k: int| 0 <= k < 5 ==> self.bank.resources@[k] + #[trigger] spec_buy_cost(Purchasable::Road)[k] <= u8::MAX
            },
            Phase::RoadBuilding(remaining) => remaining > 0,
            Phase::Setup => true,
            _ => false,
        }
    }

    /// `player` uses a road and builds it on `e`; it pays for it in a normal
    /// turn, while a road building card counts the free roads down, back to a
    /// normal turn after the last.
    pub open spec fn road_built(old: State, new: State, table: Map<u128, u8>, player: Player, e: nat) -> bool {
        &&& Self::pieces_changed(old, new, player, seq![-1int, 0, 0, 0])
        &&& road_added(old.board, new.board, table, player, e)
        &&& new.wf()
        &&& Self::same_cards_and_turn(old, new)
        &&& match old.phase {
            Phase::Normal => Self::resources_moved(old, new, player, ints(spec_buy_cost(Purchasable::Road)))
                && new.phase is Normal,
            Phase::RoadBuilding(remaining) => new.bank.resources == old.bank.resources && new.player_resources
                == old.player_resources && new.phase == if remaining == 1 {
                Phase::Normal
            } else {
                Phase::RoadBuilding((remaining - 1) as u8)
            },
            _ => new.bank.resources == old.bank.resources && new.player_resources == old.player_resources
                && new.phase is Setup,
        }
    }

    pub fn build_road(&mut self, table: &RoadTrailTable, player: Player, edge_id: EdgeId)
        requires
            old(self).can_build_road(table.map@, player, edge_id as nat),
        ensures
            Self::road_built(*old(self), *final(self), table.map@, player, edge_id as nat),
    {
        self.board.add_road(table, player, edge_id);
        let pi = player.into_usize();
        let mut pieces = self.bank.buildings[pi];
        pieces[0] = pieces[0] - 1;
        self.bank.buildings[pi] = pieces;
        let ghost built = *self;
        match self.phase {
            Phase::Normal => {
                let cost = buy_cost(Purchasable::Road);
                self.give_to_bank(player, cost);
                self.phase = Phase::Normal;
                proof {
                    assert forall|q: Player| #[trigger] self.hand(q) == built.hand(q) || q == player by {}
                }
            },
            Phase::RoadBuilding(remaining) => {
                if remaining == 1 {
                    self.phase = Phase::Normal;
                } else {
                    self.phase = Phase::RoadBuilding(remaining - 1);
                }
            },
            _ => {
                self.phase = Phase::Setup;
            },
        }
    }

    /// Moving the robber to `hex_id`; the current player then robs someone
    /// there if anyone can be robbed, and otherwise goes on with the turn.
    pub open spec fn robber_moved(old: State, new: State, hex_id: nat) -> bool {
        &&& new.board.robber == hex_id
        &&& new.board.robber_verts@ == old.board.adj().h2v(hex_id)
        &&& new.board == Board { robber: new.board.robber, robber_verts: new.board.robber_verts, ..old.board }
        &&& new.phase == if old.hex_steals(hex_id).len() > 0 {
            Phase::StealingFromHex(hex_id as usize)
        } else {
            Phase::Normal
        }
        &&& new.bank == old.bank
        &&& new.player_resources == old.player_resources
        &&& Self::same_cards_and_turn(old, new)
        &&& new.wf()
    }

    pub fn move_robber(&mut self, hex_id: HexId)
        requires
            old(self).wf(),
            old(self).has_current_player(),
            hex_id < N_HEXES,
        ensures
            Self::robber_moved(*old(self), *final(self), hex_id as nat),
    {
        self.board.move_robber(hex_id);
        proof {
            let list = old(self).board.players_touching(old(self).board.adj().h2v(hex_id as nat), 4);
            lemma_same_touching(old(self).board, self.board, old(self).board.adj().h2v(hex_id as nat), 4);
            lemma_same_steal_targets(*old(self), *self, list);
            assert(self.hex_steals(hex_id as nat) == old(self).hex_steals(hex_id as nat));
        }
        let steals = self.get_hex_steal_actions(hex_id);
        if steals.len() > 0 {
            self.phase = Phase::StealingFromHex(hex_id);
        } else {
            self.phase = Phase::Normal;
        }
        proof {
            assert(self.board =~= Board { robber: self.board.robber, robber_verts: self.board.robber_verts, ..old(self).board });
        }
    }

    pub fn steal_from(&mut self, target: Player)
        ensures
            Self::only_phase(*old(self), *final(self), Phase::StealingFromPlayer(target)),
    {
        self.phase = Phase::StealingFromPlayer(target);
    }

    pub open spec fn can_steal_resource(&self, player: Player, target: Player, res: Resource) -> bool {
        &&& self.hand(target)[res.spec_index() as int] > 0
        &&& player != target ==> self.hand(player)[res.spec_index() as int] < u8::MAX
    }

    /// One card of `res` passes from `target` to `player`, and the turn goes on.
    pub open spec fn resource_stolen(old: State, new: State, player: Player, target: Player, res: Resource) -> bool {
        &&& forall|q: Player, k: int| 0 <= k < 5 ==> #[trigger] new.hand(q)[k] == old.hand(q)[k] - (if q == target
            && k == res.spec_index() {
            1int
        } else {
            0int
        }) + (if q == player && k == res.spec_index() {
            1int
        } else {
            0int
        })
        &&& new.bank == old.bank
        &&& new.board == old.board
        &&& new.phase is Normal
        &&& Self::same_cards_and_turn(old, new)
    }

    pub fn steal_resource_from(&mut self, player: Player, target: Player, res: Resource)
        requires
            old(self).can_steal_resource(player, target, res),
        ensures
            Self::resource_stolen(*old(self), *final(self), player, target, res),
    {
        let k = res.into_usize();
        let ti = target.into_usize();
        let pi = player.into_usize();
        let mut from = self.player_resources[ti];
        from[k] = from[k] - 1;
        self.player_resources[ti] = from;
        let mut to = self.player_resources[pi];
        to[k] = to[k] + 1;
        self.player_resources[pi] = to;
        self.phase = Phase::Normal;
        proof {
            assert forall|q: Player, j: int| 0 <= j < 5 implies #[trigger] self.hand(q)[j] == old(self).hand(q)[j] - (if q == target
                && j == res.spec_index() {
                1int
            } else {
                0int
            }) + (if q == player && j == res.spec_index() {
                1int
            } else {
                0int
            }) by {
                if q == player {
                    assert(pidx(q) == pi);
                } else if q == target {
                    assert(pidx(q) == ti);
                } else {
                    assert(pidx(q) != pi && pidx(q) != ti);
                }
            }
        }
    }

    pub open spec fn can_discard(&self, player: Player, res: Resource) -> bool {
        &&& self.hand(player)[res.spec_index() as int] > 0
        &&& self.bank.resources@[res.spec_index() as int] < u8::MAX
        &&& self.phase matches Phase::Discarding(remaining) && remaining@[pidx(player)] > 0
    }

    /// `player` returns one card of `res` to the bank and has one fewer to
    /// discard; once nobody has any left, the robber moves.
    pub open spec fn resource_discarded(old: State, new: State, player: Player, res: Resource) -> bool {
        &&& Self::resources_moved(old, new, player, single(res.spec_index() as int, 1))
        &&& new.board == old.board
        &&& new.bank.buildings == old.bank.buildings
        &&& Self::same_cards_and_turn(old, new)
        &&& old.phase matches Phase::Discarding(remaining) && {
            let left = remaining@.update(pidx(player), (remaining@[pidx(player)] - 1) as u8);
            if sum4(left) == 0 {
                new.phase is MovingRobber
            } else {
                new.phase matches Phase::Discarding(still) && still@ == left
            }
        }
    }

    pub fn discard_resource(&mut self, player: Player, res: Resource)
        requires
            old(self).can_discard(player, res),
        ensures
            Self::resource_discarded(*old(self), *final(self), player, res),
    {
        let k = res.into_usize();
        let mut bundle: [u8; 5] = [0, 0, 0, 0, 0];
        bundle[k] = 1;
        proof {
            assert(ints(bundle@) =~= single(k as int, 1));
        }
        self.give_to_bank(player, bundle);
        let ghost paid = *self;
        match self.phase {
            Phase::Discarding(remaining) => {
                let mut left = remaining;
                let pi = player.into_usize();
                left[pi] = left[pi] - 1;
                if left[0] as u32 + left[1] as u32 + left[2] as u32 + left[3] as u32 == 0 {
                    self.phase = Phase::MovingRobber;
                } else {
                    self.phase = Phase::Discarding(left);
                }
                proof {
                    assert(left@ =~= remaining@.update(pidx(player), (remaining@[pidx(player)] - 1) as u8));
                }
            },
            _ => {},
        }
        proof {
            assert forall|q: Player| #[trigger] self.hand(q) == paid.hand(q) by {}
        }
    }

    pub open spec fn can_monopolize(&self, player: Player, res: Resource) -> bool {
        let k = res.spec_index() as int;
        let others = sum4(Seq::new(4, |i: int| if i == pidx(player) { 0u8 } else { self.player_resources@[i]@[k] }));
        &&& others <= u8::MAX
        &&& self.hand(player)[k] + others <= u8::MAX
    }

    /// `player` takes every card of `res` from the other hands, and the turn goes on.
    pub open spec fn monopolized(old: State, new: State, player: Player, res: Resource) -> bool {
        let k = res.spec_index() as int;
        &&& forall|q: Player, j: int| 0 <= j < 5 && j != k ==> #[trigger] new.hand(q)[j] == old.hand(q)[j]
        &&& forall|q: Player| q != player ==> #[trigger] new.hand(q)[k] == 0
        &&& new.hand(player)[k] == old.hand(Player::Blue)[k] + old.hand(Player::Orange)[k] + old.hand(Player::Red)[k]
            + old.hand(Player::White)[k]
        &&& new.bank == old.bank
        &&& new.board == old.board
        &&& new.phase is Normal
        &&& Self::same_cards_and_turn(old, new)
    }

    pub fn monopolize(&mut self, player: Player, res: Resource)
        requires
            old(self).can_monopolize(player, res),
        ensures
            Self::monopolized(*old(self), *final(self), player, res),
    {
        let k = res.into_usize();
        let pi = player.into_usize();
        let ghost others = Seq::new(4, |i: int| if i == pidx(player) { 0u8 } else { old(self).player_resources@[i]@[k as int] });
        let mut total: u8 = 0;
        let mut i: usize = 0;
        while i < 4
            invariant
                i <= 4,
                k < 5,
                pi == pidx(player),
                sum4(others) <= u8::MAX,
                others == Seq::new(4, |j: int| if j == pidx(player) { 0u8 } else { old(self).player_resources@[j]@[k as int] }),
                total == (if 0 < i { others[0] as int } else { 0 }) + (if 1 < i { others[1] as int } else { 0 }) + (if 2 < i {
                    others[2] as int
                } else {
                    0
                }) + (if 3 < i { others[3] as int } else { 0 }),
                forall|j: int| 0 <= j < 4 && (j >= i || j == pi) ==> #[trigger] self.player_resources@[j] == old(self).player_resources@[j],
                forall|j: int, m: int| 0 <= j < i && j != pi && 0 <= m < 5 ==> #[trigger] self.player_resources@[j]@[m] == if m == k {
                    0u8
                } else {
                    old(self).player_resources@[j]@[m]
                },
                self.bank == old(self).bank,
                self.board == old(self).board,
                self.phase == old(self).phase,
                Self::same_cards_and_turn(*old(self), *self),
            decreases 4 - i,
        {
            if i != pi {
                let mut hand = self.player_resources[i];
                total = total + hand[k];
                hand[k] = 0;
                self.player_resources[i] = hand;
            }
            i = i + 1;
        }
        let mut mine = self.player_resources[pi];
        mine[k] = mine[k] + total;
        self.player_resources[pi] = mine;
        self.phase = Phase::Normal;
        proof {
            assert forall|q: Player, j: int| 0 <= j < 5 && j != k implies #[trigger] self.hand(q)[j] == old(self).hand(q)[j] by {
                if pidx(q) != pi {
                    assert(self.player_resources@[pidx(q)]@[j] == old(self).player_resources@[pidx(q)]@[j]);
                }
            }
            assert forall|q: Player| q != player implies #[trigger] self.hand(q)[k as int] == 0 by {
                assert(pidx(q) != pi);
                assert(self.player_resources@[pidx(q)]@[k as int] == 0);
            }
        }
    }

    pub open spec fn can_take_free(&self, player: Player, res: Resource) -> bool {
        &&& self.bank.resources@[res.spec_index() as int] > 0
        &&& self.hand(player)[res.spec_index() as int] < u8::MAX
        &&& self.phase matches Phase::YearOfPlenty(remaining) && remaining > 0
    }

    /// `player` takes one card of `res` from the bank and has one fewer to take.
    pub open spec fn free_resource_taken(old: State, new: State, player: Player, res: Resource) -> bool {
        &&& Self::resources_moved(old, new, player, single(res.spec_index() as int, -1))
        &&& new.board == old.board
        &&& new.bank.buildings == old.bank.buildings
        &&& Self::same_cards_and_turn(old, new)
        &&& old.phase matches Phase::YearOfPlenty(remaining) && new.phase == if remaining == 1 {
            Phase::Normal
        } else {
            Phase::YearOfPlenty((remaining - 1) as u8)
        }
    }

    pub fn take_free_resource(&mut self, player: Player, res: Resource)
        requires
            old(self).can_take_free(player, res),
        ensures
            Self::free_resource_taken(*old(self), *final(self), player, res),
    {
        let k = res.into_usize();
        let mut bundle: [u8; 5] = [0, 0, 0, 0, 0];
        bundle[k] = 1;
        self.take_from_bank(player, bundle);
        let ghost got = *self;
        proof {
            assert(single(k as int, -1) =~= Seq::new(5, |j: int| -(bundle@[j] as int)));
        }
        match self.phase {
            Phase::YearOfPlenty(remaining) => {
                if remaining == 1 {
                    self.phase = Phase::Normal;
                } else {
                    self.phase = Phase::YearOfPlenty(remaining - 1);
                }
            },
            _ => {},
        }
        proof {
            assert forall|q: Player| #[trigger] self.hand(q) == got.hand(q) by {}
        }
    }

    pub open spec fn can_exchange(&self, player: Player, res1: Resource, cost: u8, res2: Resource) -> bool {
        let k1 = res1.spec_index() as int;
        let k2 = res2.spec_index() as int;
        &&& self.hand(player)[k1] >= cost
        &&& self.bank.resources@[k1] + cost <= u8::MAX
        &&& self.bank.resources@[k2] + (if k1 == k2 { cost as int } else { 0 }) >= 1
        &&& self.hand(player)[k2] - (if k1 == k2 { cost as int } else { 0 }) + 1 <= u8::MAX
    }

    /// `player` gives `cost` cards of `res1` to the bank for one card of `res2`.
    pub open spec fn exchanged(old: State, new: State, player: Player, res1: Resource, cost: u8, res2: Resource) -> bool {
        &&& Self::resources_moved(
            old,
            new,
            player,
            Seq::new(
                5,
                |k: int| (if k == res1.spec_index() { cost as int } else { 0int }) - (if k == res2.spec_index() {
                    1int
                } else {
                    0int
                }),
            ),
        )
        &&& new.board == old.board
        &&& new.bank.buildings == old.bank.buildings
        &&& new.phase == old.phase
        &&& Self::same_cards_and_turn(old, new)
    }

    pub fn exchange_resources(&mut self, player: Player, res1: Resource, cost: u8, res2: Resource)
        requires
            old(self).can_exchange(player, res1, cost, res2),
        ensures
            Self::exchanged(*old(self), *final(self), player, res1, cost, res2),
    {
        let mut give: [u8; 5] = [0, 0, 0, 0, 0];
        give[res1.into_usize()] = cost;
        self.give_to_bank(player, give);
        let ghost paid = *self;
        let mut take: [u8; 5] = [0, 0, 0, 0, 0];
        take[res2.into_usize()] = 1;
        self.take_from_bank(player, take);
    }

    pub open spec fn can_buy_dev_card(&self, player: Player) -> bool {
        &&& forall|k: int| 0 <= k < 5 ==> self.hand(player)[k] >= #[trigger] spec_buy_cost(Purchasable::DevCard)[k]
        &&& forall|k: int| 0 <= k < 5 ==> self.bank.resources@[k] + #[trigger] spec_buy_cost(Purchasable::DevCard)[k] <= u8::MAX
    }

    /// `player` pays for a development card, which is then drawn.
    pub open spec fn dev_card_bought(old: State, new: State, player: Player) -> bool {
        &&& Self::resources_moved(old, new, player, ints(spec_buy_cost(Purchasable::DevCard)))
        &&& new.board == old.board
        &&& new.bank.buildings == old.bank.buildings
        &&& new.phase is BuyingDevCard
        &&& Self::same_cards_and_turn(old, new)
    }

    pub fn buy_dev_card(&mut self, player: Player)
        requires
            old(self).can_buy_dev_card(player),
        ensures
            Self::dev_card_bought(*old(self), *final(self), player),
    {
        let cost = buy_cost(Purchasable::DevCard);
        self.give_to_bank(player, cost);
        let ghost paid = *self;
        self.phase = Phase::BuyingDevCard;
        proof {
            assert forall|q: Player| #[trigger] self.hand(q) == paid.hand(q) by {}
        }
    }

    pub open spec fn can_receive(&self, player: Player, card: DevCard) -> bool {
        &&& self.bank.dev_cards@[card.spec_index() as int] > 0
        &&& self.cards(player)[card.spec_index() as int] < u8::MAX
    }

    /// `player` draws `card` from the bank; a kind it did not hold is locked
    /// for the rest of the turn.
    pub open spec fn dev_card_received(old: State, new: State, player: Player, card: DevCard) -> bool {
        let k = card.spec_index() as int;
        &&& new.bank.dev_cards@ == old.bank.dev_cards@.update(k, (old.bank.dev_cards@[k] - 1) as u8)
        &&& forall|q: Player, j: int| 0 <= j < 5 ==> #[trigger] new.cards(q)[j] == old.cards(q)[j] + if q == player && j == k {
            1int
        } else {
            0int
        }
        &&& new.locked_dev_cards@ == if old.cards(player)[k] == 0 {
            old.locked_dev_cards@.update(k, true)
        } else {
            old.locked_dev_cards@
        }
        &&& new.bank.resources == old.bank.resources
        &&& new.bank.buildings == old.bank.buildings
        &&& new.player_resources == old.player_resources
        &&& new.board == old.board
        &&& new.phase is Normal
        &&& new.has_played_dev_card == old.has_played_dev_card
        &&& new.armies == old.armies
        &&& new.army_leader == old.army_leader
        &&& new.whose_turn == old.whose_turn
        &&& new.turn_order == old.turn_order
    }

    pub fn receive_dev_card(&mut self, player: Player, card: DevCard)
        requires
            old(self).can_receive(player, card),
        ensures
            Self::dev_card_received(*old(self), *final(self), player, card),
    {
        let k = card.into_usize();
        let pi = player.into_usize();
        if self.dev_cards[pi][k] == 0 {
            self.locked_dev_cards[k] = true;
        }
        self.bank.take_dev_card(card);
        let mut held = self.dev_cards[pi];
        held[k] = held[k] + 1;
        self.dev_cards[pi] = held;
        self.phase = Phase::Normal;
        proof {
            assert forall|q: Player, j: int| 0 <= j < 5 implies #[trigger] self.cards(q)[j] == old(self).cards(q)[j] + if q == player && j == k {
                1int
            } else {
                0int
            } by {
                if q != player {
                    assert(pidx(q) != pi);
                }
            }
            if old(self).cards(player)[k as int] == 0 {
                assert(self.locked_dev_cards@ =~= old(self).locked_dev_cards@.update(k as int, true));
            }
        }
    }

    /// The turn passes to the next player, who rolls; nothing is locked or
    /// played any more.
    pub open spec fn turn_ended(old: State, new: State) -> bool {
        &&& new.whose_turn.spec_index() == (old.whose_turn.spec_index() + 1) % 4
        &&& new.phase is Rolling
        &&& new.locked_dev_cards@ == seq![false, false, false, false, false]
        &&& !new.has_played_dev_card
        &&& new.bank == old.bank
        &&& new.board == old.board
        &&& new.player_resources == old.player_resources
        &&& new.dev_cards == old.dev_cards
        &&& new.armies == old.armies
        &&& new.army_leader == old.army_leader
        &&& new.turn_order == old.turn_order
    }

    pub fn end_turn(&mut self)
        requires
            old(self).wf(),
        ensures
            Self::turn_ended(*old(self), *final(self)),
    {
        self.whose_turn = self.turn_order[(self.whose_turn.into_usize() + 1) % 4];
        self.phase = Phase::Rolling;
        self.locked_dev_cards = [false, false, false, false, false];
        self.has_played_dev_card = false;
        proof {
            assert(self.locked_dev_cards@ =~= seq![false, false, false, false, false]);
        }
    }

    /// What playing `card` sets off: free roads (up to two, as many as
    /// `player` has pieces and places for), moving the robber with one more
    /// knight (and the largest army for the first to three knights or to pass
    /// the leader), naming a resource, or taking up to two free cards.
    pub open spec fn card_activated(old: State, new: State, card: DevCard) -> bool {
        let w = old.whose_turn;
        match card {
            DevCard::RoadBuilding => {
                let to_build = min_int(
                    min_int(2, old.bank.buildings@[pidx(w)]@[0] as int),
                    old.board.road_slots@.intersect(old.board.player_road_slots@[pidx(w)]@).len() as int,
                );
                Self::only_phase(old, new, if to_build > 0 { Phase::RoadBuilding(to_build as u8) } else { old.phase })
            },
            DevCard::Knight => {
                let army = old.armies@[pidx(w)] + 1;
                &&& new.phase is MovingRobber
                &&& new.armies@ == old.armies@.update(pidx(w), army as u8)
                &&& new.army_leader == if army >= 3 && army > max4(old.armies@) {
                    Some(w)
                } else {
                    old.army_leader
                }
                &&& new.bank == old.bank
                &&& new.board == old.board
                &&& new.player_resources == old.player_resources
                &&& new.dev_cards == old.dev_cards
                &&& new.locked_dev_cards == old.locked_dev_cards
                &&& new.has_played_dev_card == old.has_played_dev_card
                &&& new.whose_turn == old.whose_turn
                &&& new.turn_order == old.turn_order
            },
            DevCard::Monopoly => Self::only_phase(old, new, Phase::Monopoly),
            _ => Self::only_phase(old, new, Phase::YearOfPlenty(min_int(2, sum5(old.bank.resources@)) as u8)),
        }
    }

    pub open spec fn can_activate(&self, card: DevCard) -> bool {
        &&& card != DevCard::VictoryPoint
        &&& card == DevCard::Knight ==> self.armies@[pidx(self.whose_turn)] < u8::MAX
        &&& card == DevCard::YearOfPlenty ==> sum5(self.bank.resources@) <= u8::MAX
    }

    pub fn activate_dev_card(&mut self, card: DevCard)
        requires
            old(self).can_activate(card),
        ensures
            Self::card_activated(*old(self), *final(self), card),
    {
        let w = self.whose_turn;
        match card {
            DevCard::RoadBuilding => {
                let pieces = self.bank.purchasable_count(w, Purchasable::Road);
                let places = self.board.available_roads(w).count_ones();
                proof {
                    let slots = self.board.road_slots@.intersect(self.board.player_road_slots@[pidx(w)]@);
                    self.board.road_slots.lemma_view_finite();
                    crate::bitboard::lemma_full_len::<u128>();
                    vstd::set_lib::lemma_len_subset(slots, Bitboard::<u128>::full());
                }
                let first: u8 = if 2 < pieces { 2 } else { pieces };
                let to_build: u8 = if (first as u32) < places { first } else { places as u8 };
                if to_build > 0 {
                    self.phase = Phase::RoadBuilding(to_build);
                }
            },
            DevCard::Knight => {
                self.phase = Phase::MovingRobber;
                let a = &self.armies;
                let m01 = if a[0] >= a[1] { a[0] } else { a[1] };
                let m23 = if a[2] >= a[3] { a[2] } else { a[3] };
                let old_max = if m01 >= m23 { m01 } else { m23 };
                let wi = w.into_usize();
                let army = self.armies[wi] + 1;
                self.armies[wi] = army;
                if army >= 3 && army > old_max {
                    self.army_leader = Some(w);
                }
                proof {
                    assert(self.armies@ =~= old(self).armies@.update(pidx(w), army));
                }
            },
            DevCard::Monopoly => {
                self.phase = Phase::Monopoly;
            },
            DevCard::YearOfPlenty => {
                let r = &self.bank.resources;
                let total: u32 = r[0] as u32 + r[1] as u32 + r[2] as u32 + r[3] as u32 + r[4] as u32;
                let to_take: u8 = if 2 < total { 2 } else { total as u8 };
                self.phase = Phase::YearOfPlenty(to_take);
            },
            DevCard::VictoryPoint => {},
        }
    }

    pub open spec fn can_play(&self, card: DevCard) -> bool {
        &&& self.can_activate(card)
        &&& self.cards(self.whose_turn)[card.spec_index() as int] > 0
    }

    /// The card's effect, and the card leaves the hand of the player whose
    /// turn it is, who may play no other this turn.
    pub open spec fn card_played(old: State, new: State, card: DevCard) -> bool {
        let k = card.spec_index() as int;
        let w = old.whose_turn;
        &&& Self::card_activated(old, State { dev_cards: old.dev_cards, has_played_dev_card: old.has_played_dev_card, ..new }, card)
        &&& new.has_played_dev_card
        &&& forall|q: Player, j: int| 0 <= j < 5 ==> #[trigger] new.cards(q)[j] == old.cards(q)[j] - if q == w && j == k {
            1int
        } else {
            0int
        }
    }

    pub fn play_dev_card(&mut self, card: DevCard)
        requires
            old(self).can_play(card),
        ensures
            Self::card_played(*old(self), *final(self), card),
    {
        self.activate_dev_card(card);
        let ghost activated = *self;
        self.has_played_dev_card = true;
        let wi = self.whose_turn.into_usize();
        let k = card.into_usize();
        let mut held = self.dev_cards[wi];
        held[k] = held[k] - 1;
        self.dev_cards[wi] = held;
        proof {
            assert(State { dev_cards: old(self).dev_cards, has_played_dev_card: old(self).has_played_dev_card, ..*self } == State {
                dev_cards: old(self).dev_cards,
                has_played_dev_card: old(self).has_played_dev_card,
                ..activated
            });
            assert(activated.dev_cards == old(self).dev_cards);
            assert(activated.has_played_dev_card == old(self).has_played_dev_card);
            assert forall|q: Player, j: int| 0 <= j < 5 implies #[trigger] self.cards(q)[j] == old(self).cards(q)[j] - if q == old(self).whose_turn && j == k {
                1int
            } else {
                0int
            } by {
                if q != old(self).whose_turn {
                    assert(pidx(q) != wi);
                }
            }
        }
    }

    /// The cards each player must discard on a seven: half, rounded down, of
    /// a hand of more than seven.
    pub open spec fn discard_counts(&self) -> Seq<u8> {
        Seq::new(
            4,
            |p: int| {
                let n = sum5(self.player_resources@[p]@);
                if n > 7 {
                    (n / 2) as u8
                } else {
                    0u8
                }
            },
        )
    }

    pub open spec fn can_handle_roll(&self, roll: u8) -> bool {
        if roll == 7 {
            forall|p: int| 0 <= p < 4 ==> sum5(#[trigger] self.player_resources@[p]@) <= u8::MAX
        } else {
            &&& 2 <= roll <= 12
            &&& self.wf()
            &&& forall|p: int, k: int|
                0 <= p < 4 && 0 <= k < 5 ==> self.player_resources@[p]@[k] + share(self.board, roll as int, k, p, self.bank.resources@[k] as nat) <= u8::MAX
        }
    }

    /// What a roll does: on a seven, players holding more than seven cards
    /// discard half, and then the robber moves; otherwise every player
    /// receives what the board yields, within what the bank holds.
    pub open spec fn roll_handled(old: State, new: State, roll: u8, r: Option<[[u8; 5]; 4]>) -> bool {
        &&& new.board == old.board
        &&& new.bank.buildings == old.bank.buildings
        &&& Self::same_cards_and_turn(old, new)
        &&& if roll == 7 {
            &&& r is None
            &&& new.bank.resources == old.bank.resources
            &&& new.player_resources == old.player_resources
            &&& if sum4(old.discard_counts()) == 0 {
                new.phase is MovingRobber
            } else {
                new.phase matches Phase::Discarding(left) && left@ == old.discard_counts()
            }
        } else {
            &&& new.phase is Normal
            &&& r matches Some(prod) && forall|p: int, k: int|
                0 <= p < 4 && 0 <= k < 5 ==> #[trigger] prod@[p]@[k] == share(old.board, roll as int, k, p, old.bank.resources@[k] as nat)
            &&& forall|k: int| 0 <= k < 5 ==> #[trigger] new.bank.resources@[k] == old.bank.resources@[k] - shares_below(
                old.board,
                roll as int,
                k,
                old.bank.resources@[k] as nat,
                4,
            )
            &&& forall|q: Player, k: int| 0 <= k < 5 ==> #[trigger] new.hand(q)[k] == old.hand(q)[k] + share(
                old.board,
                roll as int,
                k,
                pidx(q),
                old.bank.resources@[k] as nat,
            )
        }
    }

    pub fn handle_dice_roll(&mut self, roll: u8) -> (r: Option<[[u8; 5]; 4]>)
        requires
            old(self).can_handle_roll(roll),
        ensures
            Self::roll_handled(*old(self), *final(self), roll, r),
    {
        self.phase = Phase::Normal;
        if roll == 7 {
            let mut to_discard: [u8; 4] = [0, 0, 0, 0];
            let mut p: usize = 0;
            while p < 4
                invariant
                    p <= 4,
                    forall|q: int| 0 <= q < 4 ==> sum5(#[trigger] self.player_resources@[q]@) <= u8::MAX,
                    forall|q: int| 0 <= q < 4 ==> #[trigger] to_discard@[q] == if q < p { old(self).discard_counts()[q] } else { 0u8 },
                    self.player_resources == old(self).player_resources,
                decreases 4 - p,
            {
                let hand = &self.player_resources[p];
                let sum = hand[0] as u32 + hand[1] as u32 + hand[2] as u32 + hand[3] as u32 + hand[4] as u32;
                if sum > 7 {
                    to_discard[p] = (sum / 2) as u8;
                }
                p = p + 1;
            }
            proof {
                assert(to_discard@ =~= old(self).discard_counts());
            }
            if to_discard[0] as u32 + to_discard[1] as u32 + to_discard[2] as u32 + to_discard[3] as u32 == 0 {
                self.phase = Phase::MovingRobber;
            } else {
                self.phase = Phase::Discarding(to_discard);
            }
            None
        } else {
            let production = self.board.produce_resources(roll, self.bank.resources);
            let ghost stock = old(self).bank.resources@;
            let ghost start = *self;
            proof {
                assert forall|k: int| 0 <= k < 5 implies shares_below(old(self).board, roll as int, k, stock[k] as nat, 4) <= stock[k] by {
                    lemma_shares_fit(old(self).board, roll as int, k, stock[k] as nat);
                }
            }
            let mut p: usize = 0;
            while p < 4
                invariant
                    p <= 4,
                    2 <= roll <= 12,
                    self.board == old(self).board,
                    self.phase is Normal,
                    self.bank.buildings == old(self).bank.buildings,
                    Self::same_cards_and_turn(*old(self), *self),
                    forall|q: int, k: int|
                        0 <= q < 4 && 0 <= k < 5 ==> #[trigger] production@[q]@[k] == share(old(self).board, roll as int, k, q, stock[k] as nat),
                    forall|q: int, k: int|
                        0 <= q < 4 && 0 <= k < 5 ==> old(self).player_resources@[q]@[k] + share(old(self).board, roll as int, k, q, stock[k] as nat) <= u8::MAX,
                    forall|k: int| 0 <= k < 5 ==> #[trigger] self.bank.resources@[k] == stock[k] - shares_below(
                        old(self).board,
                        roll as int,
                        k,
                        stock[k] as nat,
                        p as int,
                    ),
                    forall|k: int| 0 <= k < 5 ==> shares_below(old(self).board, roll as int, k, stock[k] as nat, 4) <= stock[k],
                    forall|q: int, k: int|
                        0 <= q < 4 && 0 <= k < 5 ==> #[trigger] self.player_resources@[q]@[k] == old(self).player_resources@[q]@[k]
                            + if q < p { share(old(self).board, roll as int, k, q, stock[k] as nat) as int } else { 0int },
                decreases 4 - p,
            {
                proof {
                    assert forall|k: int| 0 <= k < 5 implies self.bank.resources@[k] >= #[trigger] production@[p as int]@[k] by {
                        lemma_shares_fit(old(self).board, roll as int, k, stock[k] as nat);
                        lemma_shares_below_grow(old(self).board, roll as int, k, stock[k] as nat, p as int + 1);
                    }
                }
                let player = Player::from_usize(p);
                let ghost before = *self;
                self.take_from_bank(player, production[p]);
                proof {
                    assert forall|q: int, k: int|
                        0 <= q < 4 && 0 <= k < 5 implies #[trigger] self.player_resources@[q]@[k] == old(self).player_resources@[q]@[k]
                            + if q < p + 1 { share(old(self).board, roll as int, k, q, stock[k] as nat) as int } else { 0int } by {
                        let qq = Player::spec_from_index(q as nat);
                        assert(pidx(qq) == q);
                        assert(self.hand(qq)[k] == before.hand(qq)[k] + if qq == player { production@[p as int]@[k] as int } else { 0int });
                    }
                }
                p = p + 1;
            }
            proof {
                assert forall|q: Player, k: int| 0 <= k < 5 implies #[trigger] self.hand(q)[k] == old(self).hand(q)[k] + share(
                    old(self).board,
                    roll as int,
                    k,
                    pidx(q),
                    stock[k] as nat,
                ) by {
                    assert(self.player_resources@[pidx(q)]@[k] == old(self).player_resources@[pidx(q)]@[k] + share(
                        old(self).board,
                        roll as int,
                        k,
                        pidx(q),
                        stock[k] as nat,
                    ));
                }
            }
            Some(production)
        }
    }

    /// The actions of the phases that chance does not decide, for the player
    /// to act.
    pub open spec fn phase_actions(&self) -> Seq<Action> {
        let current = self.spec_current_player();
        match self.phase {
            Phase::Monopoly => seq![
                Action::Monopolize(Resource::Brick),
                Action::Monopolize(Resource::Grain),
                Action::Monopolize(Resource::Lumber),
                Action::Monopolize(Resource::Ore),
                Action::Monopolize(Resource::Wool),
            ],
            Phase::Normal => self.normal_actions(current),
            Phase::MovingRobber => robber_moves(self.board.robber as nat, N_HEXES as nat),
            Phase::YearOfPlenty(_) => per_resource(self.bank.resources@, 5, |res: Resource| Action::TakeFreeResource(res)),
            Phase::Discarding(_) => per_resource(self.hand(current), 5, |res: Resource| Action::DiscardResource(res)),
            Phase::StealingFromHex(hex_id) => self.hex_steals(hex_id as nat),
            Phase::RoadBuilding(remaining) => {
                let ids = ascending(self.board.road_slots@.intersect(self.board.player_road_slots@[pidx(current)]@), 128);
                build_actions(Purchasable::Road, ids.take(min_int(remaining as int, ids.len() as int)))
            },
            _ => Seq::empty(),
        }
    }

    /// Chance decides the next action: a roll, a drawn development card or a stolen card.
    pub open spec fn spec_is_random(&self) -> bool {
        match self.phase {
            Phase::Rolling | Phase::StealingFromPlayer(_) | Phase::BuyingDevCard => true,
            _ => false,
        }
    }

    pub fn is_random(&self) -> (r: bool)
        ensures
            r == self.spec_is_random(),
    {
        match self.phase {
            Phase::Rolling | Phase::StealingFromPlayer(_) | Phase::BuyingDevCard => true,
            _ => false,
        }
    }

    /// `get_actions` can answer for `player`: the player to act is known, and
    /// in a phase that chance does not decide, the player to act has some
    /// action.
    pub open spec fn can_list_actions(&self, player: Player) -> bool {
        &&& self.wf()
        &&& self.has_current_player()
        &&& Bank::dev_card_total(self.bank.dev_cards@) <= u8::MAX
        &&& (self.phase matches Phase::StealingFromHex(hex_id) ==> hex_id < N_HEXES)
        &&& (self.phase is RoadBuilding ==> self.board.road_slots@.intersect(
            self.board.player_road_slots@[pidx(self.spec_current_player())]@,
        ) != Set::<nat>::empty())
        &&& (player == self.spec_current_player() && !self.spec_is_random() ==> self.phase_actions().len() > 0)
    }

    /// The actions open to `player`, with the weight of each when chance picks
    /// one; nothing for a player who is not to act.
    pub fn get_actions(&self, player: Player) -> (r: (Vec<Action>, Option<Vec<u32>>))
        requires
            self.can_list_actions(player),
        ensures
            player != self.spec_current_player() ==> r.0@ == Seq::<Action>::empty() && r.1 is None,
            player == self.spec_current_player() ==> match self.phase {
                Phase::Rolling => r.0@ == roll_actions() && (r.1 matches Some(w) && w@ == roll_weight_seq()),
                Phase::BuyingDevCard => r.0@ == dev_draws(self.bank.dev_cards@, 5) && (r.1 matches Some(w) && w@
                    == positive_counts(self.bank.dev_cards@, 5)),
                Phase::StealingFromPlayer(target) => r.0@ == per_resource(
                    self.hand(target),
                    5,
                    |res: Resource| Action::StealResourceFrom(target, res),
                ) && (r.1 matches Some(w) && w@ == positive_counts(self.hand(target), 5)),
                _ => r.0@ == self.phase_actions() && r.1 is None,
            },
    {
        let current = self.current_player();
        if player != current {
            return (Vec::new(), None);
        }
        let actions = match self.phase {
            Phase::Rolling => {
                return self.get_roll_actions();
            },
            Phase::BuyingDevCard => {
                return self.get_receive_dev_card_actions();
            },
            Phase::StealingFromPlayer(target) => {
                return self.get_player_steal_actions(target);
            },
            Phase::Setup => Vec::new(),
            Phase::Monopoly => self.get_monopoly_actions(),
            Phase::Normal => self.get_normal_actions(player),
            Phase::MovingRobber => self.get_robber_actions(),
            Phase::YearOfPlenty(_) => self.get_year_of_plenty_actions(),
            Phase::Discarding(_) => self.get_discard_actions(current),
            Phase::StealingFromHex(hex_id) => self.get_hex_steal_actions(hex_id),
            Phase::RoadBuilding(remaining) => self.get_road_building_actions(player, remaining),
        };
        (actions, None)
    }

    /// `action` can be applied: what the action's own step asks of the state.
    pub open spec fn can_apply(&self, table: Map<u128, u8>, action: Action) -> bool {
        let player = self.spec_current_player();
        &&& self.has_current_player()
        &&& match action {
            Action::RollDice => true,
            Action::Roll(value) => self.can_handle_roll(value),
            Action::BuildSettlement(v) => self.can_build_settlement(table, player, v as nat),
            Action::UpgradeSettlement(v) => self.can_upgrade_settlement(player, v as nat),
            Action::BuildRoad(e) => self.can_build_road(table, player, e as nat),
            Action::MoveRobber(hex_id) => self.wf() && hex_id < N_HEXES,
            Action::StealFrom(_) => true,
            Action::StealResourceFrom(target, res) => self.can_steal_resource(player, target, res),
            Action::DiscardResource(res) => self.can_discard(player, res),
            Action::PlayDevCard(card) => self.can_play(card),
            Action::Monopolize(res) => self.can_monopolize(player, res),
            Action::TakeFreeResource(res) => self.can_take_free(player, res),
            Action::ExchangeResources(((res1, cost), res2)) => self.can_exchange(player, res1, cost, res2),
            Action::BuyDevCard => self.can_buy_dev_card(player),
            Action::ReceiveDevCard(card) => self.can_receive(player, card),
            Action::EndTurn => self.wf(),
        }
    }

    /// What applying `action` for the player to act does.
    pub open spec fn applied(old: State, new: State, table: Map<u128, u8>, action: Action) -> bool {
        let player = old.spec_current_player();
        match action {
            Action::RollDice => Self::only_phase(old, new, Phase::Rolling),
            Action::Roll(value) => exists|r: Option<[[u8; 5]; 4]>| Self::roll_handled(old, new, value, r),
            Action::BuildSettlement(v) => Self::settlement_built(old, new, table, player, v as nat),
            Action::UpgradeSettlement(v) => Self::settlement_upgraded(old, new, player, v as nat),
            Action::BuildRoad(e) => Self::road_built(old, new, table, player, e as nat),
            Action::MoveRobber(hex_id) => Self::robber_moved(old, new, hex_id as nat),
            Action::StealFrom(target) => Self::only_phase(old, new, Phase::StealingFromPlayer(target)),
            Action::StealResourceFrom(target, res) => Self::resource_stolen(old, new, player, target, res),
            Action::DiscardResource(res) => Self::resource_discarded(old, new, player, res),
            Action::PlayDevCard(card) => Self::card_played(old, new, card),
            Action::Monopolize(res) => Self::monopolized(old, new, player, res),
            Action::TakeFreeResource(res) => Self::free_resource_taken(old, new, player, res),
            Action::ExchangeResources(((res1, cost), res2)) => Self::exchanged(old, new, player, res1, cost, res2),
            Action::BuyDevCard => Self::dev_card_bought(old, new, player),
            Action::ReceiveDevCard(card) => Self::dev_card_received(old, new, player, card),
            Action::EndTurn => Self::turn_ended(old, new),
        }
    }

    /// Carries out `action` for the player to act.
    pub fn apply_action(&mut self, table: &RoadTrailTable, action: Action)
        requires
            old(self).can_apply(table.map@, action),
        ensures
            Self::applied(*old(self), *final(self), table.map@, action),
    {
        let player = self.current_player();
        match action {
            Action::RollDice => self.roll_dice(),
            Action::Roll(value) => {
                let r = self.handle_dice_roll(value);
            },
            Action::BuildSettlement(v) => self.build_settlement(table, player, v),
            Action::UpgradeSettlement(v) => self.upgrade_settlement(player, v),
            Action::BuildRoad(e) => self.build_road(table, player, e),
            Action::MoveRobber(hex_id) => self.move_robber(hex_id),
            Action::StealFrom(target) => self.steal_from(target),
            Action::StealResourceFrom(target, res) => self.steal_resource_from(player, target, res),
            Action::DiscardResource(res) => self.discard_resource(player, res),
            Action::PlayDevCard(card) => self.play_dev_card(card),
            Action::Monopolize(res) => self.monopolize(player, res),
            Action::TakeFreeResource(res) => self.take_free_resource(player, res),
            Action::ExchangeResources(((res1, cost), res2)) => self.exchange_resources(player, res1, cost, res2),
            Action::BuyDevCard => self.buy_dev_card(player),
            Action::ReceiveDevCard(card) => self.receive_dev_card(player, card),
            Action::EndTurn => self.end_turn(),
        }
    }

    /// The game ends when the player whose turn it is has ten points.
    pub fn is_terminal(&self) -> (r: bool)
        ensures
            r == (self.spec_victory_points(self.whose_turn) >= 10),
    {
        self.victory_points(self.whose_turn) >= 10
    }

    /// One line per player, in seating order: the player's name and its
    /// buildings as a bitboard.
    pub fn render(&self) -> (r: String)
        ensures
            r@ == buildings_text(*self, 4),
    {
        let mut out: Vec<char> = Vec::new();
        let mut i: usize = 0;
        while i < 4
            invariant
                i <= 4,
                out@ == buildings_text(*self, i as nat),
            decreases 4 - i,
        {
            let ghost start = out@;
            let p = Player::from_usize(i);
            push_player_name(&mut out, p);
            push_str(&mut out, " ");
            let b = self.board.player_buildings[i].render();
            push_str(&mut out, b.as_str());
            push_str(&mut out, "\n");
            assert(out@ =~= buildings_text(*self, (i + 1) as nat));
            i = i + 1;
        }
        chars_to_string(&out)
    }

    pub fn name() -> (r: String)
        ensures
            r@ == "Catan"@,
    {
        "Catan".to_string()
    }

    /// Once the game is over, the player whose turn it is has won and the
    /// others have lost.
    pub open spec fn spec_outcome(&self, player: Player) -> Option<Outcome> {
        if self.spec_victory_points(self.whose_turn) < 10 {
            None
        } else if player == self.whose_turn {
            Some(Outcome::Win)
        } else {
            Some(Outcome::Loss)
        }
    }

    pub fn outcome(&self, player: Player) -> (r: Option<Outcome>)
        ensures
            r == self.spec_outcome(player),
    {
        if self.victory_points(self.whose_turn) < 10 {
            return None;
        }
        if player == self.whose_turn {
            return Some(Outcome::Win);
        }
        Some(Outcome::Loss)
    }

    /// The result of `player1` against `player2`: a win over the loser, a loss
    /// to the winner, a draw between two losers.
    pub fn pairwise_outcome(&self, player1: Player, player2: Player) -> (r: Option<Outcome>)
        ensures
            r == match (self.spec_outcome(player1), self.spec_outcome(player2)) {
                (Some(Outcome::Win), Some(Outcome::Loss)) => Some(Outcome::Win),
                (Some(Outcome::Loss), Some(Outcome::Win)) => Some(Outcome::Loss),
                (Some(_), Some(_)) => Some(Outcome::Draw),
                _ => None,
            },
    {
        match (self.outcome(player1), self.outcome(player2)) {
            (Some(Outcome::Win), Some(Outcome::Loss)) => Some(Outcome::Win),
            (Some(Outcome::Loss), Some(Outcome::Win)) => Some(Outcome::Loss),
            (Some(_), Some(_)) => Some(Outcome::Draw),
            _ => None,
        }
    }

    /// The buildings of the first `n` players in seating order: each player's
    /// settlements, then its cities, lowest vertices first.
    pub open spec fn building_list(&self, n: nat) -> Seq<(Player, VertexId, bool)>
        decreases n,
    {
        if n == 0 {
            Seq::empty()
        } else {
            let p = Player::spec_from_index((n - 1) as nat);
            self.building_list((n - 1) as nat) + building_entries(
                p,
                ascending(self.board.buildings_of(p).difference(self.board.cities@), 64),
                false,
            ) + building_entries(p, ascending(self.board.buildings_of(p).intersect(self.board.cities@), 64), true)
        }
    }

    /// The roads of the first `n` players in seating order, lowest edges first.
    pub open spec fn road_list(&self, n: nat) -> Seq<(Player, EdgeId)>
        decreases n,
    {
        if n == 0 {
            Seq::empty()
        } else {
            let p = Player::spec_from_index((n - 1) as nat);
            self.road_list((n - 1) as nat) + road_entries(p, ascending(self.board.roads_of(p), 128))
        }
    }

    /// The sizes of the hands of the first `n` players other than `observer`.
    pub open spec fn hidden_list(&self, observer: Player, n: nat) -> Seq<HiddenHand>
        decreases n,
    {
        if n == 0 {
            Seq::empty()
        } else {
            let p = Player::spec_from_index((n - 1) as nat);
            let prev = self.hidden_list(observer, (n - 1) as nat);
            if p != observer {
                prev.push(HiddenHand { player: p, resources: sum5(self.hand(p)) as u8, dev_cards: sum5(self.cards(p)) as u8 })
            } else {
                prev
            }
        }
    }

    pub open spec fn can_observe(&self, observer: Player) -> bool {
        &&& self.can_list_actions(observer)
        &&& forall|p: int| 0 <= p < 4 ==> sum5(#[trigger] self.player_resources@[p]@) <= u8::MAX
        &&& forall|p: int| 0 <= p < 4 ==> sum5(#[trigger] self.dev_cards@[p]@) <= u8::MAX
    }

    /// What `observer` sees: whose turn it is, its own actions and hand, the
    /// sizes of the other hands, the robber, and every building and road.
    pub fn observe(&self, observer: Player) -> (r: Observation)
        requires
            self.can_observe(observer),
        ensures
            r.observer == observer,
            r.current_player == self.spec_current_player(),
            r.is_terminal == (self.spec_victory_points(self.whose_turn) >= 10),
            observer != self.spec_current_player() ==> r.actions@ == Seq::<Action>::empty(),
            observer == self.spec_current_player() ==> r.actions@ == match self.phase {
                Phase::Rolling => roll_actions(),
                Phase::BuyingDevCard => dev_draws(self.bank.dev_cards@, 5),
                Phase::StealingFromPlayer(target) => per_resource(
                    self.hand(target),
                    5,
                    |res: Resource| Action::StealResourceFrom(target, res),
                ),
                _ => self.phase_actions(),
            },
            r.robber == self.board.robber,
            r.observer_hand.resources@ == self.hand(observer),
            r.observer_hand.dev_cards@ == self.cards(observer),
            r.hidden_hands@ == self.hidden_list(observer, 4),
            r.buildings@ == self.building_list(4),
            r.roads@ == self.road_list(4),
    {
        let (actions, _) = self.get_actions(observer);
        let mut buildings: Vec<(Player, VertexId, bool)> = Vec::new();
        let mut roads: Vec<(Player, EdgeId)> = Vec::new();
        let mut hidden: Vec<HiddenHand> = Vec::new();
        let mut i: usize = 0;
        while i < 4
            invariant
                i <= 4,
                self.can_observe(observer),
                buildings@ == self.building_list(i as nat),
                roads@ == self.road_list(i as nat),
                hidden@ == self.hidden_list(observer, i as nat),
            decreases 4 - i,
        {
            let p = Player::from_usize(i);
            let settled = self.board.settlements(p).values();
            tag_buildings(p, &settled, false, &mut buildings);
            let upgraded = self.board.cities(p).values();
            tag_buildings(p, &upgraded, true, &mut buildings);
            let built = self.board.roads(p).values();
            tag_roads(p, &built, &mut roads);
            if p != observer {
                let h = &self.player_resources[i];
                let c = &self.dev_cards[i];
                assert(sum5(self.player_resources@[i as int]@) <= u8::MAX);
                assert(sum5(self.dev_cards@[i as int]@) <= u8::MAX);
                hidden.push(
                    HiddenHand {
                        player: p,
                        resources: h[0] + h[1] + h[2] + h[3] + h[4],
                        dev_cards: c[0] + c[1] + c[2] + c[3] + c[4],
                    },
                );
            }
            i = i + 1;
        }
        let oi = observer.into_usize();
        Observation {
            observer,
            current_player: self.current_player(),
            is_terminal: self.is_terminal(),
            actions,
            observer_hand: ObserverHand { resources: self.player_resources[oi], dev_cards: self.dev_cards[oi] },
            hidden_hands: hidden,
            robber: self.board.robber_hex_id(),
            buildings,
            roads,
        }
    }

    /// Takes a card drawn at random, by how many of each `target` holds, and
    /// gives it to `player`; nothing happens to a player without cards.
    pub fn steal_resource(&mut self, player: Player, target: Player) -> (r: Option<Resource>)
        requires
            player != target,
            forall|k: int| 0 <= k < 5 ==> old(self).hand(player)[k] < u8::MAX,
        ensures
            !has_cards(old(self).hand(target)) ==> r is None && *final(self) == *old(self),
            has_cards(old(self).hand(target)) ==> (r matches Some(res) && old(self).hand(target)[res.spec_index() as int] > 0
                && forall|q: Player, k: int| 0 <= k < 5 ==> #[trigger] final(self).hand(q)[k] == old(self).hand(q)[k] - (if q
                == target && k == res.spec_index() {
                1int
            } else {
                0int
            }) + (if q == player && k == res.spec_index() {
                1int
            } else {
                0int
            })),
            final(self).bank == old(self).bank,
            final(self).board == old(self).board,
            final(self).phase == old(self).phase,
            Self::same_cards_and_turn(*old(self), *final(self)),
    {
        let ti = target.into_usize();
        let counts = self.player_resources[ti];
        if counts[0] == 0 && counts[1] == 0 && counts[2] == 0 && counts[3] == 0 && counts[4] == 0 {
            return None;
        }
        let weights: Vec<u32> = vec![counts[0] as u32, counts[1] as u32, counts[2] as u32, counts[3] as u32, counts[4] as u32];
        proof {
            reveal_with_fuel(crate::chance::total_weight, 6);
            assert(weights@.drop_last().drop_last().drop_last().drop_last().drop_last() =~= Seq::<u32>::empty());
        }
        let k = random_weighted_index(&weights);
        let res = Resource::from_usize(k);
        let mut from = self.player_resources[ti];
        from[k] = from[k] - 1;
        self.player_resources[ti] = from;
        let pi = player.into_usize();
        assert(pi != ti);
        assert(self.player_resources@[pi as int] == old(self).player_resources@[pi as int]);
        assert(old(self).hand(player)[k as int] < u8::MAX);
        let mut to = self.player_resources[pi];
        to[k] = to[k] + 1;
        self.player_resources[pi] = to;
        proof {
            assert forall|q: Player, j: int| 0 <= j < 5 implies #[trigger] self.hand(q)[j] == old(self).hand(q)[j] - (if q == target
                && j == res.spec_index() {
                1int
            } else {
                0int
            }) + (if q == player && j == res.spec_index() {
                1int
            } else {
                0int
            }) by {
                if q == player {
                    assert(pidx(q) == pi);
                } else if q == target {
                    assert(pidx(q) == ti);
                } else {
                    assert(pidx(q) != pi && pidx(q) != ti);
                }
            }
        }
        Some(res)
    }

    /// Moves `bundle` from the bank into `player`'s hand.
    fn take_from_bank(&mut self, player: Player, bundle: [u8; 5])
        requires
            forall|k: int| 0 <= k < 5 ==> old(self).bank.resources@[k] >= #[trigger] bundle@[k],
            forall|k: int| 0 <= k < 5 ==> old(self).hand(player)[k] + #[trigger] bundle@[k] <= u8::MAX,
        ensures
            Self::moved_to(*old(self), *final(self), player, bundle@),
    {
        let pi = player.into_usize();
        let mut hand = self.player_resources[pi];
        let mut stock = self.bank.resources;
        let mut k: usize = 0;
        while k < 5
            invariant
                k <= 5,
                pi == pidx(player),
                forall|j: int| 0 <= j < 5 ==> old(self).bank.resources@[j] >= #[trigger] bundle@[j],
                forall|j: int| 0 <= j < 5 ==> old(self).hand(player)[j] + #[trigger] bundle@[j] <= u8::MAX,
                forall|j: int| 0 <= j < 5 ==> #[trigger] stock@[j] == old(self).bank.resources@[j] - if j < k { bundle@[j] as int } else { 0int },
                forall|j: int| 0 <= j < 5 ==> #[trigger] hand@[j] == old(self).hand(player)[j] + if j < k { bundle@[j] as int } else { 0int },
                *self == *old(self),
            decreases 5 - k,
        {
            stock[k] = stock[k] - bundle[k];
            hand[k] = hand[k] + bundle[k];
            k = k + 1;
        }
        self.bank.resources = stock;
        self.player_resources[pi] = hand;
    }

    /// Moves `bundle` from `player`'s hand into the bank.
    fn give_to_bank(&mut self, player: Player, bundle: [u8; 5])
        requires
            forall|k: int| 0 <= k < 5 ==> old(self).hand(player)[k] >= #[trigger] bundle@[k],
            forall|k: int| 0 <= k < 5 ==> old(self).bank.resources@[k] + #[trigger] bundle@[k] <= u8::MAX,
        ensures
            Self::moved_from(*old(self), *final(self), player, bundle@),
    {
        let pi = player.into_usize();
        let mut hand = self.player_resources[pi];
        let mut stock = self.bank.resources;
        let mut k: usize = 0;
        while k < 5
            invariant
                k <= 5,
                pi == pidx(player),
                forall|j: int| 0 <= j < 5 ==> old(self).hand(player)[j] >= #[trigger] bundle@[j],
                forall|j: int| 0 <= j < 5 ==> old(self).bank.resources@[j] + #[trigger] bundle@[j] <= u8::MAX,
                forall|j: int| 0 <= j < 5 ==> #[trigger] stock@[j] == old(self).bank.resources@[j] + if j < k { bundle@[j] as int } else { 0int },
                forall|j: int| 0 <= j < 5 ==> #[trigger] hand@[j] == old(self).hand(player)[j] - if j < k { bundle@[j] as int } else { 0int },
                *self == *old(self),
            decreases 5 - k,
        {
            stock[k] = stock[k] + bundle[k];
            hand[k] = hand[k] - bundle[k];
            k = k + 1;
        }
        self.bank.resources = stock;
        self.player_resources[pi] = hand;
    }
}

/// The players at a set of vertices depend only on the buildings.
proof fn lemma_same_touching(a: Board, b: Board, verts: Set<nat>, n: nat)
    requires
        a.player_buildings == b.player_buildings,
    ensures
        a.players_touching(verts, n) == b.players_touching(verts, n),
    decreases n,
{
    if n > 0 {
        lemma_same_touching(a, b, verts, (n - 1) as nat);
    }
}

/// Who may be robbed depends only on the phase, the turn and the hands.
proof fn lemma_same_steal_targets(a: State, b: State, list: Seq<Player>)
    requires
        a.phase == b.phase,
        a.whose_turn == b.whose_turn,
        a.player_resources == b.player_resources,
    ensures
        a.steal_targets(list) == b.steal_targets(list),
    decreases list.len(),
{
    if list.len() > 0 {
        lemma_same_steal_targets(a, b, list.drop_last());
    }
}

/// Counting more players never lowers the total received.
proof fn lemma_shares_below_grow(b: Board, roll: int, k: int, stock: nat, n: int)
    requires
        0 <= n <= 4,
    ensures
        shares_below(b, roll, k, stock, n) <= shares_below(b, roll, k, stock, 4),
    decreases 4 - n,
{
    if n < 4 {
        lemma_shares_below_grow(b, roll, k, stock, n + 1);
    }
}

/// All the cards of resource `k`: in the bank and in every hand.
pub open spec fn resource_total(s: State, k: int) -> int {
    s.bank.resources@[k] + s.hand(Player::Blue)[k] + s.hand(Player::Orange)[k] + s.hand(Player::Red)[k] + s.hand(
        Player::White,
    )[k]
}

/// Moving cards between the bank and one hand keeps every total.
proof fn lemma_moved_conserves(old: State, new: State, p: Player, into_bank: Seq<int>)
    requires
        State::resources_moved(old, new, p, into_bank),
    ensures
        forall|k: int| 0 <= k < 5 ==> #[trigger] resource_total(new, k) == resource_total(old, k),
{
    assert forall|k: int| 0 <= k < 5 implies #[trigger] resource_total(new, k) == resource_total(old, k) by {
        assert(new.hand(Player::Blue)[k] == old.hand(Player::Blue)[k] - if p == Player::Blue { into_bank[k] } else { 0int });
        assert(new.hand(Player::Orange)[k] == old.hand(Player::Orange)[k] - if p == Player::Orange { into_bank[k] } else { 0int });
        assert(new.hand(Player::Red)[k] == old.hand(Player::Red)[k] - if p == Player::Red { into_bank[k] } else { 0int });
        assert(new.hand(Player::White)[k] == old.hand(Player::White)[k] - if p == Player::White { into_bank[k] } else { 0int });
    }
}

/// A roll pays out of the bank exactly what the hands receive.
#[verifier::spinoff_prover]
proof fn lemma_roll_conserves(old: State, new: State, value: u8, r: Option<[[u8; 5]; 4]>)
    requires
        State::roll_handled(old, new, value, r),
    ensures
        forall|k: int| 0 <= k < 5 ==> #[trigger] resource_total(new, k) == resource_total(old, k),
{
    assert forall|k: int| 0 <= k < 5 implies #[trigger] resource_total(new, k) == resource_total(old, k) by {
        if value != 7 {
            reveal_with_fuel(shares_below, 5);
            let stock = old.bank.resources@[k] as nat;
            assert(new.hand(Player::Blue)[k] == old.hand(Player::Blue)[k] + share(old.board, value as int, k, 0, stock));
            assert(new.hand(Player::Orange)[k] == old.hand(Player::Orange)[k] + share(old.board, value as int, k, 1, stock));
            assert(new.hand(Player::Red)[k] == old.hand(Player::Red)[k] + share(old.board, value as int, k, 2, stock));
            assert(new.hand(Player::White)[k] == old.hand(Player::White)[k] + share(old.board, value as int, k, 3, stock));
        }
    }
}

/// Monopoly gathers every card of one resource into one hand.
proof fn lemma_monopoly_conserves(old: State, new: State, player: Player, res: Resource)
    requires
        State::monopolized(old, new, player, res),
    ensures
        forall|k: int| 0 <= k < 5 ==> #[trigger] resource_total(new, k) == resource_total(old, k),
{
    assert forall|k: int| 0 <= k < 5 implies #[trigger] resource_total(new, k) == resource_total(old, k) by {
        if k != res.spec_index() {
            assert(new.hand(Player::Blue)[k] == old.hand(Player::Blue)[k]);
            assert(new.hand(Player::Orange)[k] == old.hand(Player::Orange)[k]);
            assert(new.hand(Player::Red)[k] == old.hand(Player::Red)[k]);
            assert(new.hand(Player::White)[k] == old.hand(Player::White)[k]);
        } else {
            assert(new.hand(Player::Blue)[k] == 0 || player == Player::Blue);
            assert(new.hand(Player::Orange)[k] == 0 || player == Player::Orange);
            assert(new.hand(Player::Red)[k] == 0 || player == Player::Red);
            assert(new.hand(Player::White)[k] == 0 || player == Player::White);
        }
    }
}

/// A theft moves one card from one hand to another.
proof fn lemma_theft_conserves(old: State, new: State, player: Player, target: Player, res: Resource)
    requires
        State::resource_stolen(old, new, player, target, res),
    ensures
        forall|k: int| 0 <= k < 5 ==> #[trigger] resource_total(new, k) == resource_total(old, k),
{
    assert forall|k: int| 0 <= k < 5 implies #[trigger] resource_total(new, k) == resource_total(old, k) by {
        let c = k == res.spec_index();
        assert(new.hand(Player::Blue)[k] == old.hand(Player::Blue)[k] - (if Player::Blue == target && c { 1int } else { 0int }) + (if Player::Blue == player && c { 1int } else { 0int }));
        assert(new.hand(Player::Orange)[k] == old.hand(Player::Orange)[k] - (if Player::Orange == target && c { 1int } else { 0int }) + (if Player::Orange == player && c { 1int } else { 0int }));
        assert(new.hand(Player::Red)[k] == old.hand(Player::Red)[k] - (if Player::Red == target && c { 1int } else { 0int }) + (if Player::Red == player && c { 1int } else { 0int }));
        assert(new.hand(Player::White)[k] == old.hand(Player::White)[k] - (if Player::White == target && c { 1int } else { 0int }) + (if Player::White == player && c { 1int } else { 0int }));
    }
}

/// Nothing moves when neither the bank's cards nor the hands change.
proof fn lemma_still_conserves(old: State, new: State)
    requires
        new.bank.resources == old.bank.resources,
        new.player_resources == old.player_resources,
    ensures
        forall|k: int| 0 <= k < 5 ==> #[trigger] resource_total(new, k) == resource_total(old, k),
{
}

/// Cards change hands but are never made or lost: every action keeps the
/// number of cards of each resource, counting the bank and all the hands.
#[verifier::spinoff_prover]
pub proof fn lemma_resources_conserved(old: State, new: State, table: Map<u128, u8>, action: Action)
    requires
        old.can_apply(table, action),
        State::applied(old, new, table, action),
    ensures
        forall|k: int| 0 <= k < 5 ==> #[trigger] resource_total(new, k) == resource_total(old, k),
{
    let player = old.spec_current_player();
    match action {
        Action::Roll(value) => {
            let r = choose|r: Option<[[u8; 5]; 4]>| State::roll_handled(old, new, value, r);
            lemma_roll_conserves(old, new, value, r);
        },
        Action::BuildSettlement(_) => lemma_moved_conserves(old, new, player, ints(spec_buy_cost(Purchasable::Settlement))),
        Action::UpgradeSettlement(_) => lemma_moved_conserves(old, new, player, ints(spec_buy_cost(Purchasable::City))),
        Action::BuildRoad(_) => {
            if old.phase is Normal {
                lemma_moved_conserves(old, new, player, ints(spec_buy_cost(Purchasable::Road)));
            } else {
                lemma_still_conserves(old, new);
            }
        },
        Action::StealResourceFrom(target, res) => lemma_theft_conserves(old, new, player, target, res),
        Action::DiscardResource(res) => lemma_moved_conserves(old, new, player, single(res.spec_index() as int, 1)),
        Action::PlayDevCard(card) => {
            let mid = State { dev_cards: old.dev_cards, has_played_dev_card: old.has_played_dev_card, ..new };
            assert(State::card_activated(old, mid, card));
            lemma_still_conserves(old, new);
        },
        Action::Monopolize(res) => lemma_monopoly_conserves(old, new, player, res),
        Action::TakeFreeResource(res) => lemma_moved_conserves(old, new, player, single(res.spec_index() as int, -1)),
        Action::ExchangeResources(((res1, cost), res2)) => lemma_moved_conserves(
            old,
            new,
            player,
            Seq::new(
                5,
                |k: int| (if k == res1.spec_index() { cost as int } else { 0int }) - (if k == res2.spec_index() {
                    1int
                } else {
                    0int
                }),
            ),
        ),
        Action::BuyDevCard => lemma_moved_conserves(old, new, player, ints(spec_buy_cost(Purchasable::DevCard))),
        _ => lemma_still_conserves(old, new),
    }
}

/// The largest army belongs to a player who has played at least three
/// knights and no fewer than anyone else.
pub open spec fn army_leader_valid(s: State) -> bool {
    s.army_leader matches Some(p) ==> s.armies@[pidx(p)] >= 3 && forall|q: int| 0 <= q < 4 ==> #[trigger] s.armies@[q] <= s.armies@[pidx(p)]
}

/// Every action keeps the largest army with a player who has played at
/// least three knights and no fewer than anyone else.
pub proof fn lemma_army_leader_kept(old: State, new: State, table: Map<u128, u8>, action: Action)
    requires
        old.can_apply(table, action),
        State::applied(old, new, table, action),
        army_leader_valid(old),
    ensures
        army_leader_valid(new),
{
    match action {
        Action::PlayDevCard(card) => {
            let mid = State { dev_cards: old.dev_cards, has_played_dev_card: old.has_played_dev_card, ..new };
            assert(State::card_activated(old, mid, card));
            if card == DevCard::Knight {
                let w = old.whose_turn;
                let army = old.armies@[pidx(w)] + 1;
                assert forall|q: int| 0 <= q < 4 implies old.armies@[q] <= max4(old.armies@) by {}
                if let Some(p) = new.army_leader {
                    if army >= 3 && army > max4(old.armies@) {
                        assert(p == w);
                    } else {
                        assert(old.army_leader == Some(p));
                        assert(old.armies@[pidx(p)] >= max4(old.armies@) || pidx(p) == pidx(w)) by {
                            assert(old.armies@[0] <= old.armies@[pidx(p)]);
                            assert(old.armies@[1] <= old.armies@[pidx(p)]);
                            assert(old.armies@[2] <= old.armies@[pidx(p)]);
                            assert(old.armies@[3] <= old.armies@[pidx(p)]);
                        }
                    }
                }
            }
        },
        Action::Roll(value) => {
            let r = choose|r: Option<[[u8; 5]; 4]>| State::roll_handled(old, new, value, r);
        },
        _ => {},
    }
}

/// Every action leaves the longest road marker with a player whose road has
/// at least five segments and no one's road is longer.
pub proof fn lemma_road_marker_kept(old: State, new: State, table: Map<u128, u8>, action: Action)
    requires
        old.can_apply(table, action),
        State::applied(old, new, table, action),
        road_marker_valid(old.board),
    ensures
        road_marker_valid(new.board),
{
    lemma_road_marker_leads(old.board.road_leader, new.board.longest_roads@);
    match action {
        Action::Roll(value) => {
            let r = choose|r: Option<[[u8; 5]; 4]>| State::roll_handled(old, new, value, r);
        },
        _ => {},
    }
}

/// Every action keeps the state well formed: the board's tables and ids stay
/// in range and the seating order stays the same.
pub proof fn lemma_wf_kept(old: State, new: State, table: Map<u128, u8>, action: Action)
    requires
        old.wf(),
        old.can_apply(table, action),
        State::applied(old, new, table, action),
    ensures
        new.wf(),
{
    match action {
        Action::Roll(value) => {
            let r = choose|r: Option<[[u8; 5]; 4]>| State::roll_handled(old, new, value, r);
        },
        _ => {},
    }
}

/// `s2` is `s1` with player `q`'s resource cards split another way: every
/// other hand is the same, and `q` holds as many cards as before.
pub open spec fn split_differently(s1: State, s2: State, q: Player) -> bool {
    &&& s2 == (State { player_resources: s2.player_resources, ..s1 })
    &&& forall|p: Player| p != q ==> #[trigger] s2.hand(p) == s1.hand(p)
    &&& sum5(s2.hand(q)) == sum5(s1.hand(q))
}

proof fn lemma_has_cards_sum(h: Seq<u8>)
    requires
        h.len() == 5,
    ensures
        has_cards(h) <==> sum5(h) > 0,
{
    if sum5(h) > 0 {
        assert(h[0] > 0 || h[1] > 0 || h[2] > 0 || h[3] > 0 || h[4] > 0);
    }
}

proof fn lemma_steal_targets_split(s1: State, s2: State, q: Player, list: Seq<Player>)
    requires
        split_differently(s1, s2, q),
    ensures
        s2.steal_targets(list) == s1.steal_targets(list),
    decreases list.len(),
{
    if list.len() > 0 {
        lemma_steal_targets_split(s1, s2, q, list.drop_last());
        let p = list.last();
        lemma_has_cards_sum(s1.hand(p));
        lemma_has_cards_sum(s2.hand(p));
    }
}

proof fn lemma_lists_split(s1: State, s2: State, q: Player, observer: Player, n: nat)
    requires
        split_differently(s1, s2, q),
    ensures
        s2.hidden_list(observer, n) == s1.hidden_list(observer, n),
        s2.building_list(n) == s1.building_list(n),
        s2.road_list(n) == s1.road_list(n),
    decreases n,
{
    if n > 0 {
        lemma_lists_split(s1, s2, q, observer, (n - 1) as nat);
        let p = Player::spec_from_index((n - 1) as nat);
        if p != q {
            assert(s2.hand(p) == s1.hand(p));
        }
    }
}

/// How another player splits a hand is hidden: for states that differ only in
/// how a player `q` other than the observer splits the same number of cards,
/// everything [`State::observe`] reports agrees (the player to act, the end of
/// the game, the observer's actions and hand, the sizes of the other hands,
/// the buildings and roads), except the actions while the observer steals a
/// card from `q`, which list `q`'s cards.
pub proof fn lemma_hidden_split(s1: State, s2: State, q: Player, observer: Player)
    requires
        q != observer,
        split_differently(s1, s2, q),
    ensures
        s2.spec_current_player() == s1.spec_current_player(),
        s2.spec_victory_points(s2.whose_turn) == s1.spec_victory_points(s1.whose_turn),
        s2.hand(observer) == s1.hand(observer),
        s2.cards(observer) == s1.cards(observer),
        s2.hidden_list(observer, 4) == s1.hidden_list(observer, 4),
        s2.building_list(4) == s1.building_list(4),
        s2.road_list(4) == s1.road_list(4),
        s2.board == s1.board,
        s2.bank == s1.bank,
        s2.phase == s1.phase,
        observer == s1.spec_current_player() ==> s2.phase_actions() == s1.phase_actions(),
        forall|target: Player| target != q ==> #[trigger] s2.hand(target) == s1.hand(target),
{
    lemma_lists_split(s1, s2, q, observer, 4);
    if observer == s1.spec_current_player() {
        let c = observer;
        assert(s2.hand(c) == s1.hand(c));
        if let Phase::StealingFromHex(h) = s1.phase {
            lemma_steal_targets_split(s1, s2, q, s1.board.players_touching(s1.board.adj().h2v(h as nat), 4));
        }
        assert(s2.normal_actions(c) == s1.normal_actions(c));
    }
}

/// `a` is an action of the kind that buys `item`.
pub open spec fn offers_kind(a: Action, item: Purchasable) -> bool {
    match item {
        Purchasable::Road => a is BuildRoad,
        Purchasable::Settlement => a is BuildSettlement,
        Purchasable::City => a is UpgradeSettlement,
        Purchasable::DevCard => a is BuyDevCard,
    }
}

proof fn lemma_ascending_contains(s: Set<nat>, n: nat, x: nat)
    ensures
        ascending(s, n).contains(x) <==> (s.contains(x) && x < n),
    decreases n,
{
    if n > 0 {
        let m = (n - 1) as nat;
        lemma_ascending_contains(s, m, x);
        let prev = ascending(s, m);
        if s.contains(m) {
            let q = prev.push(m);
            if x == m {
                assert(q[prev.len() as int] == x);
            }
            if q.contains(x) && x != m {
                let k = choose|k: int| 0 <= k < q.len() && q[k] == x;
                assert(prev[k] == x);
            }
            if prev.contains(x) {
                let k = choose|k: int| 0 <= k < prev.len() && prev[k] == x;
                assert(q[k] == x);
            }
        }
    }
}

proof fn lemma_add_contains(a: Seq<Action>, b: Seq<Action>, x: Action)
    ensures
        (a + b).contains(x) <==> a.contains(x) || b.contains(x),
{
    if (a + b).contains(x) {
        let k = choose|k: int| 0 <= k < (a + b).len() && (a + b)[k] == x;
        if k < a.len() {
            assert(a[k] == x);
        } else {
            assert(b[k - a.len()] == x);
        }
    }
    if a.contains(x) {
        let k = choose|k: int| 0 <= k < a.len() && a[k] == x;
        assert((a + b)[k] == x);
    }
    if b.contains(x) {
        let k = choose|k: int| 0 <= k < b.len() && b[k] == x;
        assert((a + b)[k + a.len()] == x);
    }
}

proof fn lemma_trades_from_kind(ratios: Seq<u8>, stock: Seq<u8>, r1: int, n: nat)
    ensures
        forall|i: int| 0 <= i < trades_from(ratios, stock, r1, n).len() ==> #[trigger] trades_from(ratios, stock, r1, n)[i] is ExchangeResources,
    decreases n,
{
    if n > 0 {
        lemma_trades_from_kind(ratios, stock, r1, (n - 1) as nat);
    }
}

proof fn lemma_trades_kind(ratios: Seq<u8>, hand: Seq<u8>, stock: Seq<u8>, n: nat)
    ensures
        forall|i: int| 0 <= i < trades(ratios, hand, stock, n).len() ==> #[trigger] trades(ratios, hand, stock, n)[i] is ExchangeResources,
    decreases n,
{
    if n > 0 {
        let prev = trades(ratios, hand, stock, (n - 1) as nat);
        lemma_trades_kind(ratios, hand, stock, (n - 1) as nat);
        lemma_trades_from_kind(ratios, stock, n - 1, 5);
        let t = trades_from(ratios, stock, n - 1, 5);
        assert forall|i: int| 0 <= i < (prev + t).len() implies #[trigger] (prev + t)[i] is ExchangeResources by {
            if i >= prev.len() {
                assert((prev + t)[i] == t[i - prev.len()]);
            }
        }
    }
}

/// What the purchases of one kind offer: nothing unless `player` can afford
/// it, and otherwise one action on each place in `places` below `n`.
proof fn lemma_purchase_offers(s: State, player: Player, item: Purchasable, places: Set<nat>, n: nat, id: usize)
    requires
        item != Purchasable::DevCard,
        n <= 128,
        s.affordable(player, item) ==> s.purchases(player, item) == build_actions(item, ascending(places, n)),
    ensures
        forall|i: int| 0 <= i < s.purchases(player, item).len() ==> offers_kind(#[trigger] s.purchases(player, item)[i], item),
        s.purchases(player, item).contains(build_action(item, id as nat)) <==> (s.affordable(player, item) && places.contains(
            id as nat,
        ) && id < n),
{
    let p = s.purchases(player, item);
    let x = build_action(item, id as nat);
    if s.affordable(player, item) {
        let q = ascending(places, n);
        if p.contains(x) {
            let k = choose|k: int| 0 <= k < p.len() && p[k] == x;
            assert(p[k] == build_action(item, q[k]));
            assert(q.contains(q[k]));
            lemma_ascending_contains(places, n, q[k]);
            assert(q[k] == id as nat);
            lemma_ascending_contains(places, n, id as nat);
        }
        if places.contains(id as nat) && id < n {
            lemma_ascending_contains(places, n, id as nat);
            let k = choose|k: int| 0 <= k < q.len() && q[k] == id as nat;
            assert(p[k] == x);
        }
    }
}

/// In a normal turn `player` is offered a city exactly on each of its
/// settlements (its buildings that are not cities yet), a settlement exactly
/// on each free place next to its roads, and a road exactly on each free edge
/// next to its network, each only when it can afford one.
pub proof fn lemma_normal_turn_offers(s: State, player: Player, id: usize)
    ensures
        s.normal_actions(player).contains(Action::UpgradeSettlement(id)) <==> (s.affordable(player, Purchasable::City)
            && s.board.buildings_of(player).contains(id as nat) && !s.board.cities@.contains(id as nat)),
        s.normal_actions(player).contains(Action::BuildSettlement(id)) <==> (s.affordable(player, Purchasable::Settlement)
            && s.board.settlement_slots@.contains(id as nat) && s.board.player_settlement_slots@[pidx(player)]@.contains(
            id as nat,
        )),
        s.normal_actions(player).contains(Action::BuildRoad(id)) <==> (s.affordable(player, Purchasable::Road)
            && s.board.road_slots@.contains(id as nat) && s.board.player_road_slots@[pidx(player)]@.contains(id as nat)),
{
    let e = seq![Action::EndTurn];
    let r = s.purchases(player, Purchasable::Road);
    let st = s.purchases(player, Purchasable::Settlement);
    let c = s.purchases(player, Purchasable::City);
    let d = s.purchases(player, Purchasable::DevCard);
    let cp = s.card_plays(player);
    let t = s.spec_trades(player);
    let road_places = s.board.road_slots@.intersect(s.board.player_road_slots@[pidx(player)]@);
    let settle_places = s.board.settlement_slots@.intersect(s.board.player_settlement_slots@[pidx(player)]@);
    let city_places = s.board.buildings_of(player).difference(s.board.cities@);
    lemma_purchase_offers(s, player, Purchasable::Road, road_places, 128, id);
    lemma_purchase_offers(s, player, Purchasable::Settlement, settle_places, 64, id);
    lemma_purchase_offers(s, player, Purchasable::City, city_places, 64, id);
    lemma_trades_kind(Seq::new(5, |k: int| s.board.ratio(player, k)), s.hand(player), s.bank.resources@, 5);
    assert(forall|i: int| 0 <= i < d.len() ==> d[i] == Action::BuyDevCard);
    assert(forall|i: int| 0 <= i < cp.len() ==> #[trigger] cp[i] is PlayDevCard) by {
        if !s.has_played_dev_card {
            let a = s.play_if(player, DevCard::Knight);
            let b = s.play_if(player, DevCard::Monopoly);
            let f = s.play_if(player, DevCard::RoadBuilding);
            let g = s.play_if(player, DevCard::YearOfPlenty);
            assert forall|i: int| 0 <= i < cp.len() implies #[trigger] cp[i] is PlayDevCard by {
                if i < a.len() {
                    assert(cp[i] == a[i]);
                } else if i < a.len() + b.len() {
                    assert(cp[i] == b[i - a.len()]);
                } else if i < a.len() + b.len() + f.len() {
                    assert(cp[i] == f[i - a.len() - b.len()]);
                } else {
                    assert(cp[i] == g[i - a.len() - b.len() - f.len()]);
                }
            }
        }
    }
    assert(s.normal_actions(player) == e + r + st + c + d + cp + t);
    let bv = s.board.buildings_of(player);
    assert(bv.contains(id as nat) ==> id < 64);
    assert(s.board.settlement_slots@.contains(id as nat) ==> id < 64);
    assert(s.board.road_slots@.contains(id as nat) ==> id < 128);
    let xs = seq![Action::UpgradeSettlement(id), Action::BuildSettlement(id), Action::BuildRoad(id)];
    assert forall|j: int| 0 <= j < 3 implies (s.normal_actions(player).contains(#[trigger] xs[j]) <==> (
        (j == 0 && c.contains(xs[j])) || (j == 1 && st.contains(xs[j])) || (j == 2 && r.contains(xs[j])))) by {
        let x = xs[j];
        lemma_add_contains(e, r, x);
        lemma_add_contains(e + r, st, x);
        lemma_add_contains(e + r + st, c, x);
        lemma_add_contains(e + r + st + c, d, x);
        lemma_add_contains(e + r + st + c + d, cp, x);
        lemma_add_contains(e + r + st + c + d + cp, t, x);
        if e.contains(x) {
            let k = choose|k: int| 0 <= k < e.len() && e[k] == x;
        }
        if r.contains(x) {
            let k = choose|k: int| 0 <= k < r.len() && r[k] == x;
            assert(offers_kind(r[k], Purchasable::Road));
        }
        if st.contains(x) {
            let k = choose|k: int| 0 <= k < st.len() && st[k] == x;
            assert(offers_kind(st[k], Purchasable::Settlement));
        }
        if c.contains(x) {
            let k = choose|k: int| 0 <= k < c.len() && c[k] == x;
            assert(offers_kind(c[k], Purchasable::City));
        }
        if d.contains(x) {
            let k = choose|k: int| 0 <= k < d.len() && d[k] == x;
        }
        if cp.contains(x) {
            let k = choose|k: int| 0 <= k < cp.len() && cp[k] == x;
            assert(cp[k] is PlayDevCard);
        }
        if t.contains(x) {
            let k = choose|k: int| 0 <= k < t.len() && t[k] == x;
            assert(t[k] is ExchangeResources);
        }
    }
    assert(s.normal_actions(player).contains(xs[0]) <==> c.contains(xs[0]));
    assert(s.normal_actions(player).contains(xs[1]) <==> st.contains(xs[1]));
    assert(s.normal_actions(player).contains(xs[2]) <==> r.contains(xs[2]));
}

} // verus!
