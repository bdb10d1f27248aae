use boardgames::catan_common::Action::{
    BuildRoad, BuildSettlement, BuyDevCard, DiscardResource, EndTurn, ExchangeResources, Monopolize,
    MoveRobber, PlayDevCard, Roll, RollDice, StealFrom, StealResourceFrom, TakeFreeResource,
    UpgradeSettlement,
};
use boardgames::catan_common::{
    Action, N_EDGES, N_HEXES, N_VERTICES, Player, Resource, dev_cards, players, resources, roll_weights,
};

#[test]
fn action_usize_conversion() {
    let mut actions = vec![];
    actions.push(RollDice);
    for roll in 2u8..=12 {
        actions.push(Roll(roll));
    }
    for v in 0..N_VERTICES {
        actions.push(BuildSettlement(v));
    }
    for v in 0..N_VERTICES {
        actions.push(UpgradeSettlement(v));
    }
    for e in 0..N_EDGES {
        actions.push(BuildRoad(e));
    }
    actions.push(BuyDevCard);
    for card in dev_cards() {
        actions.push(PlayDevCard(card));
    }
    for h in 0..N_HEXES {
        actions.push(MoveRobber(h));
    }
    for r in resources() {
        actions.push(DiscardResource(r));
    }
    for p in players() {
        actions.push(StealFrom(p));
    }
    for p in players() {
        for r in resources() {
            actions.push(StealResourceFrom(p, r));
        }
    }
    for r in resources() {
        actions.push(Monopolize(r));
    }
    for r in resources() {
        actions.push(TakeFreeResource(r));
    }
    for from_r in resources() {
        for to_r in resources() {
            for qty in [2u8, 3, 4] {
                actions.push(ExchangeResources(((from_r, qty), to_r)));
            }
        }
    }
    actions.push(EndTurn);

    for action in actions {
        let n: usize = action.into_index();
        assert_eq!(Action::from_index(n), action, "round-trip failed for {action:?}");
    }
}

#[test]
fn action_numbers_put_the_kind_in_the_low_byte() {
    assert_eq!(Action::RollDice.into_index(), 0);
    assert_eq!(Action::Roll(7).into_index(), 1 | (7 << 8));
    assert_eq!(Action::BuildRoad(71).into_index(), 4 | (71 << 8));
    assert_eq!(Action::EndTurn.into_index(), 15);
    let trade = Action::ExchangeResources(((Resource::Ore, 3), Resource::Wool));
    assert_eq!(trade.into_index(), 14 | (3 << 8) | (3 << 16) | (4 << 24));
}

#[test]
fn players_take_turns_in_seating_order() {
    assert_eq!(Player::Blue.next(), Player::Orange);
    assert_eq!(Player::White.next(), Player::Blue);
    assert_eq!(Player::Red.enemies(), [Player::Blue, Player::Orange, Player::White]);
    let usizes: Vec<usize> = players().into_iter().map(|p| p.into_usize()).collect();
    assert_eq!(usizes, vec![0, 1, 2, 3]);
}

#[test]
fn two_dice_weights() {
    assert_eq!(roll_weights(), [1, 2, 3, 4, 5, 6, 5, 4, 3, 2, 1]);
    assert_eq!(roll_weights().iter().sum::<u32>(), 36);
}
