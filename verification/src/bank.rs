//! The bank: resource cards, development cards and each player's pieces.
use vstd::prelude::*;
use crate::catan_common::{DevCard, Player, Purchasable};

verus! {

/// What the bank holds.
#[derive(Clone)]
pub struct Bank {
    /// The resource cards, by resource.
    pub resources: [u8; 5],
    /// Each player's pieces left to build, by kind (roads, settlements,
    /// cities; development cards are counted apart).
    pub buildings: [[u8; 4]; 4],
    /// The development cards, by kind.
    pub dev_cards: [u8; 5],
}

impl Bank {
    pub open spec fn dev_card_counts(&self) -> Seq<u8> {
        self.dev_cards@
    }

    pub open spec fn dev_card_total(counts: Seq<u8>) -> int {
        counts[0] + counts[1] + counts[2] + counts[3] + counts[4]
    }

    /// The bank at the start of a game: 19 of each resource, 14 knights, 5
    /// victory points, 2 of each other development card, and for each player 13
    /// roads, 5 settlements and 4 cities.
    pub fn bank() -> (r: Bank)
        ensures
            r.resources@ == seq![19u8, 19, 19, 19, 19],
            forall|p: int| 0 <= p < 4 ==> #[trigger] r.buildings@[p]@ == seq![13u8, 5, 4, 0],
            r.dev_card_counts() == seq![14u8, 5, 2, 2, 2],
    {
        let pieces: [u8; 4] = [13, 5, 4, 0];
        let r = Bank {
            resources: [19, 19, 19, 19, 19],
            buildings: [pieces, pieces, pieces, pieces],
            dev_cards: [14, 5, 2, 2, 2],
        };
        assert(r.resources@ =~= seq![19u8, 19, 19, 19, 19]);
        assert(r.dev_cards@ =~= seq![14u8, 5, 2, 2, 2]);
        assert(pieces@ =~= seq![13u8, 5, 4, 0]);
        r
    }

    /// How many of `item` `player` can still buy: the development cards left
    /// in the bank, or the player's pieces of that kind.
    pub fn purchasable_count(&self, player: Player, item: Purchasable) -> (r: u8)
        requires
            item == Purchasable::DevCard ==> Self::dev_card_total(self.dev_card_counts()) <= u8::MAX,
        ensures
            item == Purchasable::DevCard ==> r == Self::dev_card_total(self.dev_card_counts()),
            item != Purchasable::DevCard ==> r == self.buildings@[player.spec_index() as int]@[item.spec_index() as int],
    {
        match item {
            Purchasable::DevCard => {
                let d = &self.dev_cards;
                d[0] + d[1] + d[2] + d[3] + d[4]
            },
            _ => self.buildings[player.into_usize()][item.into_usize()],
        }
    }

    /// How likely each kind of development card is to be drawn: its count.
    pub fn dev_card_weights(&self) -> (r: Vec<u32>)
        ensures
            r.len() == 5,
            forall|k: int| 0 <= k < 5 ==> #[trigger] r@[k] == self.dev_card_counts()[k],
    {
        let mut r: Vec<u32> = Vec::new();
        let mut k: usize = 0;
        while k < 5
            invariant
                k <= 5,
                r.len() == k,
                forall|j: int| 0 <= j < k ==> #[trigger] r@[j] == self.dev_cards@[j],
            decreases 5 - k,
        {
            r.push(self.dev_cards[k] as u32);
            k = k + 1;
        }
        r
    }

    /// Takes one development card of kind `card` out of the bank.
    pub fn take_dev_card(&mut self, card: DevCard)
        requires
            old(self).dev_card_counts()[card.spec_index() as int] > 0,
        ensures
            final(self).dev_card_counts() == old(self).dev_card_counts().update(
                card.spec_index() as int,
                (old(self).dev_card_counts()[card.spec_index() as int] - 1) as u8,
            ),
            final(self).resources == old(self).resources,
            final(self).buildings == old(self).buildings,
    {
        let k = card.into_usize();
        self.dev_cards[k] = self.dev_cards[k] - 1;
        assert(self.dev_cards@ =~= old(self).dev_cards@.update(k as int, (old(self).dev_cards@[k as int] - 1) as u8));
    }
}

} // verus!
