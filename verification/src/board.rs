//! The Catan board: buildings, roads, the robber, and what they yield.
use vstd::prelude::*;
use crate::adjacency::{Adjacency, below};
use crate::bitboard::{Bitboard, BitboardInt};
use crate::catan_common::{
    EdgeId, HexId, InitialObservation, N_EDGES, N_HEXES, N_VERTICES, Player, Resource, VertexId,
    players,
};
use crate::road_trails::{RoadTrailTable, best_of, component, table_complete, value_of};

verus! {

/// The parts of a board that never change during a game.
#[derive(Clone)]
pub struct SharedBoardData {
    pub adjacency: Adjacency,
    /// The resource of each hex; the desert has none.
    pub resources: Vec<Option<Resource>>,
    /// The number token of each hex; the desert has none.
    pub rolls: Vec<Option<u8>>,
    /// For each roll from 2 to 12 and each resource, the vertices that receive it.
    pub roll_resources: Vec<Vec<Bitboard<u64>>>,
    /// The vertices at a three-for-one harbor.
    pub generic_harbors: Bitboard<u64>,
    /// For each resource, the vertices at its two-for-one harbor.
    pub resource_harbors: Vec<Bitboard<u64>>,
    /// The hex where the robber starts.
    pub center_hex: HexId,
}

impl SharedBoardData {
    pub open spec fn wf(&self) -> bool {
        &&& self.adjacency.wf()
        &&& self.resources.len() == N_HEXES
        &&& self.rolls.len() == N_HEXES
        &&& self.roll_resources.len() == 11
        &&& forall|i: int| 0 <= i < 11 ==> (#[trigger] self.roll_resources@[i]).len() == 5
        &&& self.resource_harbors.len() == 5
        &&& self.center_hex < N_HEXES
    }

    /// The vertices that receive `res` on `roll`: the corners of every hex with
    /// that resource and that number.
    pub open spec fn spec_roll_vertices(&self, roll: int, res: Resource) -> Set<nat> {
        Set::new(
            |v: nat|
                exists|h: int|
                    0 <= h < N_HEXES && #[trigger] self.resources@[h] == Some(res) && self.rolls@[h]
                        == Some(roll as u8) && self.adjacency.h2v(h as nat).contains(v),
        )
    }

    /// Builds the table of producing vertices from the hexes.
    pub fn new(
        adjacency: Adjacency,
        resources: Vec<Option<Resource>>,
        rolls: Vec<Option<u8>>,
        generic_harbors: Bitboard<u64>,
        resource_harbors: Vec<Bitboard<u64>>,
        center_hex: HexId,
    ) -> (r: SharedBoardData)
        requires
            adjacency.wf(),
            resources.len() == N_HEXES,
            rolls.len() == N_HEXES,
            resource_harbors.len() == 5,
            center_hex < N_HEXES,
        ensures
            r.wf(),
            r.adjacency == adjacency,
            r.resources@ == resources@,
            r.rolls@ == rolls@,
            r.generic_harbors == generic_harbors,
            r.resource_harbors@ == resource_harbors@,
            r.center_hex == center_hex,
            forall|i: int, k: int|
                0 <= i < 11 && 0 <= k < 5 ==> (#[trigger] r.roll_resources@[i]@[k])@
                    == r.spec_roll_vertices(i + 2, Resource::spec_from_index(k as nat)),
    {
        let mut roll_resources: Vec<Vec<Bitboard<u64>>> = Vec::new();
        let mut i: usize = 0;
        while i < 11
            invariant
                i <= 11,
                adjacency.wf(),
                resources.len() == N_HEXES,
                rolls.len() == N_HEXES,
                roll_resources.len() == i,
                forall|j: int| 0 <= j < i ==> (#[trigger] roll_resources@[j]).len() == 5,
                forall|j: int, k: int|
                    0 <= j < i && 0 <= k < 5 ==> (#[trigger] roll_resources@[j]@[k])@ == roll_vertices(
                        adjacency,
                        resources@,
                        rolls@,
                        j + 2,
                        Resource::spec_from_index(k as nat),
                        N_HEXES as int,
                    ),
            decreases 11 - i,
        {
            let roll = (i + 2) as u8;
            let mut per_resource: Vec<Bitboard<u64>> = Vec::new();
            let mut k: usize = 0;
            while k < 5
                invariant
                    k <= 5,
                    i < 11,
                    roll == i + 2,
                    adjacency.wf(),
                    resources.len() == N_HEXES,
                    rolls.len() == N_HEXES,
                    per_resource.len() == k,
                    forall|kk: int| 0 <= kk < k ==> (#[trigger] per_resource@[kk])@ == roll_vertices(
                        adjacency,
                        resources@,
                        rolls@,
                        i + 2,
                        Resource::spec_from_index(kk as nat),
                        N_HEXES as int,
                    ),
                decreases 5 - k,
            {
                let res = Resource::from_usize(k);
                let mut verts: Bitboard<u64> = Bitboard::zeros();
                let mut h: usize = 0;
                while h < N_HEXES
                    invariant
                        h <= N_HEXES,
                        adjacency.wf(),
                        resources.len() == N_HEXES,
                        rolls.len() == N_HEXES,
                        verts@ == roll_vertices(adjacency, resources@, rolls@, roll as int, res, h as int),
                    decreases N_HEXES - h,
                {
                    if resources[h] == Some(res) && rolls[h] == Some(roll) {
                        verts.or_assign(adjacency.hex_to_verts[h]);
                    }
                    proof {
                        assert(verts@ =~= roll_vertices(adjacency, resources@, rolls@, roll as int, res, h + 1));
                    }
                    h = h + 1;
                }
                per_resource.push(verts);
                k = k + 1;
            }
            roll_resources.push(per_resource);
            i = i + 1;
        }
        let r = SharedBoardData {
            adjacency,
            resources,
            rolls,
            roll_resources,
            generic_harbors,
            resource_harbors,
            center_hex,
        };
        proof {
            assert forall|i: int, k: int|
                0 <= i < 11 && 0 <= k < 5 implies (#[trigger] r.roll_resources@[i]@[k])@
                    == r.spec_roll_vertices(i + 2, Resource::spec_from_index(k as nat)) by {
                assert(r.roll_resources@[i]@[k]@ =~= r.spec_roll_vertices(i + 2, Resource::spec_from_index(k as nat)));
            }
        }
        r
    }
}

/// The corners of the first `n` hexes that have resource `res` and number `roll`.
pub open spec fn roll_vertices(
    adj: Adjacency,
    resources: Seq<Option<Resource>>,
    rolls: Seq<Option<u8>>,
    roll: int,
    res: Resource,
    n: int,
) -> Set<nat> {
    Set::new(
        |v: nat|
            exists|h: int|
                0 <= h < n && #[trigger] resources[h] == Some(res) && rolls[h] == Some(roll as u8)
                    && adj.h2v(h as nat).contains(v),
    )
}

/// The gameplay state of a board: who built what where, and where the robber is.
#[derive(Clone)]
pub struct Board {
    pub shared_data: SharedBoardData,
    pub player_buildings: [Bitboard<u64>; 4],
    pub player_roads: [Bitboard<u128>; 4],
    pub player_settlement_slots: [Bitboard<u64>; 4],
    pub player_road_slots: [Bitboard<u128>; 4],
    pub settlement_slots: Bitboard<u64>,
    pub road_slots: Bitboard<u128>,
    pub cities: Bitboard<u64>,
    pub robber_verts: Bitboard<u64>,
    pub robber: HexId,
    pub longest_roads: [u8; 4],
    /// Who holds the longest road marker.
    pub road_leader: Option<Player>,
}

pub open spec fn pidx(p: Player) -> int {
    p.spec_index() as int
}

impl Board {
    pub open spec fn adj(&self) -> Adjacency {
        self.shared_data.adjacency
    }

    pub open spec fn buildings_of(&self, p: Player) -> Set<nat> {
        self.player_buildings@[pidx(p)]@
    }

    pub open spec fn roads_of(&self, p: Player) -> Set<nat> {
        self.player_roads@[pidx(p)]@
    }

    /// The buildings of everyone but `p`.
    pub open spec fn enemy_buildings(&self, p: Player) -> Set<nat> {
        Set::new(|v: nat| exists|q: Player| q != p && #[trigger] self.buildings_of(q).contains(v))
    }

    /// The longest trail of `p`'s roads, given the tables' answer for each component.
    pub open spec fn is_longest_road(&self, table: Map<u128, u8>, p: Player, r: u8) -> bool {
        best_of(table, self.adj(), self.roads_of(p), self.enemy_buildings(p), self.roads_of(p), r)
    }

    /// Every id on the board is in range, and no player has more than 15 roads.
    pub open spec fn wf(&self) -> bool {
        &&& self.shared_data.wf()
        &&& forall|i: int| 0 <= i < 4 ==> (#[trigger] self.player_buildings@[i])@.subset_of(below(N_VERTICES as nat))
        &&& forall|i: int| 0 <= i < 4 ==> (#[trigger] self.player_roads@[i])@.subset_of(below(N_EDGES as nat))
        &&& forall|i: int| 0 <= i < 4 ==> (#[trigger] self.player_roads@[i])@.len() <= 15
        &&& forall|i: int| 0 <= i < 4 ==> (#[trigger] self.player_road_slots@[i])@.subset_of(below(N_EDGES as nat))
        &&& forall|i: int| 0 <= i < 4 ==> (#[trigger] self.player_settlement_slots@[i])@.subset_of(below(N_VERTICES as nat))
        &&& self.robber < N_HEXES
    }

    /// An empty board with the robber on the center hex.
    pub fn new(shared_data: SharedBoardData) -> (r: Board)
        requires
            shared_data.wf(),
        ensures
            r.wf(),
            r.shared_data == shared_data,
            forall|i: int| 0 <= i < 4 ==> (#[trigger] r.player_buildings@[i])@ == Set::<nat>::empty(),
            forall|i: int| 0 <= i < 4 ==> (#[trigger] r.player_roads@[i])@ == Set::<nat>::empty(),
            forall|i: int| 0 <= i < 4 ==> (#[trigger] r.player_settlement_slots@[i])@ == Set::<nat>::empty(),
            forall|i: int| 0 <= i < 4 ==> (#[trigger] r.player_road_slots@[i])@ == Set::<nat>::empty(),
            r.settlement_slots@ == Bitboard::<u64>::full(),
            r.road_slots@ == Bitboard::<u128>::full(),
            r.cities@ == Set::<nat>::empty(),
            r.robber == shared_data.center_hex,
            r.robber_verts@ == shared_data.adjacency.h2v(shared_data.center_hex as nat),
            r.longest_roads@ == seq![0u8, 0, 0, 0],
            r.road_leader is None,
    {
        let center = shared_data.center_hex;
        let robber_verts = shared_data.adjacency.hex_to_verts[center];
        let zv = Bitboard::<u64>::zeros();
        let ze = Bitboard::<u128>::zeros();
        let r = Board {
            player_buildings: [zv, zv, zv, zv],
            player_roads: [ze, ze, ze, ze],
            player_settlement_slots: [zv, zv, zv, zv],
            player_road_slots: [ze, ze, ze, ze],
            settlement_slots: Bitboard::ones(),
            road_slots: Bitboard::ones(),
            cities: Bitboard::zeros(),
            robber_verts,
            robber: center,
            shared_data,
            longest_roads: [0, 0, 0, 0],
            road_leader: None,
        };
        proof {
            assert(r.longest_roads@ =~= seq![0u8, 0, 0, 0]);
            assert forall|i: int| 0 <= i < 4 implies (#[trigger] r.player_roads@[i])@.len() <= 15 by {
                assert(r.player_roads@[i]@ == Set::<nat>::empty());
            }
        }
        r
    }

    /// The first `n` players in seating order that have a building in `verts`.
    pub open spec fn players_touching(&self, verts: Set<nat>, n: nat) -> Seq<Player>
        decreases n,
    {
        if n == 0 {
            Seq::empty()
        } else {
            let p = Player::spec_from_index((n - 1) as nat);
            let prev = self.players_touching(verts, (n - 1) as nat);
            if !self.buildings_of(p).disjoint(verts) {
                prev.push(p)
            } else {
                prev
            }
        }
    }

    /// The players with a building at a corner of `hex_id`, in seating order.
    pub fn players_on_hex(&self, hex_id: HexId) -> (r: Vec<Player>)
        requires
            self.wf(),
            hex_id < N_HEXES,
        ensures
            forall|i: int| 0 <= i < r.len() ==> !self.buildings_of(#[trigger] r[i]).disjoint(self.adj().h2v(hex_id as nat)),
            forall|p: Player| !self.buildings_of(p).disjoint(self.adj().h2v(hex_id as nat)) ==> r@.contains(p),
            forall|i: int, j: int| 0 <= i < j < r.len() ==> pidx(r[i]) < pidx(r[j]),
            r@ == self.players_touching(self.adj().h2v(hex_id as nat), 4),
    {
        let verts = self.shared_data.adjacency.hex_to_verts[hex_id];
        let mut result: Vec<Player> = Vec::new();
        let mut i: usize = 0;
        while i < 4
            invariant
                i <= 4,
                result@ == self.players_touching(verts@, i as nat),
                verts@ == self.adj().h2v(hex_id as nat),
                forall|k: int| 0 <= k < result.len() ==> !self.buildings_of(#[trigger] result[k]).disjoint(verts@),
                forall|k: int| 0 <= k < result.len() ==> pidx(#[trigger] result[k]) < i,
                forall|p: Player| pidx(p) < i && !self.buildings_of(p).disjoint(verts@) ==> result@.contains(p),
                forall|k: int, j: int| 0 <= k < j < result.len() ==> pidx(result[k]) < pidx(result[j]),
            decreases 4 - i,
        {
            let p = Player::from_usize(i);
            let common = self.player_buildings[i].and(verts);
            let ghost before = result@;
            if !common.is_zeros() {
                proof {
                    assert(!(common@ =~= Set::<nat>::empty()));
                    let w = choose|w: nat| common@.contains(w);
                    assert(self.buildings_of(p).contains(w) && verts@.contains(w));
                }
                result.push(p);
                proof {
                    assert forall|q: Player| pidx(q) < i + 1 && !self.buildings_of(q).disjoint(verts@) implies result@.contains(q) by {
                        if pidx(q) == i {
                            assert(q == p);
                            assert(result@[result.len() - 1] == q);
                        } else {
                            assert(before.contains(q));
                            let k = choose|k: int| 0 <= k < before.len() && before[k] == q;
                            assert(result@[k] == q);
                        }
                    }
                    assert(p == Player::spec_from_index(i as nat));
                    assert(result@ == self.players_touching(verts@, (i + 1) as nat));
                }
            } else {
                proof {
                    assert forall|q: Player| pidx(q) < i + 1 && !self.buildings_of(q).disjoint(verts@) implies result@.contains(q) by {
                        if pidx(q) == i {
                            assert(q == p);
                            let w = choose|w: nat| self.buildings_of(q).contains(w) && verts@.contains(w);
                            assert(common@.contains(w));
                        }
                    }
                    assert(self.buildings_of(p).disjoint(verts@)) by {
                        assert forall|w: nat| self.buildings_of(p).contains(w) implies !verts@.contains(w) by {
                            if verts@.contains(w) {
                                assert(common@.contains(w));
                            }
                        }
                    }
                    assert(p == Player::spec_from_index(i as nat));
                    assert(result@ == self.players_touching(verts@, (i + 1) as nat));
                }
            }
            i = i + 1;
        }
        result
    }

    /// The hexes' resources and numbers, as every player sees them.
    pub fn game_map(&self) -> (r: InitialObservation)
        ensures
            r.resources@ == self.shared_data.resources@,
            r.rolls@ == self.shared_data.rolls@,
    {
        let mut resources: Vec<Option<Resource>> = Vec::new();
        let mut rolls: Vec<Option<u8>> = Vec::new();
        let mut i: usize = 0;
        while i < self.shared_data.resources.len()
            invariant
                i <= self.shared_data.resources.len(),
                resources@ == self.shared_data.resources@.subrange(0, i as int),
            decreases self.shared_data.resources.len() - i,
        {
            resources.push(self.shared_data.resources[i]);
            assert(resources@ =~= self.shared_data.resources@.subrange(0, i + 1));
            i = i + 1;
        }
        let mut i: usize = 0;
        while i < self.shared_data.rolls.len()
            invariant
                i <= self.shared_data.rolls.len(),
                rolls@ == self.shared_data.rolls@.subrange(0, i as int),
            decreases self.shared_data.rolls.len() - i,
        {
            rolls.push(self.shared_data.rolls[i]);
            assert(rolls@ =~= self.shared_data.rolls@.subrange(0, i + 1));
            i = i + 1;
        }
        assert(resources@ =~= self.shared_data.resources@);
        assert(rolls@ =~= self.shared_data.rolls@);
        InitialObservation { resources, rolls }
    }

    /// The free vertices next to `player`'s roads.
    pub fn available_settlements(&self, player: Player) -> (r: Bitboard<u64>)
        ensures
            r@ == self.settlement_slots@.intersect(self.player_settlement_slots@[pidx(player)]@),
    {
        self.settlement_slots.and(self.player_settlement_slots[player.into_usize()])
    }

    /// The free edges where `player` may build a road.
    pub fn available_roads(&self, player: Player) -> (r: Bitboard<u128>)
        ensures
            r@ == self.road_slots@.intersect(self.player_road_slots@[pidx(player)]@),
    {
        self.road_slots.and(self.player_road_slots[player.into_usize()])
    }

    pub fn buildings(&self, player: Player) -> (r: Bitboard<u64>)
        ensures
            r@ == self.buildings_of(player),
    {
        self.player_buildings[player.into_usize()]
    }

    pub fn settlements(&self, player: Player) -> (r: Bitboard<u64>)
        ensures
            r@ == self.buildings_of(player).difference(self.cities@),
    {
        let r = self.player_buildings[player.into_usize()].and(self.cities.not());
        proof {
            self.player_buildings@[pidx(player)].lemma_view_finite();
            assert(r@ =~= self.buildings_of(player).difference(self.cities@));
        }
        r
    }

    pub fn cities(&self, player: Player) -> (r: Bitboard<u64>)
        ensures
            r@ == self.buildings_of(player).intersect(self.cities@),
    {
        self.player_buildings[player.into_usize()].and(self.cities)
    }

    pub fn roads(&self, player: Player) -> (r: Bitboard<u128>)
        ensures
            r@ == self.roads_of(player),
    {
        self.player_roads[player.into_usize()]
    }

    /// Everyone's buildings but `player`'s.
    fn enemy_building_board(&self, player: Player) -> (r: Bitboard<u64>)
        requires
            self.wf(),
        ensures
            r@ == self.enemy_buildings(player),
            r@.subset_of(below(N_VERTICES as nat)),
    {
        let enemies = player.enemies();
        let r = self.player_buildings[enemies[0].into_usize()].or(
            self.player_buildings[enemies[1].into_usize()],
        ).or(self.player_buildings[enemies[2].into_usize()]);
        proof {
            assert forall|v: nat| r@.contains(v) <==> self.enemy_buildings(player).contains(v) by {
                if self.enemy_buildings(player).contains(v) {
                    let q = choose|q: Player| q != player && #[trigger] self.buildings_of(q).contains(v);
                    assert(q == enemies@[0] || q == enemies@[1] || q == enemies@[2]) by {
                        lemma_enemies_cover(player, enemies@, q);
                    }
                }
                if r@.contains(v) {
                    if self.buildings_of(enemies@[0]).contains(v) {
                        assert(self.enemy_buildings(player).contains(v));
                    } else if self.buildings_of(enemies@[1]).contains(v) {
                        assert(self.enemy_buildings(player).contains(v));
                    } else {
                        assert(self.buildings_of(enemies@[2]).contains(v));
                        assert(self.enemy_buildings(player).contains(v));
                    }
                }
            }
            assert(r@ =~= self.enemy_buildings(player));
        }
        r
    }

    /// The longest trail of `player`'s roads, cut by enemy buildings.
    pub fn longest_road(&self, table: &RoadTrailTable, player: Player) -> (r: u8)
        requires
            self.wf(),
            table_complete(table.map@, self.adj()),
        ensures
            self.is_longest_road(table.map@, player, r),
    {
        let enemy = self.enemy_building_board(player);
        let roads = self.roads(player);
        proof {
            roads.lemma_view_finite();
            assert forall|a: nat| #[trigger] roads@.contains(a) implies table.map@.contains_key(
                value_of(component(self.adj(), roads@, enemy@, a)),
            ) by {
                assert(self.player_roads@[pidx(player)]@.len() <= 15);
            }
        }
        table.longest_trail(&self.shared_data.adjacency, roads, enemy)
    }

    /// `player` builds a settlement at `vertex_id`: the vertex and its
    /// neighbours are closed to settlements, the roads at the vertex open to
    /// `player`, enemies lose the spokes they can no longer reach, and an enemy
    /// whose road the building splits has its longest road counted again.
    pub fn add_settlement(&mut self, table: &RoadTrailTable, player: Player, vertex_id: VertexId)
        requires
            old(self).wf(),
            table_complete(table.map@, old(self).adj()),
            vertex_id < N_VERTICES,
        ensures
            final(self).wf(),
            settlement_added(*old(self), *final(self), table.map@, player, vertex_id as nat),
    {
        let ghost start = *self;
        let pi = player.into_usize();
        let mut owned = self.player_buildings[pi];
        owned.add(vertex_id);
        self.player_buildings[pi] = owned;
        let neighbours = self.shared_data.adjacency.vert_to_verts[vertex_id];
        self.settlement_slots.and_assign(neighbours.not());
        let spokes = self.shared_data.adjacency.vert_to_edges[vertex_id];
        let mut own_slots = self.player_road_slots[pi];
        own_slots.or_assign(spokes);
        self.player_road_slots[pi] = own_slots;
        proof {
            assert(start.adj().v2e(vertex_id as nat).subset_of(below(N_EDGES as nat)));
            start.settlement_slots.lemma_view_finite();
            assert(self.settlement_slots@ =~= start.settlement_slots@.difference(start.adj().v2v(vertex_id as nat)));
            assert forall|q: Player| #[trigger] self.buildings_of(q) == if q == player {
                start.buildings_of(q).insert(vertex_id as nat)
            } else {
                start.buildings_of(q)
            } by {}
            assert forall|i: int| 0 <= i < 4 implies (#[trigger] self.player_road_slots@[i])@.subset_of(below(N_EDGES as nat)) by {
                if i == pi {
                    assert(start.player_road_slots@[i]@.subset_of(below(N_EDGES as nat)));
                }
            }
            assert forall|i: int| 0 <= i < 4 implies (#[trigger] self.player_buildings@[i])@.subset_of(below(N_VERTICES as nat)) by {
                if i == pi {
                    assert(start.player_buildings@[i]@.subset_of(below(N_VERTICES as nat)));
                }
            }
            assert forall|i: int| 0 <= i < 4 implies (#[trigger] self.player_roads@[i])@.len() <= 15 by {
                assert(start.player_roads@[i]@.len() <= 15);
            }
            assert(self.wf());
        }
        let enemies = player.enemies();
        let ghost built = self.player_buildings;
        let mut i: usize = 0;
        let mut done = false;
        while i < 3 && !done
            invariant
                0 <= i <= 3,
                vertex_id < N_VERTICES,
                self.player_buildings == built,
                self.wf(),
                table_complete(table.map@, self.adj()),
                done ==> 1 <= i,
                done ==> splits(start, vertex_id as nat, enemies@[i - 1]),
                forall|j: int| 0 <= j < i && !(done && j == i - 1) ==> !#[trigger] splits(start, vertex_id as nat, enemies@[j]),
                forall|j: int| 0 <= j < 3 ==> enemies@[j] != player,
                forall|j: int, k: int| 0 <= j < k < 3 ==> enemies@[j].spec_index() < enemies@[k].spec_index(),
                spokes@ == start.adj().v2e(vertex_id as nat),
                self.shared_data == start.shared_data,
                self.player_roads == start.player_roads,
                self.player_settlement_slots == start.player_settlement_slots,
                self.road_slots == start.road_slots,
                self.cities == start.cities,
                self.robber == start.robber,
                self.robber_verts == start.robber_verts,
                self.road_leader == start.road_leader,
                self.settlement_slots@ == start.settlement_slots@.difference(start.adj().v2v(vertex_id as nat)),
                forall|q: Player| #[trigger] self.buildings_of(q) == if q == player {
                    start.buildings_of(q).insert(vertex_id as nat)
                } else {
                    start.buildings_of(q)
                },
                forall|q: Player| #[trigger] self.player_road_slots@[pidx(q)]@ == if q == player {
                    start.player_road_slots@[pidx(q)]@.union(start.adj().v2e(vertex_id as nat))
                } else if exists|j: int| 0 <= j < i && enemies@[j] == q {
                    start.player_road_slots@[pidx(q)]@.difference(
                        stranded(start.adj(), start.adj().v2e(vertex_id as nat), start.roads_of(q)),
                    )
                } else {
                    start.player_road_slots@[pidx(q)]@
                },
                forall|q: Player| #[trigger] self.longest_roads@[pidx(q)] == start.longest_roads@[pidx(q)]
                    || (done && q == enemies@[i - 1]),
                done ==> self.is_longest_road(table.map@, enemies@[i - 1], self.longest_roads@[pidx(enemies@[i - 1])]),
            decreases 3 - i,
        {
            let enemy = enemies[i];
            let ei = enemy.into_usize();
            let enemy_roads = self.player_roads[ei];
            let enemy_spokes = spokes.and(enemy_roads);
            let ghost mid = *self;
            proof {
                assert(start.adj().v2e(vertex_id as nat).subset_of(below(N_EDGES as nat)));
            }
            let cut = cut_road_slots(&self.shared_data.adjacency, self.player_road_slots[ei], spokes, enemy_roads);
            self.player_road_slots[ei] = cut;
            proof {
                assert forall|q: Player| #[trigger] self.player_road_slots@[pidx(q)]@ == if q == player {
                    start.player_road_slots@[pidx(q)]@.union(start.adj().v2e(vertex_id as nat))
                } else if exists|j: int| 0 <= j < i + 1 && enemies@[j] == q {
                    start.player_road_slots@[pidx(q)]@.difference(
                        stranded(start.adj(), start.adj().v2e(vertex_id as nat), start.roads_of(q)),
                    )
                } else {
                    start.player_road_slots@[pidx(q)]@
                } by {
                    if q == enemy {
                        assert(!(exists|j: int| 0 <= j < i && enemies@[j] == q)) by {
                            if exists|j: int| 0 <= j < i && enemies@[j] == q {
                                let j = choose|j: int| 0 <= j < i && enemies@[j] == q;
                                assert(enemies@[j].spec_index() < enemies@[i as int].spec_index());
                            }
                        }
                    } else if q != player {
                        if exists|j: int| 0 <= j < i + 1 && enemies@[j] == q {
                            let j = choose|j: int| 0 <= j < i + 1 && enemies@[j] == q;
                            assert(j != i);
                        }
                    }
                }
                assert forall|k: int| 0 <= k < 4 implies (#[trigger] self.player_road_slots@[k])@.subset_of(below(N_EDGES as nat)) by {
                    assert(mid.player_road_slots@[k]@.subset_of(below(N_EDGES as nat)));
                }
                assert(self.wf());
                enemy_spokes.lemma_view_finite();
            }
            if enemy_spokes.count_ones() >= 2 {
                let l = self.longest_road(table, enemy);
                let ghost measured = *self;
                self.longest_roads[ei] = l;
                done = true;
                proof {
                    assert(self.player_buildings == measured.player_buildings);
                    assert forall|q: Player| #[trigger] self.buildings_of(q) == measured.buildings_of(q) by {}
                    assert forall|v: nat| #[trigger] self.enemy_buildings(enemy).contains(v) == measured.enemy_buildings(enemy).contains(v) by {
                        if measured.enemy_buildings(enemy).contains(v) {
                            let q = choose|q: Player| q != enemy && #[trigger] measured.buildings_of(q).contains(v);
                            assert(self.buildings_of(q).contains(v));
                        }
                        if self.enemy_buildings(enemy).contains(v) {
                            let q = choose|q: Player| q != enemy && #[trigger] self.buildings_of(q).contains(v);
                            assert(measured.buildings_of(q).contains(v));
                        }
                    }
                    assert(self.enemy_buildings(enemy) =~= measured.enemy_buildings(enemy));
                    assert(self.roads_of(enemy) == measured.roads_of(enemy));
                }
            }
            proof {
                assert forall|q: Player| #[trigger] self.buildings_of(q) == mid.buildings_of(q) by {}
            }
            i = i + 1;
        }
        proof {
            lemma_visits(player, enemies@, |x: Player| splits(start, vertex_id as nat, x), i as int, done);
            if done {
                let last = enemies@[i - 1];
                assert(reached(start, player, vertex_id as nat, last));
                assert forall|q: Player| reached(start, player, vertex_id as nat, q) && splits(start, vertex_id as nat, q)
                    implies self.is_longest_road(table.map@, q, #[trigger] self.longest_roads@[pidx(q)]) by {
                    let j = choose|j: int| 0 <= j < i && enemies@[j] == q;
                    assert(j == i - 1);
                }
            }
        }
        let ghost counted = *self;
        let leader = next_road_leader(self.road_leader, &self.longest_roads);
        self.road_leader = leader;
        proof {
            lemma_marker_only(counted, *self);
        }
    }

    /// `player` builds a road on `edge_id`: the edge is taken, its ends open to
    /// `player`'s settlements and its neighbours to `player`'s roads, except the
    /// spokes of an enemy building that the road does not get past, and
    /// `player`'s longest road is counted again.
    pub fn add_road(&mut self, table: &RoadTrailTable, player: Player, edge_id: EdgeId)
        requires
            old(self).wf(),
            table_complete(table.map@, old(self).adj()),
            edge_id < N_EDGES,
            old(self).roads_of(player).insert(edge_id as nat).len() <= 15,
        ensures
            final(self).wf(),
            road_added(*old(self), *final(self), table.map@, player, edge_id as nat),
    {
        let ghost start = *self;
        let pi = player.into_usize();
        let mut roads = self.player_roads[pi];
        roads.add(edge_id);
        self.player_roads[pi] = roads;
        self.road_slots.remove(edge_id);
        let verts = self.shared_data.adjacency.edge_to_verts[edge_id];
        let mut settle = self.player_settlement_slots[pi];
        settle.or_assign(verts);
        self.player_settlement_slots[pi] = settle;
        let edges = self.shared_data.adjacency.edge_to_edges[edge_id];
        let mut slots = self.player_road_slots[pi];
        slots.or_assign(edges);
        proof {
            assert(start.adj().e2e(edge_id as nat).subset_of(below(N_EDGES as nat)));
            assert(start.adj().e2v(edge_id as nat).subset_of(below(N_VERTICES as nat)));
            assert(start.player_road_slots@[pi as int]@.subset_of(below(N_EDGES as nat)));
        }
        let ghost grown = slots@;
        let enemies = player.enemies();
        let mut i: usize = 0;
        let mut done = false;
        while i < 3 && !done
            invariant
                0 <= i <= 3,
                edge_id < N_EDGES,
                pi == pidx(player),
                start.wf(),
                self.shared_data == start.shared_data,
                self.player_buildings == start.player_buildings,
                self.road_slots@ == start.road_slots@.remove(edge_id as nat),
                self.player_roads@[pi as int]@ == start.roads_of(player).insert(edge_id as nat),
                verts@ == start.adj().e2v(edge_id as nat),
                grown == start.player_road_slots@[pi as int]@.union(start.adj().e2e(edge_id as nat)),
                done ==> 1 <= i,
                done ==> lone_building(start, edge_id as nat, enemies@[i - 1]),
                forall|j: int| 0 <= j < i && !(done && j == i - 1) ==> !#[trigger] lone_building(start, edge_id as nat, enemies@[j]),
                forall|j: int| 0 <= j < 3 ==> enemies@[j] != player,
                forall|j: int, k: int| 0 <= j < k < 3 ==> enemies@[j].spec_index() < enemies@[k].spec_index(),
                !done ==> slots@ == grown,
                done ==> slots@ == match blocker_at(start, player, edge_id as nat, enemies@[i - 1]) {
                    Some(w) => grown.difference(start.adj().v2e(w)),
                    None => grown,
                },
            decreases 3 - i,
        {
            let enemy = enemies[i];
            let ei = enemy.into_usize();
            let mut at_ends = verts.and(self.player_buildings[ei]);
            proof {
                at_ends.lemma_view_finite();
            }
            if at_ends.count_ones() == 1 {
                let ghost ends = at_ends@;
                let found = at_ends.next();
                let building = found.unwrap();
                proof {
                    assert(ends.contains(building as nat));
                    assert(start.buildings_of(enemy).subset_of(below(N_VERTICES as nat))) by {
                        assert(start.player_buildings@[ei as int]@.subset_of(below(N_VERTICES as nat)));
                    }
                    let w = choose|w: nat| start.adj().e2v(edge_id as nat).intersect(start.buildings_of(enemy)).contains(w);
                    assert(ends =~= start.adj().e2v(edge_id as nat).intersect(start.buildings_of(enemy)));
                    if w != building as nat {
                        assert(ends.remove(building as nat).contains(w));
                        assert(ends.remove(building as nat).len() == 0);
                    }
                    assert(start.adj().v2e(building as nat).subset_of(below(N_EDGES as nat)));
                }
                let spokes = self.shared_data.adjacency.vert_to_edges[building];
                let mut taken = spokes.and(self.road_slots.not());
                let ghost taken_set = taken@;
                proof {
                    spokes.lemma_view_finite();
                    assert(taken_set =~= start.adj().v2e(building as nat).difference(start.road_slots@.remove(edge_id as nat)));
                }
                match taken.next() {
                    Some(first) => {
                        proof {
                            let m = set_min(taken_set);
                            assert(taken_set.contains(first as nat) && forall|x: nat| taken_set.contains(x) ==> first <= x);
                            assert(m == first as nat);
                            assert(first < N_EDGES);
                        }
                        let around = self.shared_data.adjacency.edge_to_edges[first].and(self.player_roads[pi]);
                        proof {
                            around.lemma_view_finite();
                        }
                        if around.count_ones() == 1 {
                            slots.and_assign(self.shared_data.adjacency.vert_to_edges[building].not());
                            proof {
                                assert(slots@ =~= grown.difference(start.adj().v2e(building as nat)));
                            }
                        }
                    },
                    None => {},
                }
                done = true;
            }
            i = i + 1;
        }
        self.player_road_slots[pi] = slots;
        proof {
            lemma_visits(player, enemies@, |x: Player| lone_building(start, edge_id as nat, x), i as int, done);
            if done {
                let q = enemies@[i - 1];
                assert(first_lone(start, player, edge_id as nat, q));
                let c = choose|c: Player| #[trigger] first_lone(start, player, edge_id as nat, c);
                assert(none_before(player, |x: Player| lone_building(start, edge_id as nat, x), c));
                let j = choose|j: int| 0 <= j < i && enemies@[j] == c;
                assert(j == i - 1);
                assert(road_blocker(start, player, edge_id as nat) == blocker_at(start, player, edge_id as nat, q));
            } else {
                assert forall|c: Player| !#[trigger] first_lone(start, player, edge_id as nat, c) by {
                    if first_lone(start, player, edge_id as nat, c) {
                        assert(none_before(player, |x: Player| lone_building(start, edge_id as nat, x), c));
                        let j = choose|j: int| 0 <= j < i && enemies@[j] == c;
                    }
                }
            }
            assert forall|k: int| 0 <= k < 4 implies (#[trigger] self.player_road_slots@[k])@.subset_of(below(N_EDGES as nat)) by {
                assert(start.player_road_slots@[k]@.subset_of(below(N_EDGES as nat)));
            }
            assert forall|k: int| 0 <= k < 4 implies (#[trigger] self.player_roads@[k])@.subset_of(below(N_EDGES as nat)) by {
                assert(start.player_roads@[k]@.subset_of(below(N_EDGES as nat)));
            }
            assert forall|k: int| 0 <= k < 4 implies (#[trigger] self.player_roads@[k])@.len() <= 15 by {
                assert(start.player_roads@[k]@.len() <= 15);
            }
            assert forall|k: int| 0 <= k < 4 implies (#[trigger] self.player_buildings@[k])@.subset_of(below(N_VERTICES as nat)) by {
                assert(start.player_buildings@[k]@.subset_of(below(N_VERTICES as nat)));
            }
            assert(self.wf());
        }
        let l = self.longest_road(table, player);
        let ghost measured = *self;
        self.longest_roads[pi] = l;
        proof {
            assert forall|q: Player| #[trigger] self.buildings_of(q) == measured.buildings_of(q) by {}
            assert forall|v: nat| #[trigger] self.enemy_buildings(player).contains(v) == measured.enemy_buildings(player).contains(v) by {
                if measured.enemy_buildings(player).contains(v) {
                    let q = choose|q: Player| q != player && #[trigger] measured.buildings_of(q).contains(v);
                    assert(self.buildings_of(q).contains(v));
                }
                if self.enemy_buildings(player).contains(v) {
                    let q = choose|q: Player| q != player && #[trigger] self.buildings_of(q).contains(v);
                    assert(measured.buildings_of(q).contains(v));
                }
            }
            assert(self.enemy_buildings(player) =~= measured.enemy_buildings(player));
            assert(self.roads_of(player) == measured.roads_of(player));
        }
        let ghost counted = *self;
        let leader = next_road_leader(self.road_leader, &self.longest_roads);
        self.road_leader = leader;
        proof {
            lemma_marker_only(counted, *self);
        }
    }

    pub fn upgrade_settlement(&mut self, vertex_id: VertexId)
        requires
            vertex_id < N_VERTICES,
        ensures
            final(self).cities@ == old(self).cities@.insert(vertex_id as nat),
            final(self).shared_data == old(self).shared_data,
            final(self).player_buildings == old(self).player_buildings,
            final(self).player_roads == old(self).player_roads,
            final(self).player_road_slots == old(self).player_road_slots,
            final(self).player_settlement_slots == old(self).player_settlement_slots,
            final(self).settlement_slots == old(self).settlement_slots,
            final(self).road_slots == old(self).road_slots,
            final(self).robber == old(self).robber,
            final(self).robber_verts == old(self).robber_verts,
            final(self).longest_roads == old(self).longest_roads,
            final(self).road_leader == old(self).road_leader,
    {
        self.cities.add(vertex_id);
    }

    pub fn robber_hex_id(&self) -> (r: HexId)
        ensures
            r == self.robber,
    {
        self.robber
    }

    pub fn move_robber(&mut self, hex_id: HexId)
        requires
            old(self).wf(),
            hex_id < N_HEXES,
        ensures
            final(self).wf(),
            final(self).robber == hex_id,
            final(self).robber_verts@ == old(self).adj().h2v(hex_id as nat),
            final(self).shared_data == old(self).shared_data,
            final(self).player_buildings == old(self).player_buildings,
            final(self).player_roads == old(self).player_roads,
            final(self).player_road_slots == old(self).player_road_slots,
            final(self).player_settlement_slots == old(self).player_settlement_slots,
            final(self).settlement_slots == old(self).settlement_slots,
            final(self).road_slots == old(self).road_slots,
            final(self).cities == old(self).cities,
            final(self).longest_roads == old(self).longest_roads,
            final(self).road_leader == old(self).road_leader,
    {
        self.robber = hex_id;
        self.robber_verts = self.shared_data.adjacency.hex_to_verts[hex_id];
    }

    /// How many cards of resource `k` `player` gives the bank for one card.
    pub open spec fn ratio(&self, player: Player, k: int) -> u8 {
        if !self.buildings_of(player).disjoint(self.shared_data.resource_harbors@[k]@) {
            2u8
        } else if !self.buildings_of(player).disjoint(self.shared_data.generic_harbors@) {
            3u8
        } else {
            4u8
        }
    }

    /// The amount of each resource to give the bank for one of another: four,
    /// three with a building at a generic harbor, two with one at that
    /// resource's harbor.
    pub fn exchange_ratios(&self, player: Player) -> (r: [u8; 5])
        requires
            self.wf(),
        ensures
            forall|k: int| 0 <= k < 5 ==> #[trigger] r@[k] == self.ratio(player, k),
    {
        let buildings = self.player_buildings[player.into_usize()];
        let generic = buildings.and(self.shared_data.generic_harbors);
        let base: u8 = if generic.is_zeros() {
            4
        } else {
            3
        };
        proof {
            if generic@ == Set::<nat>::empty() {
                assert(buildings@.disjoint(self.shared_data.generic_harbors@)) by {
                    assert forall|v: nat| buildings@.contains(v) implies !self.shared_data.generic_harbors@.contains(v) by {
                        if self.shared_data.generic_harbors@.contains(v) {
                            assert(generic@.contains(v));
                        }
                    }
                }
            } else {
                let w = choose|w: nat| generic@.contains(w);
                assert(!(generic@ =~= Set::<nat>::empty()));
            }
        }
        let mut ratios = [base, base, base, base, base];
        let mut k: usize = 0;
        while k < 5
            invariant
                k <= 5,
                self.wf(),
                buildings@ == self.buildings_of(player),
                base == if !self.buildings_of(player).disjoint(self.shared_data.generic_harbors@) {
                    3u8
                } else {
                    4u8
                },
                forall|j: int| 0 <= j < 5 ==> #[trigger] ratios@[j] == if j < k && !self.buildings_of(player).disjoint(self.shared_data.resource_harbors@[j]@) {
                    2u8
                } else {
                    base
                },
            decreases 5 - k,
        {
            let harbor = buildings.and(self.shared_data.resource_harbors[k]);
            if !harbor.is_zeros() {
                ratios[k] = 2;
                proof {
                    if buildings@.disjoint(self.shared_data.resource_harbors@[k as int]@) {
                        assert(harbor@ =~= Set::<nat>::empty());
                    }
                }
            } else {
                proof {
                    assert forall|v: nat| buildings@.contains(v) implies !self.shared_data.resource_harbors@[k as int]@.contains(v) by {
                        if self.shared_data.resource_harbors@[k as int]@.contains(v) {
                            assert(harbor@.contains(v));
                        }
                    }
                }
            }
            k = k + 1;
        }
        ratios
    }

    /// What each player receives on `roll` when the bank holds `in_stock`.
    pub fn produce_resources(&self, roll: u8, in_stock: [u8; 5]) -> (r: [[u8; 5]; 4])
        requires
            self.wf(),
            2 <= roll <= 12,
        ensures
            forall|p: int, k: int|
                0 <= p < 4 && 0 <= k < 5 ==> #[trigger] r@[p]@[k] == share(*self, roll as int, k, p, in_stock@[k] as nat),
            forall|k: int| 0 <= k < 5 ==> r@[0]@[k] + r@[1]@[k] + r@[2]@[k] + r@[3]@[k] <= #[trigger] in_stock@[k],
    {
        proof {
            assert forall|k: int| 0 <= k < 5 implies share(*self, roll as int, k, 0, in_stock@[k] as nat) + share(*self, roll as int, k, 1, in_stock@[k] as nat)
                + share(*self, roll as int, k, 2, in_stock@[k] as nat) + share(*self, roll as int, k, 3, in_stock@[k] as nat) <= #[trigger] in_stock@[k] by {
                lemma_shares_within_stock(*self, roll as int, k, in_stock@[k] as nat);
            }
        }
        let mut out: [[u8; 5]; 4] = [[0u8; 5]; 4];
        let mut k: usize = 0;
        while k < 5
            invariant
                k <= 5,
                2 <= roll <= 12,
                self.wf(),
                forall|p: int, j: int|
                    0 <= p < 4 && 0 <= j < k ==> #[trigger] out@[p]@[j] == share(*self, roll as int, j, p, in_stock@[j] as nat),
            decreases 5 - k,
        {
            let table = &self.shared_data.roll_resources[(roll - 2) as usize];
            let verts = table[k].and(self.robber_verts.not());
            proof {
                table@[k as int].lemma_view_finite();
                assert(verts@ =~= yielding(*self, roll as int, k as int));
            }
            let mut amounts: [u8; 4] = [0u8; 4];
            let mut sum: u32 = 0;
            let mut p: usize = 0;
            while p < 4
                invariant
                    p <= 4,
                    verts@ == yielding(*self, roll as int, k as int),
                    forall|q: int| 0 <= q < p ==> #[trigger] amounts@[q] == raw_yield(*self, roll as int, k as int, q),
                    sum == partial_yield(*self, roll as int, k as int, p as int),
                    sum <= 128 * p,
                decreases 4 - p,
            {
                let first = verts.and(self.player_buildings[p]);
                let upgraded = first.and(self.cities);
                proof {
                    first.lemma_view_finite();
                    upgraded.lemma_view_finite();
                    crate::bitboard::lemma_full_len::<u64>();
                    vstd::set_lib::lemma_len_subset(first@, Bitboard::<u64>::full());
                    vstd::set_lib::lemma_len_subset(upgraded@, Bitboard::<u64>::full());
                }
                let a = first.count_ones() + upgraded.count_ones();
                amounts[p] = a as u8;
                sum = sum + a;
                p = p + 1;
            }
            let stock = in_stock[k];
            if sum > stock as u32 {
                let mut receivers: u8 = 0;
                let mut q: usize = 0;
                while q < 4
                    invariant
                        q <= 4,
                        receivers <= q,
                        forall|j: int| 0 <= j < q ==> #[trigger] amounts@[j] == min_nat(raw_yield(*self, roll as int, k as int, j), stock as nat),
                        forall|j: int| q <= j < 4 ==> #[trigger] amounts@[j] == raw_yield(*self, roll as int, k as int, j),
                        receivers == (if 0 < q && amounts@[0] > 0 { 1int } else { 0int })
                            + (if 1 < q && amounts@[1] > 0 { 1int } else { 0int })
                            + (if 2 < q && amounts@[2] > 0 { 1int } else { 0int })
                            + (if 3 < q && amounts@[3] > 0 { 1int } else { 0int }),
                    decreases 4 - q,
                {
                    if amounts[q] > stock {
                        amounts[q] = stock;
                    }
                    if amounts[q] > 0 {
                        receivers = receivers + 1;
                    }
                    q = q + 1;
                }
                if receivers > 1 {
                    amounts = [0u8; 4];
                }
            }
            let mut q: usize = 0;
            while q < 4
                invariant
                    q <= 4,
                    k < 5,
                    forall|i: int| 0 <= i < 4 ==> #[trigger] amounts@[i] == share(*self, roll as int, k as int, i, stock as nat),
                    forall|p: int, j: int|
                        0 <= p < 4 && 0 <= j < k ==> #[trigger] out@[p]@[j] == share(*self, roll as int, j, p, in_stock@[j] as nat),
                    forall|p: int| 0 <= p < q ==> #[trigger] out@[p]@[k as int] == share(*self, roll as int, k as int, p, stock as nat),
                decreases 4 - q,
            {
                let mut row = out[q];
                row[k] = amounts[q];
                out[q] = row;
                q = q + 1;
            }
            k = k + 1;
        }
        out
    }

    /// One point per building, one more per city, and two for the longest
    /// road marker.
    pub open spec fn spec_victory_points(&self, player: Player) -> int {
        self.buildings_of(player).len() + self.buildings_of(player).intersect(self.cities@).len() + if self.road_leader
            == Some(player) {
            2int
        } else {
            0int
        }
    }

    /// The points `player` gets from buildings and the longest road marker.
    pub fn victory_points(&self, player: Player) -> (r: u32)
        ensures
            r == self.spec_victory_points(player),
    {
        let buildings = self.player_buildings[player.into_usize()];
        let upgraded = buildings.and(self.cities);
        proof {
            buildings.lemma_view_finite();
            upgraded.lemma_view_finite();
            crate::bitboard::lemma_full_len::<u64>();
            vstd::set_lib::lemma_len_subset(buildings@, Bitboard::<u64>::full());
            vstd::set_lib::lemma_len_subset(upgraded@, Bitboard::<u64>::full());
        }
        let marker: u32 = if self.road_leader == Some(player) {
            2
        } else {
            0
        };
        buildings.count_ones() + upgraded.count_ones() + marker
    }
}

/// On a well-formed board every place a player may build is on the board:
/// the roads it may build are on edges below 72 and the settlements on
/// vertices below 54, and `add_road` and `add_settlement` keep boards well
/// formed.
pub proof fn lemma_build_spots_on_board(b: Board, p: Player)
    requires
        b.wf(),
    ensures
        b.road_slots@.intersect(b.player_road_slots@[pidx(p)]@).subset_of(below(N_EDGES as nat)),
        b.settlement_slots@.intersect(b.player_settlement_slots@[pidx(p)]@).subset_of(below(N_VERTICES as nat)),
{
    assert(b.player_road_slots@[pidx(p)]@.subset_of(below(N_EDGES as nat)));
    assert(b.player_settlement_slots@[pidx(p)]@.subset_of(below(N_VERTICES as nat)));
}

/// Boards that differ only in who holds the longest road marker have the
/// same enemy buildings, so the same longest roads.
proof fn lemma_marker_only(a: Board, b: Board)
    requires
        a.player_buildings == b.player_buildings,
        a.player_roads == b.player_roads,
        a.shared_data == b.shared_data,
    ensures
        forall|p: Player| #[trigger] b.enemy_buildings(p) == a.enemy_buildings(p),
        forall|table: Map<u128, u8>, p: Player, r: u8| #[trigger] b.is_longest_road(table, p, r) == a.is_longest_road(table, p, r),
{
    assert forall|p: Player| #[trigger] b.enemy_buildings(p) == a.enemy_buildings(p) by {
        assert forall|v: nat| #[trigger] b.enemy_buildings(p).contains(v) == a.enemy_buildings(p).contains(v) by {
            if a.enemy_buildings(p).contains(v) {
                let q = choose|q: Player| q != p && #[trigger] a.buildings_of(q).contains(v);
                assert(b.buildings_of(q).contains(v));
            }
            if b.enemy_buildings(p).contains(v) {
                let q = choose|q: Player| q != p && #[trigger] b.buildings_of(q).contains(v);
                assert(a.buildings_of(q).contains(v));
            }
        }
        assert(b.enemy_buildings(p) =~= a.enemy_buildings(p));
    }
}

/// The longest of the four players' longest roads.
pub open spec fn top_length(lengths: Seq<u8>) -> u8 {
    let a = if lengths[0] >= lengths[1] { lengths[0] } else { lengths[1] };
    let b = if lengths[2] >= lengths[3] { lengths[2] } else { lengths[3] };
    if a >= b { a } else { b }
}

/// The one player whose longest road is longer than everyone else's, if
/// there is one.
pub open spec fn sole_longest(lengths: Seq<u8>) -> Option<Player> {
    let m = top_length(lengths);
    let n = (if lengths[0] == m { 1int } else { 0 }) + (if lengths[1] == m { 1int } else { 0 }) + (if lengths[2]
        == m { 1int } else { 0 }) + (if lengths[3] == m { 1int } else { 0 });
    if n != 1 {
        None
    } else if lengths[0] == m {
        Some(Player::Blue)
    } else if lengths[1] == m {
        Some(Player::Orange)
    } else if lengths[2] == m {
        Some(Player::Red)
    } else {
        Some(Player::White)
    }
}

/// Who holds the longest road marker once the longest roads are `lengths`:
/// no one while no road has five segments; the holder keeps it while no road
/// is longer than its own; otherwise it goes to the one player with the
/// longest road, and is set aside while several share that length.
pub open spec fn road_leader_after(leader: Option<Player>, lengths: Seq<u8>) -> Option<Player> {
    if top_length(lengths) < 5 {
        None
    } else if leader matches Some(h) && lengths[pidx(h)] == top_length(lengths) {
        leader
    } else {
        sole_longest(lengths)
    }
}

/// The holder of the longest road marker has a road of at least five
/// segments, and no one's longest road is longer.
pub open spec fn road_marker_valid(b: Board) -> bool {
    b.road_leader matches Some(h) ==> b.longest_roads@[pidx(h)] >= 5 && forall|q: Player| #[trigger] b.longest_roads@[pidx(q)]
        <= b.longest_roads@[pidx(h)]
}

/// Whoever held it before, the longest road marker goes only to a player
/// whose road has at least five segments and is as long as anyone's.
pub proof fn lemma_road_marker_leads(leader: Option<Player>, lengths: Seq<u8>)
    requires
        lengths.len() == 4,
    ensures
        road_leader_after(leader, lengths) matches Some(h) ==> lengths[pidx(h)] >= 5 && forall|q: Player| #[trigger] lengths[pidx(q)]
            <= lengths[pidx(h)],
{
    let m = top_length(lengths);
    assert forall|q: Player| #[trigger] lengths[pidx(q)] <= m by {
        match q {
            Player::Blue => {},
            Player::Orange => {},
            Player::Red => {},
            Player::White => {},
        }
    }
    if let Some(h) = road_leader_after(leader, lengths) {
        assert(lengths[pidx(h)] == m);
    }
}

fn next_road_leader(leader: Option<Player>, lengths: &[u8; 4]) -> (r: Option<Player>)
    ensures
        r == road_leader_after(leader, lengths@),
{
    let a = if lengths[0] >= lengths[1] {
        lengths[0]
    } else {
        lengths[1]
    };
    let b = if lengths[2] >= lengths[3] {
        lengths[2]
    } else {
        lengths[3]
    };
    let m = if a >= b {
        a
    } else {
        b
    };
    if m < 5 {
        return None;
    }
    if let Some(h) = leader {
        if lengths[h.into_usize()] == m {
            return leader;
        }
    }
    let mut n: u8 = 0;
    let mut sole: Option<Player> = None;
    let mut i: usize = 4;
    while i > 0
        invariant
            i <= 4,
            m == top_length(lengths@),
            n == (if i <= 0 && lengths@[0] == m { 1int } else { 0 }) + (if i <= 1 && lengths@[1] == m { 1int } else { 0 })
                + (if i <= 2 && lengths@[2] == m { 1int } else { 0 }) + (if i <= 3 && lengths@[3] == m { 1int } else { 0 }),
            sole == (if i <= 0 && lengths@[0] == m {
                Some(Player::Blue)
            } else if i <= 1 && lengths@[1] == m {
                Some(Player::Orange)
            } else if i <= 2 && lengths@[2] == m {
                Some(Player::Red)
            } else if i <= 3 && lengths@[3] == m {
                Some(Player::White)
            } else {
                None
            }),
        decreases i,
    {
        i = i - 1;
        if lengths[i] == m {
            n = n + 1;
            sole = Some(Player::from_usize(i));
        }
    }
    if n == 1 {
        sole
    } else {
        None
    }
}

/// What `add_settlement` does: `player` owns a building at `v`, the vertex and
/// its neighbours are closed to settlements, the spokes at `v` open to
/// `player`'s roads, each enemy that the settlement code reaches loses the
/// spokes it can no longer get to, and an enemy whose road the building splits
/// has its longest road counted again.
pub open spec fn settlement_added(old: Board, new: Board, table: Map<u128, u8>, player: Player, v: nat) -> bool {
    &&& new.shared_data == old.shared_data
    &&& forall|q: Player| #[trigger] new.buildings_of(q) == if q == player {
        old.buildings_of(q).insert(v)
    } else {
        old.buildings_of(q)
    }
    &&& new.settlement_slots@ == old.settlement_slots@.difference(old.adj().v2v(v))
    &&& forall|q: Player| #[trigger] new.player_road_slots@[pidx(q)]@ == if q == player {
        old.player_road_slots@[pidx(q)]@.union(old.adj().v2e(v))
    } else if reached(old, player, v, q) {
        old.player_road_slots@[pidx(q)]@.difference(stranded(old.adj(), old.adj().v2e(v), old.roads_of(q)))
    } else {
        old.player_road_slots@[pidx(q)]@
    }
    &&& forall|q: Player| #[trigger] new.longest_roads@[pidx(q)] == old.longest_roads@[pidx(q)] || (reached(old, player, v, q)
        && splits(old, v, q))
    &&& forall|q: Player| reached(old, player, v, q) && splits(old, v, q) ==> new.is_longest_road(
        table,
        q,
        #[trigger] new.longest_roads@[pidx(q)],
    )
    &&& new.road_leader == road_leader_after(old.road_leader, new.longest_roads@)
    &&& new.player_roads == old.player_roads
    &&& new.player_settlement_slots == old.player_settlement_slots
    &&& new.road_slots == old.road_slots
    &&& new.cities == old.cities
    &&& new.robber == old.robber
    &&& new.robber_verts == old.robber_verts
}

/// What `add_road` does: `player` owns a road on `e`, the edge is taken, its
/// ends open to `player`'s settlements and its neighbours to `player`'s roads,
/// except the spokes of the enemy building that the road does not get past,
/// and `player`'s longest road is counted again.
pub open spec fn road_added(old: Board, new: Board, table: Map<u128, u8>, player: Player, e: nat) -> bool {
    &&& new.shared_data == old.shared_data
    &&& forall|q: Player| #[trigger] new.roads_of(q) == if q == player {
        old.roads_of(q).insert(e)
    } else {
        old.roads_of(q)
    }
    &&& new.road_slots@ == old.road_slots@.remove(e)
    &&& forall|q: Player| #[trigger] new.player_settlement_slots@[pidx(q)]@ == if q == player {
        old.player_settlement_slots@[pidx(q)]@.union(old.adj().e2v(e))
    } else {
        old.player_settlement_slots@[pidx(q)]@
    }
    &&& forall|q: Player| #[trigger] new.player_road_slots@[pidx(q)]@ == if q == player {
        match road_blocker(old, player, e) {
            Some(w) => old.player_road_slots@[pidx(q)]@.union(old.adj().e2e(e)).difference(old.adj().v2e(w)),
            None => old.player_road_slots@[pidx(q)]@.union(old.adj().e2e(e)),
        }
    } else {
        old.player_road_slots@[pidx(q)]@
    }
    &&& forall|q: Player| q != player ==> #[trigger] new.longest_roads@[pidx(q)] == old.longest_roads@[pidx(q)]
    &&& new.is_longest_road(table, player, new.longest_roads@[pidx(player)])
    &&& new.road_leader == road_leader_after(old.road_leader, new.longest_roads@)
    &&& new.player_buildings == old.player_buildings
    &&& new.settlement_slots == old.settlement_slots
    &&& new.cities == old.cities
    &&& new.robber == old.robber
    &&& new.robber_verts == old.robber_verts
}

/// No free settlement slot lies at or next to a building.
pub open spec fn distance_rule(b: Board) -> bool {
    forall|q: Player, v: nat| #[trigger] b.buildings_of(q).contains(v) ==> b.settlement_slots@.disjoint(b.adj().v2v(v))
}

/// No edge with a road on it is free.
pub open spec fn roads_taken(b: Board) -> bool {
    forall|q: Player| #[trigger] b.roads_of(q).disjoint(b.road_slots@)
}

/// Building a settlement keeps every vertex at or next to a building closed
/// to settlements.
pub proof fn lemma_settlement_keeps_distance(old: Board, new: Board, table: Map<u128, u8>, player: Player, v: nat)
    requires
        distance_rule(old),
        settlement_added(old, new, table, player, v),
    ensures
        distance_rule(new),
{
    assert forall|q: Player, w: nat| #[trigger] new.buildings_of(q).contains(w) implies new.settlement_slots@.disjoint(new.adj().v2v(w)) by {
        if !(q == player && w == v) {
            assert(old.buildings_of(q).contains(w));
        }
    }
}

/// Building a road keeps the buildings' surroundings closed to settlements.
pub proof fn lemma_road_keeps_distance(old: Board, new: Board, table: Map<u128, u8>, player: Player, e: nat)
    requires
        distance_rule(old),
        road_added(old, new, table, player, e),
    ensures
        distance_rule(new),
{
    assert forall|q: Player, w: nat| #[trigger] new.buildings_of(q).contains(w) implies new.settlement_slots@.disjoint(new.adj().v2v(w)) by {
        assert(old.buildings_of(q).contains(w));
    }
}

/// A road takes its edge for good: building a road never frees an edge
/// with a road on it, and takes its own.
pub proof fn lemma_road_takes_edge(old: Board, new: Board, table: Map<u128, u8>, player: Player, e: nat)
    requires
        roads_taken(old),
        road_added(old, new, table, player, e),
    ensures
        roads_taken(new),
{
    assert forall|q: Player| #[trigger] new.roads_of(q).disjoint(new.road_slots@) by {
        assert(old.roads_of(q).disjoint(old.road_slots@));
    }
}

/// Building a settlement frees no edge with a road on it.
pub proof fn lemma_settlement_keeps_roads_taken(old: Board, new: Board, table: Map<u128, u8>, player: Player, v: nat)
    requires
        roads_taken(old),
        settlement_added(old, new, table, player, v),
    ensures
        roads_taken(new),
{
    assert forall|q: Player| #[trigger] new.roads_of(q).disjoint(new.road_slots@) by {
        assert(old.roads_of(q).disjoint(old.road_slots@));
    }
}

/// The vertices that yield resource `k` on `roll`, less those the robber blocks.
pub open spec fn yielding(b: Board, roll: int, k: int) -> Set<nat> {
    b.shared_data.roll_resources@[roll - 2]@[k]@.difference(b.robber_verts@)
}

/// What player `p` would receive of resource `k` on `roll` with the bank full:
/// one per building and one more per city on a yielding vertex.
pub open spec fn raw_yield(b: Board, roll: int, k: int, p: int) -> nat {
    let owned = yielding(b, roll, k).intersect(b.player_buildings@[p]@);
    owned.len() + owned.intersect(b.cities@).len()
}

/// What the first `n` players would receive together.
pub open spec fn partial_yield(b: Board, roll: int, k: int, n: int) -> nat
    decreases n,
{
    if n <= 0 {
        0
    } else {
        partial_yield(b, roll, k, n - 1) + raw_yield(b, roll, k, n - 1)
    }
}

pub open spec fn total_yield(b: Board, roll: int, k: int) -> nat {
    partial_yield(b, roll, k, 4)
}

pub open spec fn min_nat(a: nat, b: nat) -> nat {
    if a <= b { a } else { b }
}

/// How many players would get some of resource `k` when each gets at most `stock`.
pub open spec fn capped_receivers(b: Board, roll: int, k: int, stock: nat) -> nat {
    (if min_nat(raw_yield(b, roll, k, 0), stock) > 0 { 1nat } else { 0nat })
        + (if min_nat(raw_yield(b, roll, k, 1), stock) > 0 { 1nat } else { 0nat })
        + (if min_nat(raw_yield(b, roll, k, 2), stock) > 0 { 1nat } else { 0nat })
        + (if min_nat(raw_yield(b, roll, k, 3), stock) > 0 { 1nat } else { 0nat })
}

/// What player `p` receives of resource `k` on `roll` when the bank holds `stock`
/// of it: everything owed if the bank can pay it all; otherwise, if only one
/// player is owed any, what the bank has up to the amount owed, and else nothing.
pub open spec fn share(b: Board, roll: int, k: int, p: int, stock: nat) -> nat {
    if total_yield(b, roll, k) <= stock {
        raw_yield(b, roll, k, p)
    } else if capped_receivers(b, roll, k, stock) > 1 {
        0
    } else {
        min_nat(raw_yield(b, roll, k, p), stock)
    }
}

/// The bank never pays out more of a resource than it holds: either everyone
/// gets what is owed and that fits, or at most one player gets anything, and
/// no more than the stock.
pub proof fn lemma_shares_within_stock(b: Board, roll: int, k: int, stock: nat)
    ensures
        share(b, roll, k, 0, stock) + share(b, roll, k, 1, stock) + share(b, roll, k, 2, stock) + share(b, roll, k, 3, stock) <= stock,
{
    reveal_with_fuel(partial_yield, 5);
}

/// The edges among `spokes` without a road of `roads` that touch no road of
/// `roads` away from the spokes: a building at the hub cuts them off.
pub open spec fn stranded(adj: Adjacency, spokes: Set<nat>, roads: Set<nat>) -> Set<nat> {
    Set::new(
        |e: nat|
            spokes.contains(e) && !roads.contains(e) && adj.e2e(e).difference(spokes).intersect(roads)
                == Set::<nat>::empty(),
    )
}

/// A building at `v` stands between two roads of `q`.
pub open spec fn splits(b: Board, v: nat, q: Player) -> bool {
    b.adj().v2e(v).intersect(b.roads_of(q)).len() >= 2
}

/// `q` is an enemy of `player`, and no enemy seated before it meets `pred`.
pub open spec fn none_before(player: Player, pred: spec_fn(Player) -> bool, q: Player) -> bool {
    &&& q != player
    &&& forall|q2: Player| q2 != player && pidx(q2) < pidx(q) ==> !#[trigger] pred(q2)
}

/// `q` is an enemy of `player` whose road slots are looked at when `player`
/// builds at `v`: no enemy seated before it has a road split there.
pub open spec fn reached(b: Board, player: Player, v: nat, q: Player) -> bool {
    none_before(player, |x: Player| splits(b, v, x), q)
}

/// `x` is among the first `n` entries of `s`.
pub open spec fn among(s: Seq<usize>, n: int, x: nat) -> bool {
    exists|j: int| 0 <= j < n && s[j] == x
}

/// `q` has exactly one building at the ends of edge `e`.
pub open spec fn lone_building(b: Board, e: nat, q: Player) -> bool {
    b.adj().e2v(e).intersect(b.buildings_of(q)).len() == 1
}

/// The smallest element of a set of indices.
pub open spec fn set_min(s: Set<nat>) -> nat {
    choose|m: nat| s.contains(m) && forall|x: nat| s.contains(x) ==> m <= x
}

/// The enemy whose building `add_road` looks at: the first in seating order
/// with exactly one building at the ends of the new road.
pub open spec fn first_lone(b: Board, player: Player, e: nat, q: Player) -> bool {
    none_before(player, |x: Player| lone_building(b, e, x), q) && lone_building(b, e, q)
}

/// The building of `q` at an end of `e`, if a new road of `player` on `e`
/// leaves it cut off: among the edges at the building that hold a road, the
/// lowest touches just one road of `player`.
pub open spec fn blocker_at(b: Board, player: Player, e: nat, q: Player) -> Option<nat> {
    let w = choose|w: nat| b.adj().e2v(e).intersect(b.buildings_of(q)).contains(w);
    let taken = b.adj().v2e(w).difference(b.road_slots@.remove(e));
    if taken != Set::<nat>::empty() && b.adj().e2e(set_min(taken)).intersect(b.roads_of(player).insert(e)).len() == 1 {
        Some(w)
    } else {
        None
    }
}

/// The building whose spokes `player` may not build on after a road on `e`.
pub open spec fn road_blocker(b: Board, player: Player, e: nat) -> Option<nat> {
    if exists|q: Player| #[trigger] first_lone(b, player, e, q) {
        blocker_at(b, player, e, choose|q: Player| #[trigger] first_lone(b, player, e, q))
    } else {
        None
    }
}

/// Removes from `slots` the edges at a new building's spokes that an enemy can
/// no longer reach.
fn cut_road_slots(adj: &Adjacency, slots: Bitboard<u128>, spokes: Bitboard<u128>, roads: Bitboard<u128>) -> (r: Bitboard<u128>)
    requires
        adj.wf(),
        spokes@.subset_of(below(N_EDGES as nat)),
    ensures
        r@ == slots@.difference(stranded(*adj, spokes@, roads@)),
{
    let free = spokes.and(roads.not()).values();
    let mut result = slots;
    let mut i: usize = 0;
    while i < free.len()
        invariant
            i <= free.len(),
            adj.wf(),
            spokes@.subset_of(below(N_EDGES as nat)),
            forall|j: int| 0 <= j < free.len() ==> spokes@.intersect(Bitboard::<u128>::full().difference(roads@)).contains(#[trigger] free[j] as nat),
            forall|k: nat| spokes@.intersect(Bitboard::<u128>::full().difference(roads@)).contains(k) ==> exists|j: int| 0 <= j < free.len() && #[trigger] free[j] == k,
            result@ == slots@.difference(
                Set::new(|e: nat| among(free@, i as int, e) && stranded(*adj, spokes@, roads@).contains(e)),
            ),
        decreases free.len() - i,
    {
        let e = free[i];
        let ghost before = result@;
        assert(spokes@.contains(e as nat));
        assert(e < N_EDGES);
        let around = adj.edge_to_edges[e].and(spokes.not()).and(roads);
        proof {
            adj.edge_to_edges@[e as int].lemma_view_finite();
            assert(around@ =~= adj.e2e(e as nat).difference(spokes@).intersect(roads@));
        }
        if around.is_zeros() {
            result.remove(e);
        }
        proof {
            assert(result@ =~= slots@.difference(
                Set::new(|x: nat| among(free@, i + 1, x) && stranded(*adj, spokes@, roads@).contains(x)),
            )) by {
                assert forall|x: nat| #[trigger] among(free@, i + 1, x) <==> (among(free@, i as int, x) || x == e) by {
                    if x == e {
                        assert(free@[i as int] == x);
                    }
                    if among(free@, i + 1, x) && x != e {
                        let j = choose|j: int| 0 <= j < i + 1 && free@[j] == x;
                        assert(j < i);
                    }
                }
            }
        }
        i = i + 1;
    }
    proof {
        assert(result@ =~= slots@.difference(stranded(*adj, spokes@, roads@))) by {
            assert forall|x: nat| stranded(*adj, spokes@, roads@).contains(x) implies among(free@, free.len() as int, x) by {
                assert(x < N_EDGES);
                assert(spokes@.intersect(Bitboard::<u128>::full().difference(roads@)).contains(x));
            }
        }
    }
    result
}

/// Going through the enemies in seating order and stopping after the first that
/// meets `pred` visits exactly those with no earlier enemy meeting it.
proof fn lemma_visits(player: Player, enemies: Seq<Player>, pred: spec_fn(Player) -> bool, i: int, done: bool)
    requires
        enemies.len() == 3,
        forall|j: int| 0 <= j < 3 ==> enemies[j] != player,
        forall|j: int, k: int| 0 <= j < k < 3 ==> enemies[j].spec_index() < enemies[k].spec_index(),
        0 <= i <= 3,
        forall|j: int| 0 <= j < i && !(done && j == i - 1) ==> !#[trigger] pred(enemies[j]),
        done ==> 1 <= i && pred(enemies[i - 1]),
        !done ==> i == 3,
    ensures
        forall|q: Player| (exists|j: int| 0 <= j < i && enemies[j] == q) <==> #[trigger] none_before(player, pred, q),
{
    assert forall|q: Player| (exists|j: int| 0 <= j < i && enemies[j] == q) <==> #[trigger] none_before(player, pred, q) by {
        if exists|j: int| 0 <= j < i && enemies[j] == q {
            let j = choose|j: int| 0 <= j < i && enemies[j] == q;
            assert forall|q2: Player| q2 != player && pidx(q2) < pidx(q) implies !#[trigger] pred(q2) by {
                lemma_enemies_cover(player, enemies, q2);
                if q2 == enemies[0] {
                } else if q2 == enemies[1] {
                } else {
                }
            }
        }
        if none_before(player, pred, q) {
            lemma_enemies_cover(player, enemies, q);
            if done {
                let last = enemies[i - 1];
                if q == enemies[0] {
                } else if q == enemies[1] {
                    if i == 1 {
                        assert(!pred(last));
                    }
                } else {
                    if i <= 2 {
                        assert(!pred(last));
                    }
                }
            }
        }
    }
}

proof fn lemma_enemies_cover(p: Player, enemies: Seq<Player>, q: Player)
    requires
        enemies.len() == 3,
        forall|i: int| 0 <= i < 3 ==> enemies[i] != p,
        forall|i: int, j: int| 0 <= i < j < 3 ==> enemies[i].spec_index() < enemies[j].spec_index(),
        q != p,
    ensures
        q == enemies[0] || q == enemies[1] || q == enemies[2],
{
    assert(enemies[0] != enemies[1] && enemies[1] != enemies[2] && enemies[0] != enemies[2]);
}

} // verus!
