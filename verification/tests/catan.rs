use std::collections::HashMap;

use boardgames::adjacency::Adjacency;
use boardgames::bank::Bank;
use boardgames::bitboard::Bitboard;
use boardgames::board::{Board, SharedBoardData};
use boardgames::catan_common::Player::{Blue, Orange, Red, White};
use boardgames::catan_common::Resource::{Brick, Grain, Lumber, Ore, Wool};
use boardgames::catan_common::{Action, DevCard, Player, Purchasable, Resource};
use boardgames::catan_state::{Phase, State, buy_cost};
use boardgames::chance::pick_random_action;
use boardgames::road_trails::{RoadGraphIterator, RoadTrailTable, slow_longest_trail};

// ---------------------------------------------------------------------------
// The standard board in axial coordinates: hexes (q, r) with pointy tops, each
// owning its north and south corners and its north-east, north-west and west
// sides. Hexes are numbered row by row from the top, left to right.

#[derive(Clone, Copy, PartialEq, Eq, Hash, Debug)]
enum Corner {
    N,
    S,
}
use Corner::{N, S};

#[derive(Clone, Copy, PartialEq, Eq, Hash, Debug)]
enum Side {
    NE,
    NW,
    W,
}
use Side::{NE, NW, W};

#[derive(Clone, Copy, PartialEq, Eq, Hash, Debug)]
struct Hex(i32, i32);
#[derive(Clone, Copy, PartialEq, Eq, Hash, Debug)]
struct Vertex(i32, i32, Corner);
#[derive(Clone, Copy, PartialEq, Eq, Hash, Debug)]
struct Edge(i32, i32, Side);

struct Geometry {
    hex_ids: HashMap<Hex, usize>,
    vertex_ids: HashMap<Vertex, usize>,
    edge_ids: HashMap<Edge, usize>,
    adjacency: Adjacency,
}

fn on_board(q: i32, r: i32) -> bool {
    q.abs() <= 2 && r.abs() <= 2 && (q + r).abs() <= 2
}

fn corners(Hex(q, r): Hex) -> [Vertex; 6] {
    [
        Vertex(q, r, N),
        Vertex(q + 1, r - 1, S),
        Vertex(q, r + 1, N),
        Vertex(q, r, S),
        Vertex(q - 1, r + 1, N),
        Vertex(q, r - 1, S),
    ]
}

fn sides(Hex(q, r): Hex) -> [Edge; 6] {
    [
        Edge(q, r, NE),
        Edge(q + 1, r, W),
        Edge(q, r + 1, NW),
        Edge(q - 1, r + 1, NE),
        Edge(q, r, W),
        Edge(q, r, NW),
    ]
}

fn ends(Edge(q, r, side): Edge) -> [Vertex; 2] {
    match side {
        NE => [Vertex(q, r, N), Vertex(q + 1, r - 1, S)],
        NW => [Vertex(q, r, N), Vertex(q, r - 1, S)],
        W => [Vertex(q, r - 1, S), Vertex(q - 1, r + 1, N)],
    }
}

fn geometry() -> Geometry {
    let mut hexes = vec![];
    for r in -2..=2 {
        for q in -2..=2 {
            if on_board(q, r) {
                hexes.push(Hex(q, r));
            }
        }
    }
    let mut vertex_ids = HashMap::new();
    let mut edge_ids = HashMap::new();
    for &h in &hexes {
        for v in corners(h) {
            let n = vertex_ids.len();
            vertex_ids.entry(v).or_insert(n);
        }
        for e in sides(h) {
            let n = edge_ids.len();
            edge_ids.entry(e).or_insert(n);
        }
    }
    assert_eq!(hexes.len(), 19);
    assert_eq!(vertex_ids.len(), 54);
    assert_eq!(edge_ids.len(), 72);

    let mut edge_to_verts = vec![Bitboard::<u64>::zeros(); 72];
    let mut vert_to_edges = vec![Bitboard::<u128>::zeros(); 54];
    for (&e, &i) in &edge_ids {
        for v in ends(e) {
            let j = vertex_ids[&v];
            edge_to_verts[i].add(j);
            vert_to_edges[j].add(i);
        }
    }
    let mut edge_to_edges = vec![Bitboard::<u128>::zeros(); 72];
    for i in 0..72 {
        for v in edge_to_verts[i].values() {
            edge_to_edges[i] = edge_to_edges[i].or(vert_to_edges[v]);
        }
    }
    let mut vert_to_verts = vec![Bitboard::<u64>::zeros(); 54];
    for j in 0..54 {
        for e in vert_to_edges[j].values() {
            vert_to_verts[j] = vert_to_verts[j].or(edge_to_verts[e]);
        }
        vert_to_verts[j].add(j);
    }
    let mut hex_to_verts = vec![Bitboard::<u64>::zeros(); 19];
    let mut hex_ids = HashMap::new();
    for (i, &h) in hexes.iter().enumerate() {
        hex_ids.insert(h, i);
        for v in corners(h) {
            hex_to_verts[i].add(vertex_ids[&v]);
        }
    }
    Geometry {
        hex_ids,
        vertex_ids,
        edge_ids,
        adjacency: Adjacency { edge_to_edges, edge_to_verts, vert_to_edges, vert_to_verts, hex_to_verts },
    }
}

/// The hexes of the illustrated starting map, row by row.
fn starting_map() -> (Vec<Option<Resource>>, Vec<Option<u8>>) {
    let mut resources: Vec<Option<Resource>> = [
        Ore, Wool, Lumber, Grain, Brick, Wool, Brick, Grain, Lumber, Ore, // <- Desert
        Lumber, Ore, Lumber, Ore, Grain, Wool, Brick, Grain, Wool,
    ]
    .into_iter()
    .map(Some)
    .collect();
    let mut rolls: Vec<Option<u8>> = [
        10, 2, 9, 12, 6, 4, 10, 9, 11, 7, // <- Desert
        3, 8, 8, 3, 4, 5, 5, 6, 11,
    ]
    .into_iter()
    .map(Some)
    .collect();
    resources[9] = None;
    rolls[9] = None;
    (resources, rolls)
}

/// A board under test, with a trail table that covers every road it builds.
struct Game {
    geo: Geometry,
    board: Board,
    table: RoadTrailTable,
}

impl Game {
    fn new() -> Game {
        let geo = geometry();
        let (resources, rolls) = starting_map();
        let mut generic = Bitboard::<u64>::zeros();
        generic.add(geo.vertex_ids[&Vertex(0, -2, N)]);
        let mut resource_harbors = vec![Bitboard::<u64>::zeros(); 5];
        resource_harbors[Grain.into_usize()].add(geo.vertex_ids[&Vertex(2, -3, S)]);
        let center = geo.hex_ids[&Hex(0, 0)];
        let shared = SharedBoardData::new(geo.adjacency.clone(), resources, rolls, generic, resource_harbors, center);
        let board = Board::new(shared);
        Game { geo, board, table: RoadTrailTable { map: HashMap::new() } }
    }

    fn clone_game(&self) -> Game {
        Game { geo: geometry(), board: self.board.clone(), table: RoadTrailTable { map: self.table.map.clone() } }
    }

    fn v(&self, v: Vertex) -> usize {
        self.geo.vertex_ids[&v]
    }

    fn e(&self, e: Edge) -> usize {
        self.geo.edge_ids[&e]
    }

    fn h(&self, h: Hex) -> usize {
        self.geo.hex_ids[&h]
    }

    /// Puts every subset of `roads` in the table.
    fn cover(&mut self, roads: &[usize]) {
        for mask in 0u32..(1 << roads.len()) {
            let mut bb = Bitboard::<u128>::zeros();
            for (i, &r) in roads.iter().enumerate() {
                if mask & (1 << i) != 0 {
                    bb.add(r);
                }
            }
            if !self.table.map.contains_key(&bb.value) {
                let len = slow_longest_trail(&self.geo.adjacency, bb);
                self.table.map.insert(bb.value, len);
            }
        }
    }

    fn cover_all(&mut self, extra: Option<(Player, usize)>) {
        for p in [Blue, Orange, Red, White] {
            let mut roads = self.board.roads(p).values();
            if let Some((q, e)) = extra {
                if q == p && !roads.contains(&e) {
                    roads.push(e);
                }
            }
            self.cover(&roads);
        }
    }

    fn sett(&mut self, p: Player, v: Vertex) {
        let id = self.v(v);
        self.cover_all(None);
        self.board.add_settlement(&self.table, p, id);
    }

    fn road(&mut self, p: Player, e: Edge) {
        let id = self.e(e);
        self.cover_all(Some((p, id)));
        self.board.add_road(&self.table, p, id);
    }

    fn city(&mut self, v: Vertex) {
        let id = self.v(v);
        self.board.upgrade_settlement(id);
    }
}

/// *Illustration A* of the rules: two settlements and two roads per player.
fn setup() -> Game {
    let mut g = Game::new();
    g.sett(Blue, Vertex(-2, 2, N));
    g.sett(Blue, Vertex(0, 2, N));
    g.sett(Orange, Vertex(2, -2, S));
    g.sett(Orange, Vertex(-1, 2, N));
    g.sett(Red, Vertex(0, -1, N));
    g.sett(Red, Vertex(-2, 1, N));
    g.sett(White, Vertex(-1, 0, N));
    g.sett(White, Vertex(1, 1, N));

    g.road(Blue, Edge(-2, 2, NE));
    g.road(Blue, Edge(1, 1, W));
    g.road(Orange, Edge(-1, 2, NE));
    g.road(Orange, Edge(1, -1, NE));
    g.road(Red, Edge(-2, 1, NE));
    g.road(Red, Edge(0, -1, NE));
    g.road(White, Edge(-1, 0, NW));
    g.road(White, Edge(2, 0, W));
    g
}

fn splat(n: u8) -> [u8; 5] {
    [n; 5]
}

// ---------------------------------------------------------------------------
// Board

#[test]
fn resource_production() {
    let b = setup();
    let production = b.board.produce_resources(6, splat(20));
    let expected = [[0; 5], [0, 1, 0, 0, 0], [1, 0, 0, 0, 0], [1, 0, 0, 0, 0]];
    assert_eq!(production, expected);
}

#[test]
fn resource_production_cities() {
    let mut b = setup();
    b.sett(Red, Vertex(0, -2, N));
    b.sett(Red, Vertex(-1, -1, N));
    b.city(Vertex(0, -2, N));
    b.city(Vertex(-1, -1, N));
    b.city(Vertex(0, -1, N));

    let production = b.board.produce_resources(10, splat(20));
    let expected = [[0; 5], [1, 0, 0, 0, 0], [0, 0, 0, 6, 0], [0; 5]];
    assert_eq!(production, expected);
}

#[test]
fn insufficient_resource_production() {
    // 2 ore produced for more than 1 player; 1 in stock; no one gets any
    // 1 brick produced; 1 in stock; orange gets it per usual
    let mut b = setup();
    b.sett(Blue, Vertex(0, -2, N));
    let production = b.board.produce_resources(10, splat(1));
    let expected = [[0; 5], [1, 0, 0, 0, 0], [0; 5], [0; 5]];
    assert_eq!(production, expected);
}

#[test]
fn insufficient_resource_production_exception() {
    // 2 ore produced for 1 player; 1 in stock; player gets 1
    // 1 brick produced; 1 in stock; orange gets it per usual
    let mut b = setup();
    b.city(Vertex(0, -1, N));
    let production = b.board.produce_resources(10, splat(1));
    let expected = [[0; 5], [1, 0, 0, 0, 0], [0, 0, 0, 1, 0], [0; 5]];
    assert_eq!(production, expected);
}

#[test]
fn no_desert_production() {
    let mut b = setup();
    let before = b.board.produce_resources(7, splat(10));
    b.sett(Red, Vertex(0, 0, N));
    let after = b.board.produce_resources(7, splat(10));
    assert_eq!(before, after);
    assert_eq!(after[Red.into_usize()], splat(0));
}

#[test]
fn robber_prevents_production() {
    let mut b = setup();
    let before = b.board.produce_resources(6, splat(10));
    let hex = b.h(Hex(0, -1));
    b.board.move_robber(hex);
    let after = b.board.produce_resources(6, splat(10));
    assert_ne!(before, after);
    assert_eq!(after, [[0; 5], [0, 1, 0, 0, 0], [0; 5], [0; 5]]);
}

#[test]
fn no_adjacent_settlements() {
    let b = setup();
    // No one can build anything
    for p in [Blue, Orange, Red, White] {
        assert!(b.board.available_settlements(p).is_zeros());
    }
}

#[test]
fn placeable_settlement() {
    let mut b = setup();
    b.road(Red, Edge(1, -1, W));
    let settlement_vert = b.v(Vertex(0, 0, N));
    let red_verts = b.board.available_settlements(Red).values();

    // Red can only build this settlement. The rest can't build any settlements.
    assert_eq!(red_verts, vec![settlement_vert]);
    assert!(b.board.available_settlements(Blue).is_zeros());
    assert!(b.board.available_settlements(Orange).is_zeros());
    assert!(b.board.available_settlements(White).is_zeros());
}

#[test]
fn no_road_from_enemy_building() {
    let b = setup();
    // Only Red can build this road
    let road = b.e(Edge(0, -1, NW));
    assert!(!b.board.available_roads(Orange).contains(road));
    assert!(b.board.available_roads(Red).contains(road));
    assert!(!b.board.available_roads(Blue).contains(road));
    assert!(!b.board.available_roads(White).contains(road));
}

#[test]
fn no_road_from_enemy_road() {
    let b = setup();
    // Only Red and Orange can build this road
    let road = b.e(Edge(1, -1, NW));
    assert!(b.board.available_roads(Orange).contains(road));
    assert!(b.board.available_roads(Red).contains(road));
    assert!(!b.board.available_roads(Blue).contains(road));
    assert!(!b.board.available_roads(White).contains(road));
}

#[test]
fn no_out_of_bounds_roads() {
    let mut b = setup();
    b.road(Red, Edge(1, -2, W));
    b.road(Red, Edge(0, -2, NE));

    // Assert all placeable roads are on edges with ids in 0..72
    let placeable = b.board.available_roads(Red);
    assert!(placeable < Bitboard::new(1u128 << 72));
}

#[test]
fn building_spots_stay_on_the_board() {
    let mut b = setup();
    b.road(Red, Edge(1, -2, W));
    b.road(Red, Edge(0, -2, NE));
    for p in [Blue, Orange, Red, White] {
        assert!(b.board.available_roads(p) < Bitboard::new(1u128 << 72));
        assert!(b.board.available_settlements(p) < Bitboard::new(1u64 << 54));
    }
}

#[test]
fn players_on_hex() {
    let b = setup();
    let hex_id = b.h(Hex(-2, 1));
    let players = b.board.players_on_hex(hex_id);
    assert_eq!(players, vec![Blue, Red]);
}

#[test]
fn old_enemy_settlement_prevents_new_road() {
    let mut b = Game::new();
    b.sett(Orange, Vertex(0, 0, N));
    b.road(Blue, Edge(0, 0, NW));
    assert!(!b.board.available_roads(Blue).contains(b.e(Edge(0, 0, NE))));
}

#[test]
fn new_enemy_settlement_prevents_new_road() {
    let mut b = Game::new();
    b.road(Blue, Edge(0, 0, NW));
    b.sett(Orange, Vertex(0, 0, N));
    assert!(!b.board.available_roads(Blue).contains(b.e(Edge(0, 0, NE))));
}

#[test]
fn old_enemy_settlement_allows_road_that_goes_around() {
    let mut b = Game::new();
    b.sett(Orange, Vertex(0, 0, N));
    b.road(Blue, Edge(0, 0, NW));
    b.road(Blue, Edge(-1, 0, NE));
    b.road(Blue, Edge(0, -1, W));
    b.road(Blue, Edge(0, -1, NW));
    b.road(Blue, Edge(0, -1, NE));
    assert!(b.board.available_roads(Blue).contains(b.e(Edge(1, -1, W))));
}

#[test]
fn new_enemy_settlement_allows_road_that_goes_around() {
    let mut b = Game::new();
    b.road(Blue, Edge(0, 0, NW));
    b.road(Blue, Edge(-1, 0, NE));
    b.road(Blue, Edge(0, -1, W));
    b.road(Blue, Edge(0, -1, NW));
    b.road(Blue, Edge(0, -1, NE));
    b.sett(Orange, Vertex(0, 0, N));
    assert!(b.board.available_roads(Blue).contains(b.e(Edge(1, -1, W))));
}

#[test]
fn old_enemy_settlement_allows_road_that_goes_around2() {
    let mut b = Game::new();
    b.sett(Orange, Vertex(0, 0, N));
    b.road(Blue, Edge(-1, 0, NE));
    b.road(Blue, Edge(0, -1, W));
    b.road(Blue, Edge(0, -1, NW));
    b.road(Blue, Edge(0, -1, NE));

    assert!(b.board.available_roads(Blue).contains(b.e(Edge(0, 0, NW))));
    assert!(b.board.available_roads(Blue).contains(b.e(Edge(1, -1, W))));

    b.road(Blue, Edge(0, 0, NW));
    assert!(b.board.available_roads(Blue).contains(b.e(Edge(1, -1, W))));
}

#[test]
fn new_enemy_settlement_allows_road_that_goes_around2() {
    let mut b = Game::new();
    b.road(Blue, Edge(-1, 0, NE));
    b.road(Blue, Edge(0, -1, W));
    b.road(Blue, Edge(0, -1, NW));
    b.road(Blue, Edge(0, -1, NE));

    assert!(b.board.available_roads(Blue).contains(b.e(Edge(0, 0, NW))));
    assert!(b.board.available_roads(Blue).contains(b.e(Edge(1, -1, W))));

    b.sett(Orange, Vertex(0, 0, N));

    assert!(b.board.available_roads(Blue).contains(b.e(Edge(0, 0, NW))));
    assert!(b.board.available_roads(Blue).contains(b.e(Edge(1, -1, W))));

    b.road(Blue, Edge(0, 0, NW));

    assert!(b.board.available_roads(Blue).contains(b.e(Edge(1, -1, W))));
}

#[test]
fn enemy_settlement_prevents_road_branch() {
    let mut b = Game::new();
    b.road(Blue, Edge(0, 0, NW));
    b.road(Blue, Edge(0, 0, NE));
    b.sett(Orange, Vertex(0, 0, N));
    assert!(!b.board.available_roads(Blue).contains(b.e(Edge(1, -1, W))));
}

#[test]
fn enemy_settlement_splits_road() {
    let mut b = Game::new();
    b.road(Blue, Edge(0, 0, NW));
    b.road(Blue, Edge(0, 0, NE));
    b.road(Blue, Edge(1, 0, W));
    b.road(Blue, Edge(0, 1, NW));
    assert_eq!(b.board.longest_roads[Blue.into_usize()], 4, "longest road before split");
    b.sett(Orange, Vertex(1, -1, S));
    assert_eq!(b.board.longest_roads[Blue.into_usize()], 2, "longest road after split");
    assert_eq!(b.board.longest_road(&b.table, Blue), 2);
}

#[test]
fn branching_roads_count_the_longest_trail() {
    let mut b = Game::new();
    // A path of three with a one-road branch at its middle vertex.
    b.road(Red, Edge(0, 0, NW));
    b.road(Red, Edge(0, 0, NE));
    b.road(Red, Edge(1, 0, W));
    b.road(Red, Edge(1, -1, W));
    assert_eq!(b.board.longest_roads[Red.into_usize()], 3);
}

#[test]
fn settlements_cities_and_points() {
    let mut b = setup();
    b.city(Vertex(0, -1, N));
    assert_eq!(b.board.settlements(Red).values(), vec![b.v(Vertex(-2, 1, N))]);
    assert_eq!(b.board.cities(Red).values(), vec![b.v(Vertex(0, -1, N))]);
    assert_eq!(b.board.buildings(Red).count_ones(), 2);
    assert_eq!(b.board.victory_points(Red), 3);
    assert_eq!(b.board.victory_points(Blue), 2);
}

/// The vertex shared by two edges.
fn shared_end(a: Edge, b: Edge) -> Vertex {
    let [a0, a1] = ends(a);
    if ends(b).contains(&a0) { a0 } else { a1 }
}

#[test]
fn longest_road_marker_needs_five_roads_and_stays_on_a_tie() {
    let mut g = Game::new();
    let ring = sides(Hex(0, 0));
    for &e in &ring[..4] {
        g.road(Blue, e);
    }
    assert_eq!(g.board.longest_roads[0], 4);
    assert_eq!(g.board.road_leader, None);
    g.road(Blue, ring[4]);
    assert_eq!(g.board.longest_roads[0], 5);
    assert_eq!(g.board.road_leader, Some(Blue));
    assert_eq!(g.board.victory_points(Blue), 2);
    assert_eq!(State::with_board(g.board.clone()).victory_points(Blue), 2);

    // Orange draws level: Blue keeps the marker.
    let far = sides(Hex(-2, 2));
    for &e in &far[..5] {
        g.road(Orange, e);
    }
    assert_eq!(g.board.longest_roads[1], 5);
    assert_eq!(g.board.road_leader, Some(Blue));

    // A longer road takes it.
    g.road(Orange, far[5]);
    assert_eq!(g.board.longest_roads[1], 6);
    assert_eq!(g.board.road_leader, Some(Orange));
    assert_eq!(g.board.victory_points(Blue), 0);
    assert_eq!(g.board.victory_points(Orange), 2);
}

#[test]
fn broken_longest_road_passes_the_marker_or_sets_it_aside() {
    let mut g = Game::new();
    let ring = sides(Hex(0, 0));
    for &e in &ring[..5] {
        g.road(Blue, e);
    }
    let far = sides(Hex(-2, 2));
    for &e in &far[..5] {
        g.road(Orange, e);
    }
    assert_eq!(g.board.road_leader, Some(Blue));

    // Red settles in the middle of Blue's road: Orange alone has five.
    let mut split = g.clone_game();
    split.sett(Red, shared_end(ring[1], ring[2]));
    assert_eq!(split.board.longest_roads[0], 3);
    assert_eq!(split.board.road_leader, Some(Orange));
    assert_eq!(split.board.victory_points(Orange), 2);

    // With White at five too, no one is ahead and the marker is set aside.
    let other = sides(Hex(2, -2));
    for &e in &other[..5] {
        g.road(White, e);
    }
    assert_eq!(g.board.road_leader, Some(Blue));
    g.sett(Red, shared_end(ring[1], ring[2]));
    assert_eq!(g.board.road_leader, None);
    assert_eq!(g.board.victory_points(Orange), 0);
    assert_eq!(g.board.victory_points(White), 0);
}

#[test]
fn harbors_lower_exchange_ratios() {
    let mut b = Game::new();
    assert_eq!(b.board.exchange_ratios(Blue), [4; 5]);
    b.sett(Blue, Vertex(0, -2, N));
    assert_eq!(b.board.exchange_ratios(Blue), [3; 5]);
    b.sett(Blue, Vertex(2, -3, S));
    assert_eq!(b.board.exchange_ratios(Blue), [3, 2, 3, 3, 3]);
    assert_eq!(b.board.exchange_ratios(Orange), [4; 5]);
}

#[test]
fn robber_starts_on_the_desert() {
    let b = Game::new();
    assert_eq!(b.board.robber_hex_id(), 9);
    assert_eq!(b.h(Hex(0, 0)), 9);
    let map = b.board.game_map();
    assert_eq!(map.resources[9], None);
    assert_eq!(map.rolls[4], Some(6));
}

// ---------------------------------------------------------------------------
// Road trails

/// Edges end to end in one long line; only the first three know each other
/// as neighbours, so only they grow into larger road graphs.
fn line_adjacency() -> Adjacency {
    let mut edge_to_verts = vec![Bitboard::<u64>::zeros(); 72];
    let mut vert_to_edges = vec![Bitboard::<u128>::zeros(); 54];
    for e in 0..72 {
        for v in [e % 54, (e + 1) % 54] {
            edge_to_verts[e].add(v);
            vert_to_edges[v].add(e);
        }
    }
    let mut edge_to_edges = vec![Bitboard::<u128>::zeros(); 72];
    for (a, b) in [(0, 1), (1, 2)] {
        edge_to_edges[a].add(b);
        edge_to_edges[b].add(a);
    }
    Adjacency {
        edge_to_edges,
        edge_to_verts,
        vert_to_edges,
        vert_to_verts: vec![Bitboard::<u64>::zeros(); 54],
        hex_to_verts: vec![Bitboard::<u64>::zeros(); 19],
    }
}

#[test]
fn adjacency_tables_are_checked() {
    assert!(geometry().adjacency.is_valid());
    assert!(line_adjacency().is_valid());
    let mut lopsided = line_adjacency();
    lopsided.edge_to_edges[5].add(6);
    assert!(!lopsided.is_valid());
    let mut loose = line_adjacency();
    loose.edge_to_verts[3].add(40);
    assert!(!loose.is_valid());
    let mut crowded = geometry().adjacency;
    for e in [10, 11, 12, 13, 14, 15] {
        crowded.edge_to_edges[0].add(e);
        crowded.edge_to_edges[e].add(0);
    }
    assert!(!crowded.is_valid());
    let mut short = line_adjacency();
    short.hex_to_verts.pop();
    assert!(!short.is_valid());
}

#[test]
fn load_table() {
    let table = RoadTrailTable::generate(&line_adjacency());
    table.lookup(0);
}

#[test]
fn lookup() {
    let table = RoadTrailTable::generate(&line_adjacency());
    let data = vec![("7", 3), ("6", 2), ("1000000", 1)];
    for (hex, length) in data {
        let roads: Bitboard<u128> = Bitboard::from_hex(hex);
        assert_eq!(table.lookup(roads.value), length);
    }
}

#[test]
fn generated_table_holds_the_longest_trail_of_each_graph() {
    let adj = line_adjacency();
    let table = RoadTrailTable::generate(&adj);
    // The empty graph, 72 single roads, and three longer graphs along the line.
    assert_eq!(table.map.len(), 1 + 72 + 3);
    assert_eq!(table.lookup(0), 0);
    for e in 0..72 {
        assert_eq!(table.lookup(1u128 << e), 1);
    }
    assert_eq!(table.lookup(0b011), 2);
    assert_eq!(table.lookup(0b110), 2);
    assert_eq!(table.lookup(0b111), 3);
    for (&graph, &len) in &table.map {
        let mut roads = Bitboard::<u128>::zeros();
        roads.value = graph;
        assert_eq!(slow_longest_trail(&adj, roads), len);
    }
}

#[test]
fn graph_iterator_yields_each_connected_graph_once() {
    let adj = line_adjacency();
    let mut graphs = RoadGraphIterator::new(&adj);
    let mut seen: Vec<u128> = Vec::new();
    while let Some(g) = graphs.next() {
        assert!(!seen.contains(&g.value));
        seen.push(g.value);
    }
    assert_eq!(seen[0], 0);
    let mut expected: Vec<u128> = vec![0, 0b011, 0b110, 0b111];
    for e in 0..72 {
        expected.push(1u128 << e);
    }
    seen.sort();
    expected.sort();
    assert_eq!(seen, expected);
    assert!(graphs.next().is_none());
}

#[test]
fn generated_table_measures_split_networks() {
    let adj = line_adjacency();
    let table = RoadTrailTable::generate(&adj);
    let roads: Bitboard<u128> = Bitboard::from_hex("7");
    assert_eq!(table.longest_trail(&adj, roads, Bitboard::zeros()), 3);
    // An enemy building between the first two roads leaves the last two.
    let mut enemy = Bitboard::<u64>::zeros();
    enemy.add(1);
    assert_eq!(table.longest_trail(&adj, roads, enemy), 2);
    // Between the last two, the first two remain.
    let mut enemy = Bitboard::<u64>::zeros();
    enemy.add(2);
    assert_eq!(table.longest_trail(&adj, roads, enemy), 2);
    assert_eq!(table.longest_trail(&adj, Bitboard::zeros(), enemy), 0);
}

#[test]
fn slow_longest_trail_follows_a_loop() {
    let g = geometry();
    let mut ring = Bitboard::<u128>::zeros();
    for e in sides(Hex(0, 0)) {
        ring.add(g.edge_ids[&e]);
    }
    assert_eq!(slow_longest_trail(&g.adjacency, ring), 6);
    assert_eq!(slow_longest_trail(&g.adjacency, Bitboard::zeros()), 0);
}

#[test]
fn slow_longest_trail_of_a_star_is_two() {
    let g = geometry();
    let mut star = Bitboard::<u128>::zeros();
    // The three edges at the north corner of the center hex.
    star.add(g.edge_ids[&Edge(0, 0, NE)]);
    star.add(g.edge_ids[&Edge(0, 0, NW)]);
    star.add(g.edge_ids[&Edge(1, -1, W)]);
    assert_eq!(slow_longest_trail(&g.adjacency, star), 2);
}

#[test]
fn table_answers_match_the_slow_search() {
    let mut g = Game::new();
    let ring = sides(Hex(0, 0));
    let far = sides(Hex(-2, 2));
    let ids: Vec<usize> = ring[..3].iter().chain(&far[..2]).map(|&e| g.e(e)).collect();
    g.cover(&ids);
    let mut roads = Bitboard::<u128>::zeros();
    for &i in &ids {
        roads.add(i);
    }
    let whole = g.table.longest_trail(&g.geo.adjacency, roads, Bitboard::zeros());
    assert_eq!(whole, slow_longest_trail(&g.geo.adjacency, roads));
    assert_eq!(whole, 3);
    // More enemy buildings never give a longer answer.
    let mut one = Bitboard::<u64>::zeros();
    one.add(g.v(shared_end(ring[0], ring[1])));
    let mut two = one;
    two.add(g.v(shared_end(far[0], far[1])));
    let a1 = g.table.longest_trail(&g.geo.adjacency, roads, one);
    let a2 = g.table.longest_trail(&g.geo.adjacency, roads, two);
    assert!(a2 <= a1 && a1 <= whole);
    assert_eq!((a1, a2), (2, 2));
}

#[test]
fn enemy_building_blocks_trail() {
    let mut b = Game::new();
    for e in sides(Hex(0, 0)) {
        b.road(Blue, e);
    }
    // Two buildings at opposite corners of the ring of roads, one far away.
    for v in [Vertex(0, 0, N), Vertex(0, 0, S), Vertex(2, -2, S)] {
        b.sett(Orange, v);
    }
    let buildings = b.board.buildings(Orange);
    assert_eq!(b.table.longest_trail(&b.geo.adjacency, b.board.roads(Blue), buildings), 3);
}

#[test]
fn longest_trail_is_cut_by_enemy_buildings() {
    let mut g = Game::new();
    let path = [Edge(0, 0, NW), Edge(0, 0, NE), Edge(1, 0, W)];
    let ids: Vec<usize> = path.iter().map(|&e| g.e(e)).collect();
    g.cover(&ids);
    let mut roads = Bitboard::<u128>::zeros();
    for &i in &ids {
        roads.add(i);
    }
    assert_eq!(g.table.longest_trail(&g.geo.adjacency, roads, Bitboard::zeros()), 3);
    let mut enemy = Bitboard::<u64>::zeros();
    enemy.add(g.v(Vertex(0, 0, N)));
    assert_eq!(g.table.longest_trail(&g.geo.adjacency, roads, enemy), 2);
    assert_eq!(g.table.lookup(roads.value), 3);
}

// ---------------------------------------------------------------------------
// Bank

#[test]
fn bank_starts_full() {
    let bank = Bank::bank();
    assert_eq!(bank.resources, [19; 5]);
    assert_eq!(bank.dev_cards, [14, 5, 2, 2, 2]);
    assert_eq!(bank.purchasable_count(Blue, Purchasable::Road), 13);
    assert_eq!(bank.purchasable_count(White, Purchasable::City), 4);
    assert_eq!(bank.purchasable_count(Red, Purchasable::DevCard), 25);
    assert_eq!(bank.dev_card_weights(), vec![14, 5, 2, 2, 2]);
}

#[test]
fn taking_a_dev_card_lowers_its_count() {
    let mut bank = Bank::bank();
    bank.take_dev_card(DevCard::Monopoly);
    assert_eq!(bank.dev_cards, [14, 5, 2, 2, 1]);
    assert_eq!(bank.purchasable_count(Red, Purchasable::DevCard), 24);
}

// ---------------------------------------------------------------------------
// Game state

fn state() -> (State, Game) {
    let g = setup();
    (State::with_board(g.board.clone()), g)
}

fn apply_actions(s: &mut State, g: &mut Game, actions: Vec<Action>) {
    for action in actions {
        if let Action::BuildRoad(e) = action {
            let p = s.current_player();
            g.board = s.board.clone();
            g.cover_all(Some((p, e)));
        }
        s.apply_action(&g.table, action);
    }
}

fn set_hand(s: &mut State, p: Player, hand: [u8; 5]) {
    s.player_resources[p.into_usize()] = hand;
}

#[test]
fn state_lists_each_players_buildings() {
    let (s, _g) = state();
    let mut expected = String::new();
    for (i, name) in ["Blue", "Orange", "Red", "White"].iter().enumerate() {
        expected.push_str(&format!("{} Bitboard {:x}\n", name, s.board.player_buildings[i].value));
    }
    assert_eq!(s.render(), expected);
    assert!(s.render().starts_with("Blue Bitboard "));
    assert_eq!(s.render().lines().count(), 4);
}

#[test]
fn resource_discarding() {
    let (mut s, mut g) = state();
    set_hand(&mut s, Blue, [2, 2, 2, 2, 0]);
    set_hand(&mut s, Orange, [0, 0, 0, 5, 6]);
    set_hand(&mut s, Red, [2, 2, 0, 0, 0]);
    s.handle_dice_roll(7);
    let b = Action::DiscardResource(Brick);
    let gr = Action::DiscardResource(Grain);
    let o = Action::DiscardResource(Ore);

    // Blue discards 4, Orange 5, and Red 0; the first player with cards
    // left to discard goes first.
    apply_actions(&mut s, &mut g, vec![b, b, gr, gr, o, o, o, o, o]);

    // After everyone discards, current player must move the robber.
    let next_actions = s.get_actions(s.current_player()).0;
    assert_eq!(s.current_player(), s.whose_turn);
    assert!(next_actions.into_iter().all(|a| matches!(a, Action::MoveRobber(_))))
}

#[test]
fn stealing_requires_a_hand() {
    let (mut s, g) = state();
    s.handle_dice_roll(7);
    let hex = g.h(Hex(0, -1));
    // Red and White have buildings there but no cards: nobody to rob.
    s.move_robber(hex);
    assert!(matches!(s.phase, Phase::Normal));
}

#[test]
fn must_steal_after_moving_robber() {
    let (mut s, g) = state();
    set_hand(&mut s, Red, [1, 0, 0, 0, 0]);
    set_hand(&mut s, White, [0, 0, 0, 0, 1]);
    s.handle_dice_roll(7);

    // Move robber to hex with red & white settlements
    s.apply_action(&g.table, Action::MoveRobber(4));

    let actions = s.get_actions(s.current_player()).0;
    assert_eq!(actions.len(), 2);
    assert!(actions.contains(&Action::StealFrom(Red)));
    assert!(actions.contains(&Action::StealFrom(White)));
}

#[test]
fn skip_stealing_if_no_players_on_hex() {
    let (mut s, g) = state();
    // Move robber off desert
    s.board.move_robber(g.h(Hex(1, 0)));
    s.handle_dice_roll(7);

    // Move robber back onto desert
    s.apply_action(&g.table, Action::MoveRobber(g.h(Hex(0, 0))));

    let actions = s.get_actions(s.current_player()).0;
    // No steal actions
    assert!(!actions.into_iter().any(|a| matches!(a, Action::StealFrom(_))));
}

#[test]
fn skip_stealing_if_no_enemies_on_hex() {
    let (mut s, g) = state();

    s.handle_dice_roll(7);

    // Move robber to hex only settled by Blue
    s.apply_action(&g.table, Action::MoveRobber(g.h(Hex(0, 2))));
    let actions = s.get_actions(s.current_player()).0;
    // No steal actions
    assert!(!actions.into_iter().any(|a| matches!(a, Action::StealFrom(_))));
}

#[test]
fn cannot_steal_from_self() {
    let (mut s, g) = state();
    set_hand(&mut s, Blue, [1, 0, 0, 0, 0]);
    set_hand(&mut s, Orange, [1, 0, 0, 0, 0]);
    s.handle_dice_roll(7);

    // Move robber to hex settled by Blue and Orange
    s.apply_action(&g.table, Action::MoveRobber(g.h(Hex(0, 1))));
    let actions = s.get_actions(s.current_player()).0;
    // Can only steal from Orange
    assert_eq!(actions.len(), 1);
    assert_eq!(actions[0], Action::StealFrom(Orange));
}

#[test]
fn stealing_transfers_one_resource() {
    let (mut s, g) = state();
    let starting_blue = [2, 2, 2, 0, 0];
    let starting_red = [2, 2, 0, 0, 0];
    set_hand(&mut s, Blue, starting_blue);
    set_hand(&mut s, Red, starting_red);
    s.handle_dice_roll(7);
    s.apply_action(&g.table, Action::MoveRobber(4));

    // Blue steals from red: the card is drawn at random from red's hand.
    s.apply_action(&g.table, Action::StealFrom(Red));
    let (actions, weights) = s.get_actions(s.current_player());
    let drawn = pick_random_action(&actions, weights);
    s.apply_action(&g.table, drawn);

    // Blue gains 1, red loses 1. Stolen resource is Brick or Grain, since that's all red had.
    let red_total: u32 = s.player_resources[Red.into_usize()].iter().map(|&n| n as u32).sum();
    let red_start: u32 = starting_red.iter().map(|&n| n as u32).sum();
    assert_eq!(red_total, red_start - 1);
    let blue = s.player_resources[Blue.into_usize()];
    assert!(blue[Brick.into_usize()] == 3 || blue[Grain.into_usize()] == 3);
}

#[test]
fn stolen_card_is_drawn_by_weight_and_moves() {
    let (mut s, g) = state();
    let starting_red = [2, 2, 0, 0, 0];
    set_hand(&mut s, Blue, [2, 2, 2, 0, 0]);
    set_hand(&mut s, Red, starting_red);
    s.handle_dice_roll(7);
    s.apply_action(&g.table, Action::MoveRobber(4));
    s.apply_action(&g.table, Action::StealFrom(Red));
    assert!(s.is_random());
    let (actions, weights) = s.get_actions(s.current_player());
    assert_eq!(actions, vec![Action::StealResourceFrom(Red, Brick), Action::StealResourceFrom(Red, Grain)]);
    assert_eq!(weights, Some(vec![2, 2]));
    s.apply_action(&g.table, actions[1]);
    assert_eq!(s.player_resources[Red.into_usize()], [2, 1, 0, 0, 0]);
    assert_eq!(s.player_resources[Blue.into_usize()], [2, 3, 2, 0, 0]);
    assert!(matches!(s.phase, Phase::Normal));
}

#[test]
fn can_exchange_4_to_1() {
    let (mut s, _g) = state();
    s.phase = Phase::Normal;
    set_hand(&mut s, Blue, splat(4));
    let actions = s.get_actions(s.current_player()).0;
    assert!(actions.into_iter().any(|a| matches!(a, Action::ExchangeResources(((Brick, 4), _)))));
}

#[test]
fn can_exchange_3_to_1_with_generic_harbor() {
    let (mut s, mut g) = state();
    s.phase = Phase::Normal;
    set_hand(&mut s, Blue, splat(3));
    // Add generic harbor
    g.board = s.board.clone();
    g.sett(Blue, Vertex(0, -2, N));
    s.board = g.board.clone();
    let actions = s.get_actions(s.current_player()).0;
    assert!(actions.into_iter().any(|a| matches!(a, Action::ExchangeResources(((Brick, 3), _)))));
}

#[test]
fn can_exchange_2_to_1_with_resource_harbor() {
    let (mut s, mut g) = state();
    s.phase = Phase::Normal;
    set_hand(&mut s, Blue, splat(2));
    // Add grain harbor
    g.board = s.board.clone();
    g.sett(Blue, Vertex(2, -3, S));
    s.board = g.board.clone();
    let actions = s.get_actions(s.current_player()).0;
    assert!(actions.into_iter().any(|a| matches!(a, Action::ExchangeResources(((Grain, 2), _)))));
}

#[test]
fn bank_shortage_prevents_exchange() {
    let (mut s, _g) = state();
    s.phase = Phase::Normal;
    s.bank.resources = splat(0);
    set_hand(&mut s, Blue, splat(4));
    let actions = s.get_actions(s.current_player()).0;
    assert!(!actions.into_iter().any(|a| matches!(a, Action::ExchangeResources((_, _)))));
}

#[test]
fn exchange_resources() {
    let (mut s, g) = state();
    s.phase = Phase::Normal;
    set_hand(&mut s, Blue, splat(4));
    s.apply_action(&g.table, Action::ExchangeResources(((Brick, 4), Grain)));
    assert_eq!(s.player_resources[Blue.into_usize()][Brick.into_usize()], 0);
    assert_eq!(s.player_resources[Blue.into_usize()][Grain.into_usize()], 5);
    assert_eq!(s.bank.resources, [23, 18, 19, 19, 19]);
}

#[test]
fn can_build_road_in_normal_phase() {
    let (mut s, mut g) = state();
    s.phase = Phase::Normal;
    set_hand(&mut s, Blue, buy_cost(Purchasable::Road));
    let e = g.e(Edge(0, 1, NE));
    apply_actions(&mut s, &mut g, vec![Action::BuildRoad(e)]);
    assert_eq!(s.player_resources[Blue.into_usize()], splat(0));
    assert!(s.board.roads(Blue).contains(e));
}

#[test]
fn road_building_card_returns_to_normal_phase() {
    let (mut s, mut g) = state();
    s.phase = Phase::Normal;
    s.activate_dev_card(DevCard::RoadBuilding);
    let e1 = g.e(Edge(0, 1, NE));
    let e2 = g.e(Edge(0, 1, NW));
    apply_actions(&mut s, &mut g, vec![Action::BuildRoad(e1), Action::BuildRoad(e2)]);
    assert!(matches!(s.phase, Phase::Normal), "Phase should be Normal");
}

#[test]
fn must_build_roads_after_playing_road_building_card() {
    let (mut s, _g) = state();
    s.activate_dev_card(DevCard::RoadBuilding);
    let actions = s.get_actions(s.current_player()).0;
    assert!(
        actions.iter().all(|a| matches!(a, Action::BuildRoad(_))),
        "all available actions should be BuildRoad"
    );
    assert_eq!(actions.len(), 2);
}

#[test]
fn roads_from_road_building_card_are_free() {
    let (mut s, mut g) = state();
    let starting_resources = splat(5);
    set_hand(&mut s, Blue, starting_resources);
    s.activate_dev_card(DevCard::RoadBuilding);
    let e = g.e(Edge(0, 1, NE));
    apply_actions(&mut s, &mut g, vec![Action::BuildRoad(e)]);
    assert_eq!(
        s.player_resources[Blue.into_usize()],
        starting_resources,
        "resources should remain unchanged after building road"
    );
}

#[test]
fn skip_road_building_if_no_roads_available() {
    let (mut s, _g) = state();
    s.phase = Phase::Normal;
    let p = s.current_player();
    s.bank.buildings[p.into_usize()][Purchasable::Road.into_usize()] = 0;
    s.activate_dev_card(DevCard::RoadBuilding);
    assert!(matches!(s.phase, Phase::Normal));
}

#[test]
fn skip_road_building_if_no_road_slots_available() {
    let mut g = Game::new();
    let p = Blue;
    let p2 = p.next();

    // Surround p settlement with p2 roads
    g.sett(p, Vertex(0, 0, S));
    g.road(p2, Edge(-1, 1, NE));
    g.road(p2, Edge(0, 1, W));
    g.road(p2, Edge(0, 1, NW));

    let mut s = State::with_board(g.board.clone());
    s.phase = Phase::Normal;
    s.activate_dev_card(DevCard::RoadBuilding);

    assert!(s.board.available_roads(p).is_zeros());
    assert!(matches!(s.phase, Phase::Normal));
}

#[test]
fn must_move_robber_after_playing_knight() {
    let (mut s, _g) = state();
    s.activate_dev_card(DevCard::Knight);
    let actions = s.get_actions(s.current_player()).0;
    assert!(
        actions.iter().all(|a| matches!(a, Action::MoveRobber(_))),
        "all available actions should be MoveRobber"
    );
    assert_eq!(actions.len(), 18);
}

#[test]
fn first_with_size_3_army_gets_points() {
    let (mut s, _g) = state();
    s.activate_dev_card(DevCard::Knight);
    s.activate_dev_card(DevCard::Knight);
    let before = s.victory_points(Blue);
    s.activate_dev_card(DevCard::Knight);
    let after = s.victory_points(Blue);
    assert_eq!(after - before, 2);
}

#[test]
fn surpassing_army_leader_transfers_points() {
    let (mut s, _g) = state();
    s.army_leader = Some(Red);
    s.armies[Red.into_usize()] = 3;
    s.armies[Blue.into_usize()] = 3; // (Red got to 3 before Blue)
    let b_before = s.victory_points(Blue);
    let r_before = s.victory_points(Red);

    // Blue plays a knight
    s.activate_dev_card(DevCard::Knight);

    let b_after = s.victory_points(Blue);
    let r_after = s.victory_points(Red);
    assert_eq!(b_after - b_before, 2); // Up 2
    assert_eq!(r_before - r_after, 2); // Down 2
}

#[test]
fn must_monopolize_after_playing_monopoly() {
    let (mut s, _g) = state();
    s.activate_dev_card(DevCard::Monopoly);
    let actions = s.get_actions(s.current_player()).0;
    assert!(
        actions.iter().all(|a| matches!(a, Action::Monopolize(_))),
        "all available actions should be Monopolize"
    );
}

#[test]
fn monopolizing_transfers_all_resources_of_type() {
    let (mut s, g) = state();
    set_hand(&mut s, Blue, [2, 2, 2, 2, 0]);
    set_hand(&mut s, Orange, [0, 0, 0, 5, 6]);
    set_hand(&mut s, Red, [2, 2, 0, 0, 0]);
    set_hand(&mut s, White, [1, 2, 0, 0, 0]);
    s.activate_dev_card(DevCard::Monopoly);

    s.apply_action(&g.table, Action::Monopolize(Brick));

    assert_eq!(s.player_resources[Blue.into_usize()][Brick.into_usize()], 5);
    assert_eq!(s.player_resources[Orange.into_usize()][Brick.into_usize()], 0);
    assert_eq!(s.player_resources[Red.into_usize()][Brick.into_usize()], 0);
    assert_eq!(s.player_resources[White.into_usize()][Brick.into_usize()], 0);
}

#[test]
fn must_take_resources_after_playing_year_of_plenty() {
    let (mut s, _g) = state();
    s.activate_dev_card(DevCard::YearOfPlenty);
    let actions = s.get_actions(s.current_player()).0;
    assert!(
        actions.iter().all(|a| matches!(a, Action::TakeFreeResource(_))),
        "all available actions should be TakeResource"
    );
}

#[test]
fn take_resource_transfers_from_bank_to_player() {
    let (mut s, g) = state();
    set_hand(&mut s, Blue, splat(0));
    let bank_before = s.bank.resources[Brick.into_usize()];
    s.activate_dev_card(DevCard::YearOfPlenty);

    s.apply_action(&g.table, Action::TakeFreeResource(Brick));
    s.apply_action(&g.table, Action::TakeFreeResource(Brick));

    assert_eq!(s.player_resources[Blue.into_usize()][Brick.into_usize()], 2);
    assert_eq!(s.bank.resources[Brick.into_usize()], bank_before - 2);
    assert!(matches!(s.phase, Phase::Normal));
}

#[test]
fn newly_bought_dev_cards_are_not_playable() {
    let (mut s, g) = state();
    s.phase = Phase::Normal;
    set_hand(&mut s, Blue, splat(5));
    s.apply_action(&g.table, Action::BuyDevCard);
    assert!(s.is_random());
    let (draws, weights) = s.get_actions(s.current_player());
    assert_eq!(weights, Some(vec![14, 5, 2, 2, 2]));
    s.apply_action(&g.table, draws[0]);

    let actions = s.get_actions(s.current_player()).0;
    assert!(!actions.iter().any(|a| matches!(a, Action::PlayDevCard(_))));
}

#[test]
fn max_one_dev_card_played_per_turn() {
    let (mut s, g) = state();
    s.phase = Phase::Normal;
    s.dev_cards[Blue.into_usize()] = [2, 0, 0, 0, 0];
    let play_action = s
        .get_actions(s.current_player())
        .0
        .into_iter()
        .find(|a| matches!(a, Action::PlayDevCard(_)))
        .unwrap();
    s.apply_action(&g.table, play_action);
    s.apply_action(&g.table, Action::MoveRobber(0));
    let actions = s.get_actions(s.current_player()).0;
    assert!(!actions.iter().any(|a| matches!(a, Action::PlayDevCard(_))));
}

#[test]
fn rolling_pays_out_production() {
    let (mut s, g) = state();
    assert!(s.is_random());
    let (rolls, weights) = s.get_actions(Blue);
    assert_eq!(rolls.len(), 11);
    assert_eq!(weights, Some(vec![1, 2, 3, 4, 5, 6, 5, 4, 3, 2, 1]));
    s.apply_action(&g.table, Action::Roll(6));
    assert!(matches!(s.phase, Phase::Normal));
    assert_eq!(s.player_resources, [[0; 5], [0, 1, 0, 0, 0], [1, 0, 0, 0, 0], [1, 0, 0, 0, 0]]);
    assert_eq!(s.bank.resources, [17, 18, 19, 19, 19]);
}

#[test]
fn normal_turn_lists_end_turn_first() {
    let (mut s, _g) = state();
    s.phase = Phase::Normal;
    let actions = s.get_actions(Blue).0;
    assert_eq!(actions, vec![Action::EndTurn]);
    assert!(s.get_actions(Orange).0.is_empty());
}

#[test]
fn ending_the_turn_passes_to_the_next_player() {
    let (mut s, g) = state();
    s.phase = Phase::Normal;
    s.has_played_dev_card = true;
    s.locked_dev_cards = [true; 5];
    s.apply_action(&g.table, Action::EndTurn);
    assert_eq!(s.whose_turn, Orange);
    assert_eq!(s.current_player(), Orange);
    assert!(matches!(s.phase, Phase::Rolling));
    assert!(!s.has_played_dev_card);
    assert_eq!(s.locked_dev_cards, [false; 5]);
}

#[test]
fn building_a_settlement_costs_its_price() {
    let (mut s, mut g) = state();
    s.phase = Phase::Normal;
    set_hand(&mut s, Blue, [1, 1, 1, 0, 1]);
    let v = g.v(Vertex(1, 0, N));
    g.board = s.board.clone();
    g.cover_all(None);
    s.apply_action(&g.table, Action::BuildSettlement(v));
    assert_eq!(s.player_resources[Blue.into_usize()], splat(0));
    assert_eq!(s.bank.resources, [20, 20, 20, 19, 20]);
    assert_eq!(s.bank.buildings[Blue.into_usize()], [13, 4, 4, 0]);
    assert!(s.board.buildings(Blue).contains(v));
    assert_eq!(s.victory_points(Blue), 3);
}

#[test]
fn game_ends_at_ten_points() {
    let (mut s, _g) = state();
    assert!(!s.is_terminal());
    assert!(s.outcome(Blue).is_none());
    s.dev_cards[Blue.into_usize()][DevCard::VictoryPoint.into_usize()] = 8;
    assert!(s.is_terminal());
    assert!(matches!(s.outcome(Blue), Some(boardgames::common::Outcome::Win)));
    assert!(matches!(s.outcome(Red), Some(boardgames::common::Outcome::Loss)));
    assert!(matches!(s.pairwise_outcome(Red, White), Some(boardgames::common::Outcome::Draw)));
}

#[test]
fn observation_hides_other_hands() {
    let (mut s, _g) = state();
    set_hand(&mut s, Orange, [1, 2, 3, 0, 0]);
    let o = s.observe(Blue);
    assert_eq!(o.observer, Blue);
    assert_eq!(o.current_player, Blue);
    assert_eq!(o.hidden_hands.len(), 3);
    assert_eq!(o.hidden_hands[0].player, Orange);
    assert_eq!(o.hidden_hands[0].resources, 6);
    assert_eq!(o.buildings.len(), 8);
    assert_eq!(o.roads.len(), 8);
    assert_eq!(o.robber, 9);
}

#[test]
fn observation_does_not_show_how_a_hand_is_split() {
    let (mut s1, _g) = state();
    s1.phase = Phase::Normal;
    set_hand(&mut s1, Blue, [2, 2, 2, 2, 2]);
    set_hand(&mut s1, Orange, [1, 2, 3, 0, 0]);
    let mut s2 = s1.clone();
    set_hand(&mut s2, Orange, [0, 0, 0, 5, 1]);
    let (o1, o2) = (s1.observe(Blue), s2.observe(Blue));
    assert_eq!(o1.current_player, o2.current_player);
    assert_eq!(o1.is_terminal, o2.is_terminal);
    assert_eq!(o1.actions, o2.actions);
    assert_eq!(o1.observer_hand.resources, o2.observer_hand.resources);
    assert_eq!(o1.hidden_hands, o2.hidden_hands);
    assert_eq!(o1.buildings, o2.buildings);
    assert_eq!(o1.roads, o2.roads);
    // Orange sees the difference in its own hand.
    assert_ne!(s1.observe(Orange).observer_hand.resources, s2.observe(Orange).observer_hand.resources);
}

#[test]
fn stealing_at_random_takes_a_held_card() {
    let (mut s, _g) = state();
    set_hand(&mut s, Red, [0, 0, 3, 0, 0]);
    let got = s.steal_resource(Blue, Red);
    assert_eq!(got, Some(Lumber));
    assert_eq!(s.player_resources[Red.into_usize()], [0, 0, 2, 0, 0]);
    assert_eq!(s.player_resources[Blue.into_usize()], [0, 0, 1, 0, 0]);
    assert_eq!(s.steal_resource(Blue, White), None);
}

fn resource_totals(s: &State) -> [u32; 5] {
    let mut t = [0u32; 5];
    for k in 0..5 {
        t[k] = s.bank.resources[k] as u32 + (0..4).map(|p| s.player_resources[p][k] as u32).sum::<u32>();
    }
    t
}

#[test]
fn cards_are_neither_made_nor_lost() {
    let (mut s, mut g) = state();
    set_hand(&mut s, Blue, [2, 5, 2, 0, 1]);
    set_hand(&mut s, Orange, [0, 3, 0, 1, 0]);
    s.bank.resources = [17, 11, 17, 18, 18];
    s.dev_cards[Blue.into_usize()][DevCard::Monopoly.into_usize()] = 1;
    let before = resource_totals(&s);
    assert_eq!(before, [19; 5]);
    let v = g.v(Vertex(1, 0, N));
    g.board = s.board.clone();
    g.cover_all(None);
    let steps = vec![
        Action::Roll(6),
        Action::BuildSettlement(v),
        Action::ExchangeResources(((Grain, 4), Ore)),
        Action::PlayDevCard(DevCard::Monopoly),
        Action::Monopolize(Grain),
    ];
    for a in steps {
        s.apply_action(&g.table, a);
        assert_eq!(resource_totals(&s), before, "after {a:?}");
    }
    assert_eq!(s.player_resources[Orange.into_usize()][Grain.into_usize()], 0);
    assert_eq!(s.player_resources[Blue.into_usize()][Grain.into_usize()], 4);
}

#[test]
fn largest_army_goes_to_the_leader() {
    let (mut s, _g) = state();
    for _ in 0..3 {
        s.activate_dev_card(DevCard::Knight);
    }
    assert_eq!(s.army_leader, Some(Blue));
    s.whose_turn = Red;
    for _ in 0..3 {
        s.activate_dev_card(DevCard::Knight);
    }
    // A tie does not take the army away.
    assert_eq!(s.army_leader, Some(Blue));
    s.activate_dev_card(DevCard::Knight);
    assert_eq!(s.army_leader, Some(Red));
    assert_eq!(s.armies, [3, 0, 4, 0]);
}

#[test]
fn built_roads_leave_the_free_edges() {
    let mut b = setup();
    let e = b.e(Edge(1, -1, W));
    assert!(b.board.available_roads(Red).contains(e));
    b.road(Red, Edge(1, -1, W));
    for p in [Blue, Orange, Red, White] {
        assert!(!b.board.available_roads(p).contains(e));
    }
    assert!(!b.board.road_slots.contains(e));
}

#[test]
fn settlements_close_their_neighbours() {
    let mut b = Game::new();
    b.sett(Blue, Vertex(0, 0, N));
    for v in [Vertex(0, 0, N), Vertex(0, -1, S), Vertex(1, -1, S), Vertex(0, 1, N)] {
        let id = b.v(v);
        let closed = !b.board.settlement_slots.contains(id);
        assert_eq!(closed, v != Vertex(0, 1, N), "{v:?}");
    }
}
