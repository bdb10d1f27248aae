//! Longest trails of road networks: a lookup table keyed by connected road
//! graphs, and the search that splits a network into the graphs to look up.
use vstd::prelude::*;
use std::collections::{HashMap, HashSet, VecDeque};
use crate::adjacency::{Adjacency, below};
use crate::bitboard::{Bitboard, BitboardInt};
use crate::catan_common::{EdgeId, N_EDGES, N_VERTICES};

verus! {

broadcast use vstd::std_specs::hash::group_hash_axioms;

// ---------------------------------------------------------------------------
// Road components

/// Roads `a` and `b` continue each other: both are built, they are neighbours,
/// and no enemy building stands on the vertex they share.
pub open spec fn linked(adj: Adjacency, roads: Set<nat>, enemy: Set<nat>, a: nat, b: nat) -> bool {
    &&& roads.contains(a)
    &&& roads.contains(b)
    &&& adj.e2e(a).contains(b)
    &&& adj.e2v(a).intersect(adj.e2v(b)).disjoint(enemy)
}

/// A sequence of built roads, each linked to the next.
pub open spec fn is_road_path(adj: Adjacency, roads: Set<nat>, enemy: Set<nat>, p: Seq<nat>) -> bool {
    &&& p.len() >= 1
    &&& forall|i: int| 0 <= i < p.len() ==> roads.contains(#[trigger] p[i])
    &&& forall|i: int| 0 <= i < p.len() - 1 ==> #[trigger] linked(adj, roads, enemy, p[i], p[i + 1])
}

pub open spec fn connected(adj: Adjacency, roads: Set<nat>, enemy: Set<nat>, a: nat, b: nat) -> bool {
    exists|p: Seq<nat>| #[trigger] is_road_path(adj, roads, enemy, p) && p[0] == a && p.last() == b
}

/// The roads reachable from road `a`.
pub open spec fn component(adj: Adjacency, roads: Set<nat>, enemy: Set<nat>, a: nat) -> Set<nat> {
    Set::new(|b: nat| connected(adj, roads, enemy, a, b))
}

/// `s` holds every road linked to one of its roads.
pub open spec fn closed(adj: Adjacency, roads: Set<nat>, enemy: Set<nat>, s: Set<nat>) -> bool {
    forall|x: nat, y: nat| #[trigger] s.contains(x) && #[trigger] linked(adj, roads, enemy, x, y) ==> s.contains(y)
}

/// The `u128` whose set bits are `s`.
pub open spec fn value_of(s: Set<nat>) -> u128 {
    choose|v: u128| Bitboard { value: v }@ == s
}

proof fn lemma_value_of(b: Bitboard<u128>)
    ensures
        value_of(b@) == b.value,
{
    let v = value_of(b@);
    assert(Bitboard { value: b.value }@ == b@);
    assert(Bitboard { value: v }@ == b@);
    Bitboard::<u128>::lemma_view_injective(Bitboard { value: v }, b);
}

proof fn lemma_linked_symmetric(adj: Adjacency, roads: Set<nat>, enemy: Set<nat>, a: nat, b: nat)
    requires
        adj.wf(),
        roads.subset_of(below(N_EDGES as nat)),
        linked(adj, roads, enemy, a, b),
    ensures
        linked(adj, roads, enemy, b, a),
{
    assert(adj.e2e(b).contains(a));
    assert(adj.e2v(b).intersect(adj.e2v(a)) =~= adj.e2v(a).intersect(adj.e2v(b)));
}

proof fn lemma_single_path(adj: Adjacency, roads: Set<nat>, enemy: Set<nat>, a: nat)
    requires
        roads.contains(a),
    ensures
        connected(adj, roads, enemy, a, a),
{
    let p = seq![a];
    assert(is_road_path(adj, roads, enemy, p));
}

proof fn lemma_path_extend(adj: Adjacency, roads: Set<nat>, enemy: Set<nat>, r: nat, x: nat, y: nat)
    requires
        connected(adj, roads, enemy, r, x),
        linked(adj, roads, enemy, x, y),
    ensures
        connected(adj, roads, enemy, r, y),
{
    let p = choose|p: Seq<nat>| #[trigger] is_road_path(adj, roads, enemy, p) && p[0] == r && p.last() == x;
    let q = p.push(y);
    assert forall|i: int| 0 <= i < q.len() - 1 implies #[trigger] linked(adj, roads, enemy, q[i], q[i + 1]) by {
        if i < p.len() - 1 {
            assert(linked(adj, roads, enemy, p[i], p[i + 1]));
        }
    }
    assert(is_road_path(adj, roads, enemy, q));
}

proof fn lemma_path_reverse(adj: Adjacency, roads: Set<nat>, enemy: Set<nat>, a: nat, b: nat)
    requires
        adj.wf(),
        roads.subset_of(below(N_EDGES as nat)),
        connected(adj, roads, enemy, a, b),
    ensures
        connected(adj, roads, enemy, b, a),
{
    let p = choose|p: Seq<nat>| #[trigger] is_road_path(adj, roads, enemy, p) && p[0] == a && p.last() == b;
    let q = p.reverse();
    assert forall|i: int| 0 <= i < q.len() - 1 implies #[trigger] linked(adj, roads, enemy, q[i], q[i + 1]) by {
        let j = p.len() - 2 - i;
        assert(linked(adj, roads, enemy, p[j], p[j + 1]));
        lemma_linked_symmetric(adj, roads, enemy, p[j], p[j + 1]);
    }
    assert forall|i: int| 0 <= i < q.len() implies roads.contains(#[trigger] q[i]) by {
        assert(roads.contains(p[p.len() - 1 - i]));
    }
    assert(is_road_path(adj, roads, enemy, q));
}

/// A closed set that holds a road holds its whole component.
proof fn lemma_closed_holds_component(adj: Adjacency, roads: Set<nat>, enemy: Set<nat>, s: Set<nat>, r: nat)
    requires
        closed(adj, roads, enemy, s),
        s.contains(r),
    ensures
        component(adj, roads, enemy, r).subset_of(s),
{
    assert forall|b: nat| #[trigger] component(adj, roads, enemy, r).contains(b) implies s.contains(b) by {
        let p = choose|p: Seq<nat>| #[trigger] is_road_path(adj, roads, enemy, p) && p[0] == r && p.last() == b;
        lemma_path_in_closed(adj, roads, enemy, s, p, (p.len() - 1) as nat);
    }
}

proof fn lemma_path_in_closed(adj: Adjacency, roads: Set<nat>, enemy: Set<nat>, s: Set<nat>, p: Seq<nat>, k: nat)
    requires
        closed(adj, roads, enemy, s),
        is_road_path(adj, roads, enemy, p),
        s.contains(p[0]),
        k < p.len(),
    ensures
        s.contains(p[k as int]),
    decreases k,
{
    if k > 0 {
        lemma_path_in_closed(adj, roads, enemy, s, p, (k - 1) as nat);
        let i = k - 1;
        assert(linked(adj, roads, enemy, p[i], p[i + 1]));
    }
}

/// A component is closed, and it is the component of each of its roads.
proof fn lemma_component_facts(adj: Adjacency, roads: Set<nat>, enemy: Set<nat>, r: nat)
    requires
        adj.wf(),
        roads.subset_of(below(N_EDGES as nat)),
    ensures
        closed(adj, roads, enemy, component(adj, roads, enemy, r)),
        forall|a: nat| #[trigger] component(adj, roads, enemy, r).contains(a) ==> component(adj, roads, enemy, a) == component(adj, roads, enemy, r),
{
    let c = component(adj, roads, enemy, r);
    assert forall|x: nat, y: nat| #[trigger] c.contains(x) && #[trigger] linked(adj, roads, enemy, x, y) implies c.contains(y) by {
        lemma_path_extend(adj, roads, enemy, r, x, y);
    }
    assert forall|a: nat| #[trigger] c.contains(a) implies component(adj, roads, enemy, a) == c by {
        let ca = component(adj, roads, enemy, a);
        assert forall|x: nat, y: nat| #[trigger] ca.contains(x) && #[trigger] linked(adj, roads, enemy, x, y) implies ca.contains(y) by {
            lemma_path_extend(adj, roads, enemy, a, x, y);
        }
        lemma_closed_holds_component(adj, roads, enemy, c, a);
        lemma_path_reverse(adj, roads, enemy, r, a);
        lemma_closed_holds_component(adj, roads, enemy, ca, r);
        assert(ca =~= c);
    }
}

// ---------------------------------------------------------------------------
// The lookup table

/// The longest trail of every connected road graph, keyed by the graph's bits.
pub struct RoadTrailTable {
    pub map: HashMap<u128, u8>,
}

/// The largest table entry over the components of the roads in `s`, or 0.
pub open spec fn best_of(table: Map<u128, u8>, adj: Adjacency, roads: Set<nat>, enemy: Set<nat>, s: Set<nat>, best: u8) -> bool {
    &&& forall|a: nat| #[trigger] s.contains(a) ==> table[value_of(component(adj, roads, enemy, a))] <= best
    &&& s == Set::<nat>::empty() ==> best == 0
    &&& s != Set::<nat>::empty() ==> exists|a: nat| #[trigger] s.contains(a) && table[value_of(component(adj, roads, enemy, a))] == best
}

/// `n` is the length of the longest trail of `roads`: some trail has `n` roads
/// (or `n` is zero), and none has more.
pub open spec fn is_longest_trail(adj: Adjacency, roads: Set<nat>, n: nat) -> bool {
    &&& n == 0 || has_trail(adj, roads, n)
    &&& forall|k: nat| k > n ==> !#[trigger] has_trail(adj, roads, k)
}

/// The table knows the longest trail of every road component of at most 15 roads.
pub open spec fn table_complete(table: Map<u128, u8>, adj: Adjacency) -> bool {
    forall|roads: Set<nat>, enemy: Set<nat>, a: nat|
        roads.subset_of(below(N_EDGES as nat)) && roads.finite() && roads.len() <= 15
            && #[trigger] roads.contains(a) && enemy.subset_of(below(N_VERTICES as nat))
            ==> table.contains_key(#[trigger] value_of(component(adj, roads, enemy, a)))
}

/// Every entry of the table is the longest trail of the road graph whose bits
/// are its key.
pub open spec fn table_sound(table: Map<u128, u8>, adj: Adjacency) -> bool {
    forall|g: u128| #[trigger] table.contains_key(g) ==> is_longest_trail(adj, Bitboard::<u128> { value: g }@, table[g] as nat)
}

/// The words below `n`.
pub open spec fn word_range(n: nat) -> Set<u128> {
    Set::new(|x: u128| (x as nat) < n)
}

proof fn lemma_word_range(n: nat)
    requires
        n <= u128::MAX + 1,
    ensures
        word_range(n).finite(),
        word_range(n).len() == n,
    decreases n,
{
    if n == 0 {
        assert(word_range(0) =~= Set::<u128>::empty());
    } else {
        let m = (n - 1) as nat;
        lemma_word_range(m);
        assert(word_range(n) =~= word_range(m).insert(m as u128));
    }
}

/// A word whose set bits all lie among the edges is below 2^72.
proof fn lemma_graph_value_bound(b: Bitboard<u128>)
    requires
        b@.subset_of(below(N_EDGES as nat)),
    ensures
        (b.value as nat) < 0x1000000000000000000nat,
{
    let v = b.value;
    if v >= 0x1000000000000000000u128 {
        let w = v >> 72u128;
        assert(w != 0u128 && w < 0x100000000000000u128) by (bit_vector)
            requires
                v >= 0x1000000000000000000u128,
                w == v >> 72u128,
        ;
        let z = 0u128;
        if forall|i: nat| i < 128 ==> w.bit(i) == z.bit(i) {
            <u128 as BitboardInt>::lemma_bits_ext(w, z);
        }
        let i = choose|i: nat| i < 128 && w.bit(i) != z.bit(i);
        let j = i as u128;
        assert(!((0u128 >> j) & 1u128 == 1u128)) by (bit_vector);
        assert((w >> j) & 1u128 == 1u128);
        assert(j < 56u128 && (v >> (72u128 + j)) & 1u128 == 1u128) by (bit_vector)
            requires
                w == v >> 72u128,
                (w >> j) & 1u128 == 1u128,
                j < 128u128,
                w < 0x100000000000000u128,
        ;
        assert(v.bit((72 + i) as nat));
        assert(b@.contains((72 + i) as nat));
    }
}

/// Every set of indices below 128 is the set of bits of some word.
proof fn lemma_set_has_value(s: Set<nat>)
    requires
        s.finite(),
        s.subset_of(below(128)),
    ensures
        (Bitboard::<u128> { value: value_of(s) })@ == s,
    decreases s.len(),
{
    if s.len() == 0 {
        let z = Bitboard::<u128> { value: 0 };
        assert forall|i: nat| !z@.contains(i) by {
            if i < 128 {
                let j = i as u128;
                assert(!((0u128 >> j) & 1u128 == 1u128)) by (bit_vector);
            }
        }
        assert(z@ =~= s);
    } else {
        let x = s.choose();
        let rest = s.remove(x);
        lemma_set_has_value(rest);
        let w = value_of(rest);
        let xv = x as u128;
        let v = w | (1u128 << xv);
        assert forall|i: nat| i < 128 implies (v.bit(i) == (w.bit(i) || i == x)) by {
            let j = i as u128;
            assert((((w | (1u128 << xv)) >> j) & 1u128 == 1u128) == (((w >> j) & 1u128 == 1u128) || j == xv)) by (bit_vector)
                requires
                    j < 128u128,
                    xv < 128u128,
            ;
        }
        let b = Bitboard::<u128> { value: v };
        assert(b@ =~= s);
    }
}

/// With a table whose entries are true longest trails, the value that
/// [`RoadTrailTable::longest_trail`] returns is the longest trail of one
/// component of the roads (zero without roads), and no component has a
/// longer trail.
pub proof fn lemma_sound_table_gives_longest(
    table: Map<u128, u8>,
    adj: Adjacency,
    roads: Set<nat>,
    enemy: Set<nat>,
    best: u8,
)
    requires
        adj.wf(),
        roads.subset_of(below(N_EDGES as nat)),
        table_sound(table, adj),
        forall|a: nat| #[trigger] roads.contains(a) ==> table.contains_key(value_of(component(adj, roads, enemy, a))),
        best_of(table, adj, roads, enemy, roads, best),
    ensures
        forall|a: nat, k: nat| #[trigger] roads.contains(a) && k > best ==> !#[trigger] has_trail(adj, component(adj, roads, enemy, a), k),
        roads == Set::<nat>::empty() ==> best == 0,
        roads != Set::<nat>::empty() ==> exists|a: nat| #[trigger] roads.contains(a) && is_longest_trail(adj, component(adj, roads, enemy, a), best as nat),
{
    assert forall|a: nat| #[trigger] roads.contains(a) implies Bitboard::<u128> { value: value_of(component(adj, roads, enemy, a)) }@ == component(adj, roads, enemy, a) by {
        let c = component(adj, roads, enemy, a);
        lemma_component_facts(adj, roads, enemy, a);
        assert(c.subset_of(roads)) by {
            assert forall|b: nat| c.contains(b) implies roads.contains(b) by {
                let p = choose|p: Seq<nat>| #[trigger] is_road_path(adj, roads, enemy, p) && p[0] == a && p.last() == b;
                assert(roads.contains(p[p.len() - 1]));
            }
        }
        lemma_below_finite(N_EDGES as nat);
        vstd::set_lib::lemma_len_subset(roads, below(N_EDGES as nat));
        vstd::set_lib::lemma_len_subset(c, roads);
        lemma_set_has_value(c);
    }
    assert forall|a: nat, k: nat| #[trigger] roads.contains(a) && k > best implies !#[trigger] has_trail(adj, component(adj, roads, enemy, a), k) by {
        let c = component(adj, roads, enemy, a);
        assert(table.contains_key(value_of(c)));
        assert(table[value_of(c)] <= best);
    }
    if roads != Set::<nat>::empty() {
        let a = choose|a: nat| #[trigger] roads.contains(a) && table[value_of(component(adj, roads, enemy, a))] == best;
        assert(table.contains_key(value_of(component(adj, roads, enemy, a))));
    }
}

/// A road network has one longest trail length.
pub proof fn lemma_longest_trail_unique(adj: Adjacency, roads: Set<nat>, n: nat, m: nat)
    requires
        is_longest_trail(adj, roads, n),
        is_longest_trail(adj, roads, m),
    ensures
        n == m,
{
    if n < m {
        assert(has_trail(adj, roads, m));
    }
    if m < n {
        assert(has_trail(adj, roads, n));
    }
}

/// Every entry of a sound table is what [`slow_longest_trail`] finds for the
/// graph of its key.
pub proof fn lemma_sound_entry_is_slow_longest(table: Map<u128, u8>, adj: Adjacency, g: u128, n: nat)
    requires
        table_sound(table, adj),
        table.contains_key(g),
        is_longest_trail(adj, bits_of(g), n),
    ensures
        table[g] == n,
{
    lemma_longest_trail_unique(adj, bits_of(g), table[g] as nat, n);
}

/// A trail over some roads is a trail over any roads that include them.
proof fn lemma_trail_in_more_roads(adj: Adjacency, small: Set<nat>, big: Set<nat>, k: nat)
    requires
        small.subset_of(big),
        has_trail(adj, small, k),
    ensures
        has_trail(adj, big, k),
{
    let (es, vs) = choose|es: Seq<nat>, vs: Seq<nat>| #[trigger] is_trail(adj, small, es, vs) && es.len() == k;
    let e = choose|e: nat| #[trigger] small.contains(e) && adj.e2v(e).contains(vs[0]);
    assert(touched(adj, big).contains(vs[0])) by {
        assert(big.contains(e));
    }
    assert(is_trail(adj, big, es, vs));
}

/// Each component among more enemy buildings lies inside the component
/// among fewer.
proof fn lemma_component_shrinks(adj: Adjacency, roads: Set<nat>, e1: Set<nat>, e2: Set<nat>, a: nat)
    requires
        e1.subset_of(e2),
    ensures
        component(adj, roads, e2, a).subset_of(component(adj, roads, e1, a)),
{
    assert forall|b: nat| component(adj, roads, e2, a).contains(b) implies component(adj, roads, e1, a).contains(b) by {
        let p = choose|p: Seq<nat>| #[trigger] is_road_path(adj, roads, e2, p) && p[0] == a && p.last() == b;
        assert forall|i: int| 0 <= i < p.len() - 1 implies #[trigger] linked(adj, roads, e1, p[i], p[i + 1]) by {
            assert(linked(adj, roads, e2, p[i], p[i + 1]));
        }
        assert(is_road_path(adj, roads, e1, p));
    }
}

/// More enemy buildings never make the longest road longer: with a sound
/// table that holds the components, the answer among enemy buildings `e2` is
/// at most the answer among fewer buildings `e1`.
pub proof fn lemma_longest_trail_monotone(
    table: Map<u128, u8>,
    adj: Adjacency,
    roads: Set<nat>,
    e1: Set<nat>,
    e2: Set<nat>,
    b1: u8,
    b2: u8,
)
    requires
        adj.wf(),
        roads.subset_of(below(N_EDGES as nat)),
        table_sound(table, adj),
        e1.subset_of(e2),
        forall|a: nat| #[trigger] roads.contains(a) ==> table.contains_key(value_of(component(adj, roads, e1, a))),
        forall|a: nat| #[trigger] roads.contains(a) ==> table.contains_key(value_of(component(adj, roads, e2, a))),
        best_of(table, adj, roads, e1, roads, b1),
        best_of(table, adj, roads, e2, roads, b2),
    ensures
        b2 <= b1,
{
    lemma_sound_table_gives_longest(table, adj, roads, e1, b1);
    lemma_sound_table_gives_longest(table, adj, roads, e2, b2);
    if roads != Set::<nat>::empty() && b2 > b1 {
        let a = choose|a: nat| #[trigger] roads.contains(a) && is_longest_trail(adj, component(adj, roads, e2, a), b2 as nat);
        lemma_component_shrinks(adj, roads, e1, e2, a);
        lemma_trail_in_more_roads(adj, component(adj, roads, e2, a), component(adj, roads, e1, a), b2 as nat);
        assert(!has_trail(adj, component(adj, roads, e1, a), b2 as nat));
    }
}

/// Edges that share an end are neighbours, as on a Catan board.
pub open spec fn neighbours_share_ends(adj: Adjacency) -> bool {
    forall|a: nat, b: nat|
        a < N_EDGES && b < N_EDGES && a != b && !(#[trigger] adj.e2v(a)).disjoint(#[trigger] adj.e2v(b)) ==> adj.e2e(a).contains(b)
}

proof fn lemma_trail_in_component(adj: Adjacency, roads: Set<nat>, es: Seq<nat>, vs: Seq<nat>, i: int)
    requires
        neighbours_share_ends(adj),
        roads.subset_of(below(N_EDGES as nat)),
        is_trail(adj, roads, es, vs),
        0 <= i < es.len(),
    ensures
        component(adj, roads, Set::<nat>::empty(), es[0]).contains(es[i]),
    decreases i,
{
    let none = Set::<nat>::empty();
    if i == 0 {
        assert(roads.contains(es[0]));
        lemma_single_path(adj, roads, none, es[0]);
    } else {
        lemma_trail_in_component(adj, roads, es, vs, i - 1);
        let x = es[i - 1];
        let y = es[i];
        assert(roads.contains(x) && roads.contains(y));
        assert(adj.e2v(x).contains(vs[i]));
        assert(adj.e2v(y).contains(vs[i]));
        assert(x != y);
        assert(!adj.e2v(x).disjoint(adj.e2v(y)));
        assert(adj.e2e(x).contains(y));
        assert(adj.e2v(x).intersect(adj.e2v(y)).disjoint(none));
        assert(linked(adj, roads, none, x, y));
        lemma_path_extend(adj, roads, none, es[0], x, y);
    }
}

/// Without enemy buildings, a sound table that holds the components gives the
/// longest trail of the whole network (so the number that
/// [`slow_longest_trail`] finds for it), on a board where edges that share an
/// end are neighbours.
pub proof fn lemma_table_gives_network_longest(table: Map<u128, u8>, adj: Adjacency, roads: Set<nat>, best: u8)
    requires
        adj.wf(),
        neighbours_share_ends(adj),
        roads.subset_of(below(N_EDGES as nat)),
        table_sound(table, adj),
        forall|a: nat| #[trigger] roads.contains(a) ==> table.contains_key(value_of(component(adj, roads, Set::<nat>::empty(), a))),
        best_of(table, adj, roads, Set::<nat>::empty(), roads, best),
    ensures
        is_longest_trail(adj, roads, best as nat),
{
    let none = Set::<nat>::empty();
    lemma_sound_table_gives_longest(table, adj, roads, none, best);
    if roads != none && best > 0 {
        let a = choose|a: nat| #[trigger] roads.contains(a) && is_longest_trail(adj, component(adj, roads, none, a), best as nat);
        lemma_component_in_roads(adj, roads, none, a);
        lemma_trail_in_more_roads(adj, component(adj, roads, none, a), roads, best as nat);
    }
    assert forall|k: nat| k > best implies !#[trigger] has_trail(adj, roads, k) by {
        if has_trail(adj, roads, k) {
            let (es, vs) = choose|es: Seq<nat>, vs: Seq<nat>| #[trigger] is_trail(adj, roads, es, vs) && es.len() == k;
            let c = component(adj, roads, none, es[0]);
            assert forall|i: int| 0 <= i < es.len() implies c.contains(#[trigger] es[i]) by {
                lemma_trail_in_component(adj, roads, es, vs, i);
            }
            assert(adj.e2v(es[0]).contains(vs[0]));
            assert(c.contains(es[0]));
            assert(touched(adj, c).contains(vs[0]));
            assert(is_trail(adj, c, es, vs));
            assert(has_trail(adj, c, k));
            assert(roads.contains(es[0]));
        }
    }
}

proof fn lemma_below_finite(n: nat)
    ensures
        below(n).finite(),
{
    crate::bitboard::lemma_nat_range(n);
    assert(below(n) =~= crate::bitboard::nat_range(n));
}

impl RoadTrailTable {
    /// Finds the longest trail of every road graph that a [`RoadGraphIterator`]
    /// meets, with [`slow_longest_trail`], and keeps them by the graphs' bits:
    /// every component of every network of at most 15 roads is there, with its
    /// longest trail, and the keys are exactly the connected networks of at
    /// most 15 roads.
    pub fn generate(adj: &Adjacency) -> (r: RoadTrailTable)
        requires
            adj.wf(),
            sparse(*adj),
        ensures
            table_sound(r.map@, *adj),
            table_complete(r.map@, *adj),
            forall|g: u128| #[trigger] r.map@.contains_key(g) <==> road_graph(*adj, g),
    {
        let mut map: HashMap<u128, u8> = HashMap::new();
        let mut graphs = RoadGraphIterator::new(adj);
        let ghost bound: nat = 0x1000000000000000000nat;
        proof {
            lemma_word_range(bound);
            assert(map@ =~= Map::<u128, u8>::empty());
            assert(map@.dom() =~= graphs.produced());
        }
        loop
            invariant
                adj.wf(),
                graphs.wf(),
                graphs.adjacency() == *adj,
                table_sound(map@, *adj),
                bound == 0x1000000000000000000nat,
                word_range(bound).finite(),
                word_range(bound).len() == bound,
                graphs.produced().finite(),
                graphs.produced().subset_of(word_range(bound)),
                graphs.produced() == map@.dom(),
            ensures
                graphs.produced().contains(0u128),
                forall|g: u128| #[trigger] graphs.produced().contains(g) <==> road_graph(*adj, g),
                closed_under_growth(*adj, graphs.produced()),
                graphs.produced().subset_of(map@.dom()),
                table_sound(map@, *adj),
            decreases bound - graphs.produced().len(),
        {
            proof {
                vstd::set_lib::lemma_len_subset(graphs.produced(), word_range(bound));
            }
            let ghost before = graphs.produced();
            match graphs.next() {
                None => break,
                Some(g) => {
                    proof {
                        lemma_graph_value_bound(g);
                        vstd::set_lib::lemma_len_subset(graphs.produced(), word_range(bound));
                    }
                    let n = slow_longest_trail(adj, g);
                    map.insert(g.value, n);
                    proof {
                        assert(Bitboard::<u128> { value: g.value } == g);
                        assert(graphs.produced().len() == before.len() + 1);
                        assert(map@.dom() =~= graphs.produced());
                    }
                },
            }
        }
        proof {
            assert forall|roads: Set<nat>, enemy: Set<nat>, a: nat|
                roads.subset_of(below(N_EDGES as nat)) && roads.finite() && roads.len() <= 15
                    && #[trigger] roads.contains(a) && enemy.subset_of(below(N_VERTICES as nat))
                    implies map@.contains_key(#[trigger] value_of(component(*adj, roads, enemy, a))) by {
                lemma_closed_holds_every_component(*adj, graphs.produced(), roads, enemy, a);
            }
        }
        RoadTrailTable { map }
    }

    pub fn lookup(&self, graph: u128) -> (r: u8)
        requires
            self.map@.contains_key(graph),
        ensures
            r == self.map@[graph],
    {
        match self.map.get(&graph) {
            Some(v) => *v,
            None => {
                proof {
                    assert(false);
                }
                0
            },
        }
    }

    /// The longest trail of a player's roads: roads are split into components
    /// wherever an enemy building stands between them, and the longest trail of
    /// each component is looked up.
    pub fn longest_trail(&self, adj: &Adjacency, roads: Bitboard<u128>, enemy_buildings: Bitboard<u64>) -> (r: u8)
        requires
            adj.wf(),
            roads@.subset_of(below(N_EDGES as nat)),
            forall|a: nat| #[trigger] roads@.contains(a) ==> self.map@.contains_key(
                value_of(component(*adj, roads@, enemy_buildings@, a)),
            ),
        ensures
            best_of(self.map@, *adj, roads@, enemy_buildings@, roads@, r),
    {
        let ghost rs = roads@;
        let ghost en = enemy_buildings@;
        let ghost a = *adj;
        let mut longest: u8 = 0;
        let mut visited: Bitboard<u128> = Bitboard::zeros();
        proof {
            roads.lemma_view_finite();
            assert(best_of(self.map@, a, rs, en, visited@, longest));
        }
        while !visited.equals(&roads)
            invariant
                adj.wf(),
                a == *adj,
                rs == roads@,
                en == enemy_buildings@,
                rs.subset_of(below(N_EDGES as nat)),
                rs.finite(),
                forall|x: nat| #[trigger] rs.contains(x) ==> self.map@.contains_key(value_of(component(a, rs, en, x))),
                visited@.subset_of(rs),
                closed(a, rs, en, visited@),
                best_of(self.map@, a, rs, en, visited@, longest),
            decreases rs.len() - visited@.len(),
        {
            let ghost old_visited = visited@;
            let mut unvisited = roads.and(visited.not());
            let root = match unvisited.next() {
                Some(e) => e,
                None => {
                    proof {
                        assert forall|x: nat| rs.contains(x) implies visited@.contains(x) by {
                            if !visited@.contains(x) {
                                assert(x < N_EDGES);
                                assert(Bitboard::<u128>::full().contains(x));
                                assert(unvisited@.contains(x));
                            }
                        }
                        assert(visited@ =~= rs);
                    }
                    0
                },
            };
            let mut component_bb: Bitboard<u128> = Bitboard::zeros();
            let mut queue: VecDeque<EdgeId> = VecDeque::new();
            visited.add(root);
            component_bb.add(root);
            queue.push_back(root);
            proof {
                lemma_single_path(a, rs, en, root as nat);
                assert(queue@ =~= seq![root]);
                assert(component_bb@ =~= Set::<nat>::empty().insert(root as nat));
                assert(queue@[0] == root);
                assert(queue@.contains(root));
            }
            loop
                invariant
                    adj.wf(),
                    a == *adj,
                    rs == roads@,
                    en == enemy_buildings@,
                    rs.subset_of(below(N_EDGES as nat)),
                    rs.finite(),
                    old_visited.subset_of(rs),
                    closed(a, rs, en, old_visited),
                    rs.contains(root as nat),
                    !old_visited.contains(root as nat),
                    component_bb@.contains(root as nat),
                    visited@ == old_visited.union(component_bb@),
                    old_visited.disjoint(component_bb@),
                    forall|x: nat| #[trigger] component_bb@.contains(x) ==> connected(a, rs, en, root as nat, x),
                    component_bb@.subset_of(rs),
                    queue@.no_duplicates(),
                    forall|i: int| 0 <= i < queue@.len() ==> component_bb@.contains(#[trigger] queue@[i] as nat),
                    forall|x: usize, y: nat| #[trigger] component_bb@.contains(x as nat) && !queue@.contains(x) && #[trigger] linked(a, rs, en, x as nat, y) ==> component_bb@.contains(y),
                ensures
                    queue@.len() == 0,
                decreases 2 * (rs.len() - visited@.len()) + queue@.len(),
            {
                proof {
                    visited.lemma_view_finite();
                    vstd::set_lib::lemma_len_subset(visited@, rs);
                }
                let ghost queue_before_pop = queue@;
                let edge = match queue.pop_front() {
                    None => break,
                    Some(e) => e,
                };
                let ghost comp_start = component_bb@;
                proof {
                    assert(queue_before_pop[0] == edge);
                    assert(component_bb@.contains(queue_before_pop[0] as nat));
                    assert(!queue@.contains(edge)) by {
                        if queue@.contains(edge) {
                            let j = choose|j: int| 0 <= j < queue@.len() && queue@[j] == edge;
                            assert(queue_before_pop[j + 1] == edge);
                        }
                    }
                    assert forall|x: usize| x != edge && !#[trigger] queue@.contains(x) implies !queue_before_pop.contains(x) by {
                        if queue_before_pop.contains(x) {
                            let j = choose|j: int| 0 <= j < queue_before_pop.len() && queue_before_pop[j] == x;
                            if j > 0 {
                                assert(queue@[j - 1] == x);
                            }
                        }
                    }
                }
                let mut candidates = adj.edge_to_edges[edge].and(roads).and(visited.not());
                let ghost cands0 = candidates@;
                let ghost m0 = 2 * (rs.len() - visited@.len()) + queue@.len();
                proof {
                    visited.lemma_view_finite();
                    vstd::set_lib::lemma_len_subset(visited@, rs);
                    assert(cands0 =~= a.e2e(edge as nat).intersect(rs).difference(old_visited.union(comp_start)));
                }
                loop
                    invariant
                        adj.wf(),
                        a == *adj,
                        rs == roads@,
                        en == enemy_buildings@,
                        rs.subset_of(below(N_EDGES as nat)),
                        rs.finite(),
                        old_visited.subset_of(rs),
                        closed(a, rs, en, old_visited),
                        !old_visited.contains(root as nat),
                        component_bb@.contains(root as nat),
                        comp_start.contains(edge as nat),
                        !queue@.contains(edge),
                        edge < N_EDGES,
                        cands0 == a.e2e(edge as nat).intersect(rs).difference(old_visited.union(comp_start)),
                        candidates@.subset_of(cands0),
                        comp_start.subset_of(component_bb@),
                        component_bb@.subset_of(comp_start.union(cands0)),
                        visited@ == old_visited.union(component_bb@),
                        old_visited.disjoint(component_bb@),
                        candidates@.disjoint(component_bb@),
                        forall|x: nat| #[trigger] component_bb@.contains(x) ==> connected(a, rs, en, root as nat, x),
                        component_bb@.subset_of(rs),
                        queue@.no_duplicates(),
                        forall|i: int| 0 <= i < queue@.len() ==> component_bb@.contains(#[trigger] queue@[i] as nat),
                        forall|x: usize, y: nat| #[trigger] component_bb@.contains(x as nat) && x != edge && !queue@.contains(x) && #[trigger] linked(a, rs, en, x as nat, y) ==> component_bb@.contains(y),
                        forall|y: nat| #[trigger] cands0.contains(y) && !candidates@.contains(y) && linked(a, rs, en, edge as nat, y) ==> component_bb@.contains(y),
                        visited@.finite(),
                        visited@.subset_of(rs),
                        visited@.len() <= rs.len(),
                        2 * (rs.len() - visited@.len()) + queue@.len() <= m0,
                    ensures
                        candidates@ == Set::<nat>::empty(),
                    decreases candidates@.len(),
                {
                    proof {
                        candidates.lemma_view_finite();
                    }
                    let ghost cands_before = candidates@;
                    let neighbor = match candidates.next() {
                        None => break,
                        Some(n) => n,
                    };
                    proof {
                        assert(cands0.contains(neighbor as nat));
                        assert(a.e2e(edge as nat).contains(neighbor as nat));
                        assert(neighbor < N_EDGES);
                    }
                    let common = adj.edge_to_verts[edge].and(adj.edge_to_verts[neighbor]);
                    let blocked = common.and(enemy_buildings);
                    if blocked.is_zeros() {
                        proof {
                            assert(common@.intersect(en) =~= blocked@);
                            assert(comp_start.subset_of(rs));
                            assert(rs.contains(edge as nat));
                            assert(rs.contains(neighbor as nat));
                            assert(common@ == a.e2v(edge as nat).intersect(a.e2v(neighbor as nat)));
                            assert forall|w: nat| common@.contains(w) implies !en.contains(w) by {
                                if en.contains(w) {
                                    assert(blocked@.contains(w));
                                }
                            }
                            assert(a.e2v(edge as nat).intersect(a.e2v(neighbor as nat)).disjoint(en));
                            assert(linked(a, rs, en, edge as nat, neighbor as nat));
                            lemma_path_extend(a, rs, en, root as nat, edge as nat, neighbor as nat);
                            assert(!queue@.contains(neighbor)) by {
                                if queue@.contains(neighbor) {
                                    let j = choose|j: int| 0 <= j < queue@.len() && queue@[j] == neighbor;
                                    assert(component_bb@.contains(queue@[j] as nat));
                                }
                            }
                        }
                        let ghost old_q = queue@;
                        let ghost old_comp = component_bb@;
                        visited.add(neighbor);
                        component_bb.add(neighbor);
                        queue.push_back(neighbor);
                        proof {
                            visited.lemma_view_finite();
                            vstd::set_lib::lemma_len_subset(visited@, rs);
                            assert forall|x: usize| old_q.contains(x) implies queue@.contains(x) by {
                                let j = choose|j: int| 0 <= j < old_q.len() && old_q[j] == x;
                                assert(queue@[j] == x);
                            }
                            assert(queue@[queue@.len() - 1] == neighbor);
                            assert forall|x: usize, y: nat| #[trigger] component_bb@.contains(x as nat) && x != edge && !queue@.contains(x) && #[trigger] linked(a, rs, en, x as nat, y) implies component_bb@.contains(y) by {
                                if x != neighbor {
                                    assert(old_comp.contains(x as nat));
                                    assert(!old_q.contains(x));
                                    assert(old_comp.contains(y));
                                }
                            }
                            assert forall|i: int| 0 <= i < queue@.len() implies component_bb@.contains(#[trigger] queue@[i] as nat) by {
                                if i < queue@.len() - 1 {
                                    assert(queue@[i] == queue@.drop_last()[i]);
                                }
                            }
                        }
                    } else {
                        proof {
                            if linked(a, rs, en, edge as nat, neighbor as nat) {
                                assert(blocked@ =~= Set::<nat>::empty());
                            }
                        }
                    }
                }
                proof {
                    assert(candidates@ == Set::<nat>::empty());
                    assert forall|y: nat| linked(a, rs, en, edge as nat, y) implies #[trigger] component_bb@.contains(y) by {
                        if old_visited.contains(y) {
                            lemma_linked_symmetric(a, rs, en, edge as nat, y);
                            assert(old_visited.contains(edge as nat));
                        } else if !comp_start.contains(y) {
                            assert(cands0.contains(y));
                        }
                    }
                }
            }
            proof {
                // The queue is empty: the component is closed, so it is the whole component.
                let c = component(a, rs, en, root as nat);
                assert(queue@.len() == 0);
                assert(closed(a, rs, en, component_bb@));
                lemma_closed_holds_component(a, rs, en, component_bb@, root as nat);
                assert(component_bb@ =~= c);
                lemma_component_facts(a, rs, en, root as nat);
                lemma_value_of(component_bb);
            }
            proof {
                visited.lemma_view_finite();
                vstd::set_lib::lemma_len_subset(old_visited.insert(root as nat), visited@);
                vstd::set_lib::lemma_len_subset(visited@, rs);
            }
            let found = self.lookup(component_bb.value);
            let ghost old_longest = longest;
            if found > longest {
                longest = found;
            }
            proof {
                let c = component(a, rs, en, root as nat);
                assert(closed(a, rs, en, visited@)) by {
                    assert forall|x: nat, y: nat| #[trigger] visited@.contains(x) && #[trigger] linked(a, rs, en, x, y) implies visited@.contains(y) by {
                        if old_visited.contains(x) {
                        } else {
                            assert(c.contains(x));
                        }
                    }
                }
                assert forall|x: nat| #[trigger] visited@.contains(x) implies self.map@[value_of(component(a, rs, en, x))] <= longest by {
                    if !old_visited.contains(x) {
                        assert(component(a, rs, en, x) == c);
                    }
                }
                if longest == found {
                    assert(visited@.contains(root as nat));
                    assert(component(a, rs, en, root as nat) == c);
                } else {
                    assert(old_visited != Set::<nat>::empty()) by {
                        if old_visited == Set::<nat>::empty() {
                            assert(old_longest == 0);
                        }
                    }
                    let w = choose|w: nat| #[trigger] old_visited.contains(w) && self.map@[value_of(component(a, rs, en, w))] == old_longest;
                    assert(visited@.contains(w));
                }
                assert(visited@ != Set::<nat>::empty()) by {
                    assert(visited@.contains(root as nat));
                }
            }
        }
        proof {
            assert(visited@ == roads@);
        }
        longest
    }
}


// ---------------------------------------------------------------------------
// Enumerating road graphs

/// A road network and the edges where it may grow.
#[derive(Debug, Clone, Copy)]
pub struct RoadBoard {
    pub road_slots: Bitboard<u128>,
    pub roads: Bitboard<u128>,
}

impl RoadBoard {
    /// Builds a road on `edge_id` and opens its neighbours as slots. The first
    /// road replaces the initial slots (every edge) by its neighbours.
    pub fn add_road(&mut self, edge_id: EdgeId, neighbors: Bitboard<u128>)
        requires
            edge_id < 128,
        ensures
            final(self).roads@ == old(self).roads@.insert(edge_id as nat),
            final(self).road_slots@ == (if old(self).road_slots@.len() == 72 {
                Set::<nat>::empty()
            } else {
                old(self).road_slots@
            }).union(neighbors@).remove(edge_id as nat),
    {
        self.roads.add(edge_id);
        if self.road_slots.count_ones() == 72 {
            self.road_slots = Bitboard::zeros();
        }
        self.road_slots.or_assign(neighbors);
        self.road_slots.remove(edge_id);
    }
}

/// Every connected road graph of at most 15 roads, met in breadth-first order
/// from the empty graph.
pub struct RoadGraphIterator<'a> {
    adjacency: &'a Adjacency,
    unique: HashSet<u128>,
    queue: VecDeque<RoadBoard>,
    yielded: Ghost<Set<u128>>,
}

/// The largest number of roads a graph may have.
pub const MAX_ROADS: u32 = 15;

impl<'a> RoadGraphIterator<'a> {
    /// The graphs produced so far.
    pub closed spec fn produced(&self) -> Set<u128> {
        self.yielded@
    }

    pub closed spec fn adjacency(&self) -> Adjacency {
        *self.adjacency
    }

    /// The graphs still to be produced.
    pub closed spec fn pending(&self) -> Seq<Bitboard<u128>> {
        self.queue@.map_values(|b: RoadBoard| b.roads)
    }

    /// Each graph met so far is produced or queued, and each graph produced
    /// with fewer than 15 roads has had every graph one road larger met.
    closed spec fn tracks_growth(&self) -> bool {
        &&& forall|g: u128|
            #[trigger] self.unique@.contains(g) ==> self.yielded@.contains(g) || exists|i: int|
                0 <= i < self.queue@.len() && (#[trigger] self.queue@[i]).roads.value == g
        &&& self.yielded@.contains(0u128) || exists|i: int| 0 <= i < self.queue@.len() && (#[trigger] self.queue@[i]).roads.value == 0
        &&& forall|g: u128, x: nat|
            #[trigger] self.yielded@.contains(g) && bits_of(g).len() < MAX_ROADS && #[trigger] grows_by(*self.adjacency, bits_of(g), x)
                ==> self.unique@.contains(value_of(bits_of(g).insert(x)))
    }

    pub closed spec fn wf(&self) -> bool {
        &&& self.adjacency.wf()
        &&& sparse(*self.adjacency)
        &&& forall|i: int| 0 <= i < self.queue@.len() ==> {
            let b = #[trigger] self.queue@[i];
            &&& b.road_slots@.subset_of(below(N_EDGES as nat))
            &&& b.roads@.subset_of(below(N_EDGES as nat))
            &&& b.roads@.len() <= MAX_ROADS
            &&& b.roads.value != 0 ==> self.unique@.contains(b.roads.value)
            &&& !self.yielded@.contains(b.roads.value)
            &&& slots_ok(*self.adjacency, b)
            &&& buildable(*self.adjacency, b.roads@)
        }
        &&& forall|i: int, j: int| 0 <= i < j < self.queue@.len() ==> self.queue@[i].roads.value != self.queue@[j].roads.value
        &&& forall|g: u128| #[trigger] self.yielded@.contains(g) && g != 0 ==> self.unique@.contains(g)
        &&& forall|g: u128| #[trigger] self.yielded@.contains(g) ==> road_graph(*self.adjacency, g)
        &&& self.tracks_growth()
    }

    pub fn new(adjacency: &'a Adjacency) -> (r: RoadGraphIterator<'a>)
        requires
            adjacency.wf(),
            sparse(*adjacency),
        ensures
            r.wf(),
            r.adjacency() == *adjacency,
            r.produced() == Set::<u128>::empty(),
            r.pending().len() == 1,
            r.pending()[0]@ == Set::<nat>::empty(),
    {
        let unique: HashSet<u128> = HashSet::new();
        let mut queue: VecDeque<RoadBoard> = VecDeque::new();
        let v = !0u128 >> 56u128;
        let root = RoadBoard { road_slots: Bitboard { value: v }, roads: Bitboard::zeros() };
        proof {
            assert forall|i: nat| root.road_slots@.contains(i) <==> i < N_EDGES by {
                if i < 128 {
                    let j = i as u128;
                    assert((v >> j) & 1u128 == 1u128 <==> j < 72) by (bit_vector)
                        requires
                            v == !0u128 >> 56u128,
                            j < 128,
                    ;
                }
            }
            assert(root.road_slots@ =~= below(N_EDGES as nat));
            root.roads.lemma_view_finite();
            assert(root.roads@.len() == 0);
            assert(root.roads@ =~= Set::<nat>::empty());
            lemma_zero_value(root.roads);
        }
        queue.push_front(root);
        let r = RoadGraphIterator { adjacency, unique, queue, yielded: Ghost(Set::empty()) };
        proof {
            assert(r.queue@ =~= seq![root]);
            assert(r.queue@[0].roads.value == 0);
            assert(buildable(*adjacency, root.roads@)) by {
                let q = Seq::<nat>::empty();
                assert(q.to_set() =~= root.roads@);
                assert(lays_in_order(*adjacency, q));
            }
            assert(r.tracks_growth());
        }
        r
    }

    /// The next graph, if any is left. Graphs with fewer than 15 roads are
    /// grown by one road on each of their slots, and each new graph is queued
    /// once. Each graph produced is a connected network of at most 15 roads,
    /// and once none is left, the graphs produced are exactly those networks.
    pub fn next(&mut self) -> (r: Option<Bitboard<u128>>)
        requires
            old(self).wf(),
        ensures
            final(self).wf(),
            final(self).adjacency() == old(self).adjacency(),
            r is None <==> old(self).pending().len() == 0,
            r is None ==> final(self).produced() == old(self).produced(),
            r is None ==> final(self).produced().contains(0u128) && closed_under_growth(
                final(self).adjacency(),
                final(self).produced(),
            ),
            r is None ==> forall|g: u128| #[trigger] final(self).produced().contains(g) <==> road_graph(final(self).adjacency(), g),
            r matches Some(g) ==> {
                &&& g == old(self).pending().last()
                &&& !old(self).produced().contains(g.value)
                &&& final(self).produced() == old(self).produced().insert(g.value)
                &&& g@.len() <= MAX_ROADS
                &&& g@.subset_of(below(N_EDGES as nat))
                &&& road_graph(final(self).adjacency(), g.value)
            },
    {
        let ghost old_queue = self.queue@;
        match self.queue.pop_back() {
            None => {
                proof {
                    assert(self.pending() =~= old(self).pending());
                    assert(self.queue@.len() == 0);
                    assert(self.yielded@.contains(0u128));
                    assert forall|g: u128, x: nat|
                        #[trigger] self.yielded@.contains(g) && bits_of(g).len() < MAX_ROADS && #[trigger] grows_by(
                            *self.adjacency,
                            bits_of(g),
                            x,
                        ) implies self.yielded@.contains(value_of(bits_of(g).insert(x))) by {
                        assert(self.unique@.contains(value_of(bits_of(g).insert(x))));
                    }
                    lemma_closed_holds_every_road_graph(*self.adjacency, self.yielded@);
                }
                None
            },
            Some(b) => {
                let ghost rest = self.queue@;
                proof {
                    assert(b == old_queue[old_queue.len() - 1]);
                    assert(rest =~= old_queue.drop_last());
                    b.roads.lemma_view_finite();
                    assert(slots_ok(*self.adjacency, old_queue[old_queue.len() - 1]));
                    assert forall|g: u128| #[trigger] self.unique@.contains(g) implies self.yielded@.contains(g) || g
                        == b.roads.value || exists|i: int| 0 <= i < self.queue@.len() && (#[trigger] self.queue@[i]).roads.value
                        == g by {
                        if !self.yielded@.contains(g) && g != b.roads.value {
                            let i = choose|i: int| 0 <= i < old_queue.len() && (#[trigger] old_queue[i]).roads.value == g;
                            assert(i < old_queue.len() - 1);
                            assert(self.queue@[i] == old_queue[i]);
                        }
                    }
                    if !self.yielded@.contains(0u128) && b.roads.value != 0 {
                        let i = choose|i: int| 0 <= i < old_queue.len() && (#[trigger] old_queue[i]).roads.value == 0;
                        assert(i < old_queue.len() - 1);
                        assert(self.queue@[i] == old_queue[i]);
                    }
                }
                let ghost start_unique = self.unique@;
                if b.roads.count_ones() < MAX_ROADS {
                    let mut slots = b.road_slots;
                    loop
                        invariant
                            self.adjacency.wf(),
                            sparse(*self.adjacency),
                            self.adjacency == old(self).adjacency,
                            self.yielded == old(self).yielded,
                            b == old_queue[old_queue.len() - 1],
                            old_queue.len() > 0,
                            b.roads@.len() < MAX_ROADS,
                            b.roads@.subset_of(below(N_EDGES as nat)),
                            b.roads@.finite(),
                            b.road_slots@.subset_of(below(N_EDGES as nat)),
                            slots_ok(*self.adjacency, b),
                            !self.yielded@.contains(b.roads.value),
                            b.roads.value != 0 ==> self.unique@.contains(b.roads.value),
                            slots@.subset_of(b.road_slots@),
                            start_unique.subset_of(self.unique@),
                            forall|i: int| 0 <= i < self.queue@.len() ==> {
                                let q = #[trigger] self.queue@[i];
                                &&& q.road_slots@.subset_of(below(N_EDGES as nat))
                                &&& q.roads@.subset_of(below(N_EDGES as nat))
                                &&& q.roads@.len() <= MAX_ROADS
                                &&& q.roads.value != 0 ==> self.unique@.contains(q.roads.value)
                                &&& !self.yielded@.contains(q.roads.value)
                                &&& q.roads.value != b.roads.value
                                &&& slots_ok(*self.adjacency, q)
                                &&& buildable(*self.adjacency, q.roads@)
                            },
                            buildable(*self.adjacency, b.roads@),
                            forall|g: u128| #[trigger] self.yielded@.contains(g) ==> road_graph(*self.adjacency, g),
                            forall|i: int, j: int| 0 <= i < j < self.queue@.len() ==> self.queue@[i].roads.value != self.queue@[j].roads.value,
                            forall|g: u128| #[trigger] self.yielded@.contains(g) && g != 0 ==> self.unique@.contains(g),
                            forall|x: nat|
                                #[trigger] b.road_slots@.contains(x) && !slots@.contains(x) ==> self.unique@.contains(
                                    value_of(b.roads@.insert(x)),
                                ),
                            forall|g: u128|
                                #[trigger] self.unique@.contains(g) ==> self.yielded@.contains(g) || g == b.roads.value || exists|i: int|
                                    0 <= i < self.queue@.len() && (#[trigger] self.queue@[i]).roads.value == g,
                            self.yielded@.contains(0u128) || b.roads.value == 0 || exists|i: int|
                                0 <= i < self.queue@.len() && (#[trigger] self.queue@[i]).roads.value == 0,
                        ensures
                            slots@ == Set::<nat>::empty(),
                        decreases slots@.len(),
                    {
                        proof {
                            slots.lemma_view_finite();
                        }
                        let next_edge = match slots.next() {
                            None => break,
                            Some(e) => e,
                        };
                        let mut next_b = b;
                        next_b.add_road(next_edge, self.adjacency.edge_to_edges[next_edge]);
                        proof {
                            assert(next_b.roads@.contains(next_edge as nat));
                            lemma_nonzero_value(next_b.roads, next_edge as nat);
                            lemma_value_of(next_b.roads);
                            assert(self.adjacency.e2e(next_edge as nat).subset_of(below(N_EDGES as nat)));
                            vstd::set_lib::lemma_set_insert_finite_iff(b.roads@, next_edge as nat);
                            lemma_grown_slots(*self.adjacency, b, next_edge as nat, next_b);
                        }
                        let ghost before = self.queue@;
                        let ghost unique_before = self.unique@;
                        if !self.unique.insert(next_b.roads.value) {
                            proof {
                                assert(self.unique@ =~= unique_before);
                                assert(self.queue@ == before);
                                assert forall|g: u128| #[trigger] self.unique@.contains(g) implies self.yielded@.contains(g) || g
                                    == b.roads.value || exists|i: int| 0 <= i < self.queue@.len() && (#[trigger] self.queue@[i]).roads.value
                                    == g by {
                                    if !self.yielded@.contains(g) && g != b.roads.value {
                                        let i = choose|i: int| 0 <= i < before.len() && (#[trigger] before[i]).roads.value == g;
                                        assert(self.queue@[i] == before[i]);
                                    }
                                }
                                if !self.yielded@.contains(0u128) && b.roads.value != 0 {
                                    let i = choose|i: int| 0 <= i < before.len() && (#[trigger] before[i]).roads.value == 0;
                                    assert(self.queue@[i] == before[i]);
                                }
                            }
                            continue;
                        }
                        self.queue.push_front(next_b);
                        proof {
                            assert(!unique_before.contains(next_b.roads.value));
                            assert(self.queue@ =~= seq![next_b] + before);
                            assert forall|i: int| 0 <= i < self.queue@.len() implies {
                                let q = #[trigger] self.queue@[i];
                                &&& q.road_slots@.subset_of(below(N_EDGES as nat))
                                &&& q.roads@.subset_of(below(N_EDGES as nat))
                                &&& q.roads@.len() <= MAX_ROADS
                                &&& q.roads.value != 0 ==> self.unique@.contains(q.roads.value)
                                &&& !self.yielded@.contains(q.roads.value)
                                &&& q.roads.value != b.roads.value
                                &&& slots_ok(*self.adjacency, q)
                                &&& buildable(*self.adjacency, q.roads@)
                            } by {
                                if i > 0 {
                                    assert(self.queue@[i] == before[i - 1]);
                                } else {
                                    assert(next_b.roads@ == b.roads@.insert(next_edge as nat));
                                    assert(b.road_slots@.contains(next_edge as nat));
                                    lemma_buildable_grows(*self.adjacency, b.roads@, next_edge as nat);
                                    vstd::set_lib::lemma_len_subset(next_b.roads@, b.roads@.insert(next_edge as nat));
                                    if next_b.roads.value == b.roads.value {
                                        Bitboard::<u128>::lemma_view_injective(next_b.roads, b.roads);
                                        assert(!b.roads@.contains(next_edge as nat)) by {
                                            assert(!next_b.road_slots@.contains(next_edge as nat));
                                        }
                                    }
                                }
                            }
                            assert forall|i: int, j: int| 0 <= i < j < self.queue@.len() implies self.queue@[i].roads.value != self.queue@[j].roads.value by {
                                if i == 0 {
                                    assert(unique_before.contains(before[j - 1].roads.value) || before[j - 1].roads.value == 0);
                                } else {
                                    assert(self.queue@[i] == before[i - 1]);
                                    assert(self.queue@[j] == before[j - 1]);
                                }
                            }
                            assert forall|g: u128| #[trigger] self.unique@.contains(g) implies self.yielded@.contains(g) || g
                                == b.roads.value || exists|i: int| 0 <= i < self.queue@.len() && (#[trigger] self.queue@[i]).roads.value
                                == g by {
                                if g == next_b.roads.value {
                                    assert(self.queue@[0].roads.value == g);
                                } else if !self.yielded@.contains(g) && g != b.roads.value {
                                    assert(unique_before.contains(g));
                                    let i = choose|i: int| 0 <= i < before.len() && (#[trigger] before[i]).roads.value == g;
                                    assert(self.queue@[i + 1] == before[i]);
                                }
                            }
                            if !self.yielded@.contains(0u128) && b.roads.value != 0 {
                                let i = choose|i: int| 0 <= i < before.len() && (#[trigger] before[i]).roads.value == 0;
                                assert(self.queue@[i + 1] == before[i]);
                            }
                        }
                    }
                    proof {
                        assert forall|x: nat| #[trigger] grows_by(*self.adjacency, b.roads@, x) implies self.unique@.contains(
                            value_of(b.roads@.insert(x)),
                        ) by {
                            assert(b.road_slots@.contains(x));
                        }
                    }
                }
                let ghost pre = self.queue@;
                proof {
                    assert(Bitboard::<u128> { value: b.roads.value } == b.roads);
                    assert(bits_of(b.roads.value) == b.roads@);
                    assert(road_graph(*self.adjacency, b.roads.value)) by {
                        assert(old(self).queue@[old_queue.len() - 1] == b);
                    }
                    let ghost yielded_before = self.yielded@;
                    self.yielded@ = self.yielded@.insert(b.roads.value);
                    b.roads.lemma_view_finite();
                    assert(self.queue@ == pre);
                    assert forall|g: u128| #[trigger] self.unique@.contains(g) implies self.yielded@.contains(g) || exists|i: int|
                        0 <= i < self.queue@.len() && (#[trigger] self.queue@[i]).roads.value == g by {
                        if !self.yielded@.contains(g) {
                            assert(!yielded_before.contains(g) && g != b.roads.value);
                            let i = choose|i: int| 0 <= i < pre.len() && (#[trigger] pre[i]).roads.value == g;
                            assert(self.queue@[i] == pre[i]);
                        }
                    }
                    if !self.yielded@.contains(0u128) {
                        let i = choose|i: int| 0 <= i < pre.len() && (#[trigger] pre[i]).roads.value == 0;
                        assert(self.queue@[i] == pre[i]);
                    }
                    assert forall|g: u128, x: nat|
                        #[trigger] self.yielded@.contains(g) && bits_of(g).len() < MAX_ROADS && #[trigger] grows_by(
                            *self.adjacency,
                            bits_of(g),
                            x,
                        ) implies self.unique@.contains(value_of(bits_of(g).insert(x))) by {
                        if g == b.roads.value {
                            assert(grows_by(*self.adjacency, b.roads@, x));
                        } else {
                            assert(yielded_before.contains(g));
                        }
                    }
                    assert(self.tracks_growth());
                }
                let r = Some(b.roads);
                proof {
                    assert(old(self).pending().last() == b.roads);
                }
                r
            },
        }
    }
}

// ---------------------------------------------------------------------------
// Every road graph is met

/// The road graph held by the bits of `g`.
pub open spec fn bits_of(g: u128) -> Set<nat> {
    Bitboard::<u128> { value: g }@
}

/// The edges next to some road of `roads` that are not roads themselves.
pub open spec fn frontier(adj: Adjacency, roads: Set<nat>) -> Set<nat> {
    Set::new(|x: nat| x < N_EDGES && !roads.contains(x) && exists|e: nat| roads.contains(e) && #[trigger] adj.e2e(e).contains(x))
}

/// `roads` can grow by the road `x`: any edge when there are no roads yet,
/// and otherwise an edge next to them.
pub open spec fn grows_by(adj: Adjacency, roads: Set<nat>, x: nat) -> bool {
    if roads == Set::<nat>::empty() {
        x < N_EDGES
    } else {
        frontier(adj, roads).contains(x)
    }
}

/// Every graph of `ys` with fewer than 15 roads has each graph one road
/// larger in `ys` too.
pub open spec fn closed_under_growth(adj: Adjacency, ys: Set<u128>) -> bool {
    forall|g: u128, x: nat|
        #[trigger] ys.contains(g) && bits_of(g).len() < MAX_ROADS && #[trigger] grows_by(adj, bits_of(g), x) ==> ys.contains(
            value_of(bits_of(g).insert(x)),
        )
}

/// The road at position `i` of `q` is laid next to a road laid before it.
pub open spec fn laid_next_to(adj: Adjacency, q: Seq<nat>, i: int) -> bool {
    exists|j: int| 0 <= j < i && #[trigger] adj.e2e(q[j]).contains(q[i])
}

/// `q` lays its roads one at a time, each after the first next to one laid
/// before it.
pub open spec fn lays_in_order(adj: Adjacency, q: Seq<nat>) -> bool {
    forall|i: int| 0 < i < q.len() ==> #[trigger] laid_next_to(adj, q, i)
}

/// `roads` is a connected network: its roads can be laid one at a time, each
/// after the first next to one laid before it.
pub open spec fn buildable(adj: Adjacency, roads: Set<nat>) -> bool {
    exists|q: Seq<nat>| lays_in_order(adj, q) && #[trigger] q.to_set() == roads
}

/// The bits of `g` hold a connected network of at most 15 roads on the edges
/// of the board.
pub open spec fn road_graph(adj: Adjacency, g: u128) -> bool {
    &&& bits_of(g).subset_of(below(N_EDGES as nat))
    &&& bits_of(g).len() <= MAX_ROADS
    &&& buildable(adj, bits_of(g))
}

proof fn lemma_buildable_grows(adj: Adjacency, roads: Set<nat>, x: nat)
    requires
        buildable(adj, roads),
        roads == Set::<nat>::empty() || reach(adj, roads).contains(x),
    ensures
        buildable(adj, roads.insert(x)),
{
    let q = choose|q: Seq<nat>| lays_in_order(adj, q) && #[trigger] q.to_set() == roads;
    let q2 = q.push(x);
    assert(q2.to_set() =~= roads.insert(x)) by {
        assert forall|y: nat| roads.insert(x).contains(y) implies q2.to_set().contains(y) by {
            if y == x {
                assert(q2[q.len() as int] == x);
            } else {
                let k = choose|k: int| 0 <= k < q.len() && q[k] == y;
                assert(q2[k] == y);
            }
        }
        assert forall|y: nat| q2.to_set().contains(y) implies roads.insert(x).contains(y) by {
            let k = choose|k: int| 0 <= k < q2.len() && q2[k] == y;
            if k < q.len() {
                assert(q[k] == y);
            }
        }
    }
    assert forall|i: int| 0 < i < q2.len() implies #[trigger] laid_next_to(adj, q2, i) by {
        if i < q.len() {
            assert(laid_next_to(adj, q, i));
            let j = choose|j: int| 0 <= j < i && #[trigger] adj.e2e(q[j]).contains(q[i]);
            assert(q2[j] == q[j] && q2[i] == q[i]);
            assert(adj.e2e(q2[j]).contains(q2[i]));
        } else {
            assert(q.len() > 0);
            assert(roads != Set::<nat>::empty()) by {
                assert(q.to_set().contains(q[0]));
            }
            let e = choose|e: nat| roads.contains(e) && #[trigger] adj.e2e(e).contains(x);
            let j = choose|j: int| 0 <= j < q.len() && q[j] == e;
            assert(q2[j] == e && q2[i] == x);
            assert(adj.e2e(q2[j]).contains(q2[i]));
        }
    }
    assert(lays_in_order(adj, q2));
}

proof fn lemma_empty_value()
    ensures
        value_of(Set::<nat>::empty()) == 0,
        bits_of(0) == Set::<nat>::empty(),
{
    lemma_set_has_value(Set::<nat>::empty());
    lemma_zero_value(Bitboard::<u128> { value: value_of(Set::<nat>::empty()) });
    lemma_value_of(Bitboard::<u128> { value: 0 });
    lemma_set_has_value(Set::<nat>::empty());
}

/// A set of graphs holding the empty graph and closed under growth holds
/// every network that `q` lays, up to 15 roads.
proof fn lemma_closed_holds_laid(adj: Adjacency, ys: Set<u128>, q: Seq<nat>)
    requires
        ys.contains(0u128),
        closed_under_growth(adj, ys),
        lays_in_order(adj, q),
        q.to_set().subset_of(below(N_EDGES as nat)),
        q.to_set().len() <= MAX_ROADS,
    ensures
        ys.contains(value_of(q.to_set())),
    decreases q.len(),
{
    broadcast use vstd::seq_lib::seq_to_set_is_finite;
    if q.len() == 0 {
        assert(q.to_set() =~= Set::<nat>::empty());
        lemma_empty_value();
    } else {
        let p = q.drop_last();
        let x = q.last();
        assert forall|i: int| 0 < i < p.len() implies #[trigger] laid_next_to(adj, p, i) by {
            assert(laid_next_to(adj, q, i));
            let j = choose|j: int| 0 <= j < i && #[trigger] adj.e2e(q[j]).contains(q[i]);
            assert(p[j] == q[j] && p[i] == q[i]);
            assert(adj.e2e(p[j]).contains(p[i]));
        }
        let ps = p.to_set();
        assert(q.to_set() =~= ps.insert(x)) by {
            assert forall|y: nat| q.to_set().contains(y) implies ps.insert(x).contains(y) by {
                let k = choose|k: int| 0 <= k < q.len() && q[k] == y;
                if k < p.len() {
                    assert(p[k] == y);
                }
            }
            assert forall|y: nat| ps.contains(y) implies q.to_set().contains(y) by {
                let k = choose|k: int| 0 <= k < p.len() && p[k] == y;
                assert(q[k] == y);
            }
            assert(q[q.len() - 1] == x);
        }
        vstd::set_lib::lemma_len_subset(ps, q.to_set());
        assert(q.to_set().contains(x)) by {
            assert(q[q.len() - 1] == x);
        }
        assert(ps.subset_of(below(128))) by {
            assert forall|y: nat| ps.contains(y) implies below(128).contains(y) by {
                assert(q.to_set().contains(y));
                assert(below(N_EDGES as nat).contains(y));
            }
        }
        lemma_closed_holds_laid(adj, ys, p);
        let g = value_of(ps);
        lemma_set_has_value(ps);
        assert(bits_of(g) == ps);
        if !ps.contains(x) {
            assert(ps.len() < MAX_ROADS);
            assert(below(N_EDGES as nat).contains(x));
            if ps != Set::<nat>::empty() {
                assert(p.len() > 0) by {
                    if p.len() == 0 {
                        assert(ps =~= Set::<nat>::empty());
                    }
                }
                let i = q.len() - 1;
                assert(laid_next_to(adj, q, i));
                let j = choose|j: int| 0 <= j < i && #[trigger] adj.e2e(q[j]).contains(q[i]);
                assert(p[j] == q[j]);
                assert(ps.contains(q[j]));
                assert(frontier(adj, ps).contains(x));
            }
            assert(grows_by(adj, bits_of(g), x));
        } else {
            assert(ps.insert(x) =~= ps);
        }
    }
}

/// A set of graphs that holds only networks of at most 15 roads, holds the
/// empty graph and is closed under growth holds exactly those networks.
pub proof fn lemma_closed_holds_every_road_graph(adj: Adjacency, ys: Set<u128>)
    requires
        ys.contains(0u128),
        closed_under_growth(adj, ys),
        forall|g: u128| #[trigger] ys.contains(g) ==> road_graph(adj, g),
    ensures
        forall|g: u128| #[trigger] ys.contains(g) <==> road_graph(adj, g),
{
    assert forall|g: u128| road_graph(adj, g) implies #[trigger] ys.contains(g) by {
        let q = choose|q: Seq<nat>| lays_in_order(adj, q) && #[trigger] q.to_set() == bits_of(g);
        lemma_closed_holds_laid(adj, ys, q);
        lemma_value_of(Bitboard::<u128> { value: g });
    }
}

/// Every edge has at most five neighbours, itself included, as on a Catan
/// board.
pub open spec fn sparse(adj: Adjacency) -> bool {
    forall|e: nat| e < N_EDGES ==> #[trigger] adj.e2e(e).len() <= 5
}

/// The neighbours of the roads of `roads`.
pub open spec fn reach(adj: Adjacency, roads: Set<nat>) -> Set<nat> {
    Set::new(|x: nat| exists|e: nat| roads.contains(e) && #[trigger] adj.e2e(e).contains(x))
}

/// The slots of a road network under enumeration: every edge while there are
/// no roads, and otherwise the edges next to the roads, among them every
/// such edge that is not a road yet.
pub open spec fn slots_ok(adj: Adjacency, b: RoadBoard) -> bool {
    if b.roads@ == Set::<nat>::empty() {
        b.road_slots@ == below(N_EDGES as nat)
    } else {
        frontier(adj, b.roads@).subset_of(b.road_slots@) && b.road_slots@.subset_of(reach(adj, b.roads@))
    }
}

proof fn lemma_reach_len(adj: Adjacency, roads: Set<nat>)
    requires
        adj.wf(),
        sparse(adj),
        roads.finite(),
        roads.subset_of(below(N_EDGES as nat)),
    ensures
        reach(adj, roads).finite(),
        reach(adj, roads).len() <= 5 * roads.len(),
    decreases roads.len(),
{
    lemma_below_finite(N_EDGES as nat);
    if roads.len() == 0 {
        assert(roads =~= Set::<nat>::empty());
        assert(reach(adj, roads) =~= Set::<nat>::empty());
    } else {
        let e = roads.choose();
        let rest = roads.remove(e);
        lemma_reach_len(adj, rest);
        assert(adj.e2e(e).subset_of(below(N_EDGES as nat)));
        vstd::set_lib::lemma_len_subset(adj.e2e(e), below(N_EDGES as nat));
        assert(reach(adj, roads) =~= reach(adj, rest).union(adj.e2e(e))) by {
            assert forall|x: nat| reach(adj, roads).contains(x) implies reach(adj, rest).union(adj.e2e(e)).contains(x) by {
                let f = choose|f: nat| roads.contains(f) && #[trigger] adj.e2e(f).contains(x);
                if f != e {
                    assert(rest.contains(f));
                }
            }
            assert forall|x: nat| reach(adj, rest).union(adj.e2e(e)).contains(x) implies reach(adj, roads).contains(x) by {
                if reach(adj, rest).contains(x) {
                    let f = choose|f: nat| rest.contains(f) && #[trigger] adj.e2e(f).contains(x);
                    assert(roads.contains(f));
                }
            }
        }
        vstd::set_lib::lemma_len_union(reach(adj, rest), adj.e2e(e));
    }
}

/// Growing a network by one of its slots keeps the slots right.
proof fn lemma_grown_slots(adj: Adjacency, b: RoadBoard, s: nat, nb: RoadBoard)
    requires
        adj.wf(),
        sparse(adj),
        slots_ok(adj, b),
        b.roads@.finite(),
        b.roads@.subset_of(below(N_EDGES as nat)),
        b.roads@.len() < MAX_ROADS,
        b.road_slots@.contains(s),
        nb.roads@ == b.roads@.insert(s),
        nb.road_slots@ == (if b.road_slots@.len() == 72 {
            Set::<nat>::empty()
        } else {
            b.road_slots@
        }).union(adj.e2e(s)).remove(s),
    ensures
        slots_ok(adj, nb),
        s < N_EDGES,
{
    lemma_below_finite(N_EDGES as nat);
    crate::bitboard::lemma_nat_range(N_EDGES as nat);
    assert(below(N_EDGES as nat) =~= crate::bitboard::nat_range(N_EDGES as nat));
    assert(nb.roads@.contains(s));
    if b.roads@ == Set::<nat>::empty() {
        assert(b.road_slots@.len() == 72);
        assert(nb.roads@ =~= Set::<nat>::empty().insert(s));
        assert forall|x: nat| frontier(adj, nb.roads@).contains(x) implies nb.road_slots@.contains(x) by {
            let e = choose|e: nat| nb.roads@.contains(e) && #[trigger] adj.e2e(e).contains(x);
            assert(e == s);
        }
        assert forall|x: nat| nb.road_slots@.contains(x) implies reach(adj, nb.roads@).contains(x) by {
            assert(adj.e2e(s).contains(x));
        }
    } else {
        lemma_reach_len(adj, b.roads@);
        vstd::set_lib::lemma_len_subset(b.road_slots@, reach(adj, b.roads@));
        assert(b.road_slots@.len() != 72);
        assert(b.road_slots@.contains(s));
        assert(reach(adj, b.roads@).contains(s));
        let f = choose|f: nat| b.roads@.contains(f) && #[trigger] adj.e2e(f).contains(s);
        assert(s < N_EDGES) by {
            assert(adj.e2e(f).subset_of(below(N_EDGES as nat)));
        }
        assert forall|x: nat| frontier(adj, nb.roads@).contains(x) implies nb.road_slots@.contains(x) by {
            let e = choose|e: nat| nb.roads@.contains(e) && #[trigger] adj.e2e(e).contains(x);
            if e != s {
                assert(b.roads@.contains(e));
                assert(frontier(adj, b.roads@).contains(x));
            }
        }
        assert forall|x: nat| nb.road_slots@.contains(x) implies reach(adj, nb.roads@).contains(x) by {
            if b.road_slots@.contains(x) {
                let e = choose|e: nat| b.roads@.contains(e) && #[trigger] adj.e2e(e).contains(x);
                assert(nb.roads@.contains(e));
            } else {
                assert(adj.e2e(s).contains(x));
            }
        }
    }
}

proof fn lemma_path_prefix(adj: Adjacency, roads: Set<nat>, enemy: Set<nat>, p: Seq<nat>, j: int)
    requires
        is_road_path(adj, roads, enemy, p),
        0 <= j < p.len(),
    ensures
        connected(adj, roads, enemy, p[0], p[j]),
{
    let q = p.take(j + 1);
    assert forall|i: int| 0 <= i < q.len() - 1 implies #[trigger] linked(adj, roads, enemy, q[i], q[i + 1]) by {
        assert(linked(adj, roads, enemy, p[i], p[i + 1]));
    }
    assert(is_road_path(adj, roads, enemy, q));
}

/// A path that starts inside `h` and ends outside it leaves `h` somewhere.
proof fn lemma_exit_point(adj: Adjacency, roads: Set<nat>, enemy: Set<nat>, p: Seq<nat>, h: Set<nat>) -> (i: int)
    requires
        is_road_path(adj, roads, enemy, p),
        h.contains(p[0]),
        !h.contains(p.last()),
    ensures
        0 < i < p.len(),
        h.contains(p[i - 1]),
        !h.contains(p[i]),
    decreases p.len(),
{
    let n = p.len() - 1;
    if h.contains(p[n - 1]) {
        n
    } else {
        let q = p.drop_last();
        assert forall|k: int| 0 <= k < q.len() - 1 implies #[trigger] linked(adj, roads, enemy, q[k], q[k + 1]) by {
            assert(linked(adj, roads, enemy, p[k], p[k + 1]));
        }
        assert(is_road_path(adj, roads, enemy, q));
        lemma_exit_point(adj, roads, enemy, q, h)
    }
}

/// A part of a component that is not all of it has a road of the component
/// next to it.
proof fn lemma_component_boundary(adj: Adjacency, roads: Set<nat>, enemy: Set<nat>, a: nat, h: Set<nat>) -> (x: nat)
    requires
        adj.wf(),
        roads.subset_of(below(N_EDGES as nat)),
        roads.contains(a),
        h.subset_of(component(adj, roads, enemy, a)),
        h != Set::<nat>::empty(),
        h != component(adj, roads, enemy, a),
    ensures
        component(adj, roads, enemy, a).contains(x),
        !h.contains(x),
        exists|e: nat| h.contains(e) && #[trigger] adj.e2e(e).contains(x),
{
    let c = component(adj, roads, enemy, a);
    assert(exists|b: nat| c.contains(b) && !h.contains(b)) by {
        if !(exists|b: nat| c.contains(b) && !h.contains(b)) {
            assert(h =~= c);
        }
    }
    let b = choose|b: nat| c.contains(b) && !h.contains(b);
    if h.contains(a) {
        let p = choose|p: Seq<nat>| #[trigger] is_road_path(adj, roads, enemy, p) && p[0] == a && p.last() == b;
        let i = lemma_exit_point(adj, roads, enemy, p, h);
        lemma_path_prefix(adj, roads, enemy, p, i);
        let k = i - 1;
        assert(linked(adj, roads, enemy, p[k], p[k + 1]));
        p[i]
    } else {
        assert(exists|g: nat| h.contains(g)) by {
            if !(exists|g: nat| h.contains(g)) {
                assert(h =~= Set::<nat>::empty());
            }
        }
        let g = choose|g: nat| h.contains(g);
        let p = choose|p: Seq<nat>| #[trigger] is_road_path(adj, roads, enemy, p) && p[0] == a && p.last() == g;
        let r = p.reverse();
        assert forall|k: int| 0 <= k < r.len() - 1 implies #[trigger] linked(adj, roads, enemy, r[k], r[k + 1]) by {
            let j = p.len() - 2 - k;
            assert(linked(adj, roads, enemy, p[j], p[j + 1]));
            lemma_linked_symmetric(adj, roads, enemy, p[j], p[j + 1]);
        }
        assert forall|k: int| 0 <= k < r.len() implies roads.contains(#[trigger] r[k]) by {
            assert(roads.contains(p[p.len() - 1 - k]));
        }
        assert(is_road_path(adj, roads, enemy, r));
        let i = lemma_exit_point(adj, roads, enemy, r, h);
        assert(r[i] == p[p.len() - 1 - i]);
        lemma_path_prefix(adj, roads, enemy, p, p.len() - 1 - i);
        let k = i - 1;
        assert(linked(adj, roads, enemy, r[k], r[k + 1]));
        lemma_linked_symmetric(adj, roads, enemy, r[k], r[k + 1]);
        r[i]
    }
}

proof fn lemma_component_in_roads(adj: Adjacency, roads: Set<nat>, enemy: Set<nat>, a: nat)
    ensures
        component(adj, roads, enemy, a).subset_of(roads),
{
    assert forall|b: nat| component(adj, roads, enemy, a).contains(b) implies roads.contains(b) by {
        let p = choose|p: Seq<nat>| #[trigger] is_road_path(adj, roads, enemy, p) && p[0] == a && p.last() == b;
        assert(roads.contains(p[p.len() - 1]));
    }
}

/// Growing a part of a component road by road reaches the whole component.
proof fn lemma_grow_within(adj: Adjacency, ys: Set<u128>, roads: Set<nat>, enemy: Set<nat>, a: nat, h: Set<nat>)
    requires
        adj.wf(),
        closed_under_growth(adj, ys),
        roads.finite(),
        roads.subset_of(below(N_EDGES as nat)),
        roads.len() <= MAX_ROADS,
        roads.contains(a),
        h.subset_of(component(adj, roads, enemy, a)),
        h != Set::<nat>::empty(),
        ys.contains(value_of(h)),
    ensures
        ys.contains(value_of(component(adj, roads, enemy, a))),
    decreases component(adj, roads, enemy, a).len() - h.len(),
{
    let c = component(adj, roads, enemy, a);
    lemma_component_in_roads(adj, roads, enemy, a);
    vstd::set_lib::lemma_len_subset(c, roads);
    vstd::set_lib::lemma_len_subset(h, c);
    if h != c {
        let x = lemma_component_boundary(adj, roads, enemy, a, h);
        let g = value_of(h);
        lemma_below_finite(128);
        assert(h.subset_of(below(128)));
        lemma_set_has_value(h);
        assert(bits_of(g) == h);
        assert(h.len() < c.len()) by {
            if h.len() == c.len() {
                vstd::set_lib::lemma_subset_equality(h, c);
            }
        }
        assert(frontier(adj, h).contains(x));
        assert(grows_by(adj, bits_of(g), x));
        assert(ys.contains(value_of(h.insert(x))));
        assert(h.insert(x).contains(x));
        lemma_grow_within(adj, ys, roads, enemy, a, h.insert(x));
    } else {
        assert(h =~= c);
    }
}

/// A set of graphs that holds the empty graph and is closed under growth
/// holds every component of every network of at most 15 roads.
proof fn lemma_closed_holds_every_component(adj: Adjacency, ys: Set<u128>, roads: Set<nat>, enemy: Set<nat>, a: nat)
    requires
        adj.wf(),
        ys.contains(0u128),
        closed_under_growth(adj, ys),
        roads.finite(),
        roads.subset_of(below(N_EDGES as nat)),
        roads.len() <= MAX_ROADS,
        roads.contains(a),
    ensures
        ys.contains(value_of(component(adj, roads, enemy, a))),
{
    let z = Bitboard::<u128> { value: 0 };
    assert forall|i: nat| !z@.contains(i) by {
        if i < 128 {
            let j = i as u128;
            assert(!((0u128 >> j) & 1u128 == 1u128)) by (bit_vector);
        }
    }
    assert(bits_of(0u128) =~= Set::<nat>::empty());
    assert(grows_by(adj, bits_of(0u128), a));
    assert(Set::<nat>::empty().insert(a) =~= bits_of(0u128).insert(a));
    assert(ys.contains(value_of(Set::<nat>::empty().insert(a))));
    lemma_single_path(adj, roads, enemy, a);
    assert(Set::<nat>::empty().insert(a).contains(a));
    lemma_grow_within(adj, ys, roads, enemy, a, Set::<nat>::empty().insert(a));
}

proof fn lemma_zero_value(b: Bitboard<u128>)
    requires
        b@ == Set::<nat>::empty(),
    ensures
        b.value == 0,
{
    let z = Bitboard::<u128> { value: 0 };
    assert forall|i: nat| !z@.contains(i) by {
        if i < 128 {
            let j = i as u128;
            assert((0u128 >> j) & 1u128 == 0u128) by (bit_vector);
        }
    }
    assert(z@ =~= b@);
    Bitboard::<u128>::lemma_view_injective(z, b);
}

proof fn lemma_nonzero_value(b: Bitboard<u128>, i: nat)
    requires
        b@.contains(i),
    ensures
        b.value != 0,
{
    if b.value == 0 {
        let j = i as u128;
        assert((0u128 >> j) & 1u128 == 0u128) by (bit_vector);
    }
}


// ---------------------------------------------------------------------------
// Longest trails

/// The vertices at either end of some road.
pub open spec fn touched(adj: Adjacency, roads: Set<nat>) -> Set<nat> {
    Set::new(|v: nat| exists|e: nat| #[trigger] roads.contains(e) && adj.e2v(e).contains(v))
}

/// `es` is a trail of distinct roads through the vertices `vs`: road `es[i]` joins
/// `vs[i]` and `vs[i + 1]`. A trail without roads is a single vertex at the end
/// of some road.
pub open spec fn is_trail(adj: Adjacency, roads: Set<nat>, es: Seq<nat>, vs: Seq<nat>) -> bool {
    &&& vs.len() == es.len() + 1
    &&& es.no_duplicates()
    &&& touched(adj, roads).contains(vs[0])
    &&& forall|i: int|
        0 <= i < es.len() ==> roads.contains(#[trigger] es[i]) && adj.e2v(es[i])
            == Set::<nat>::empty().insert(vs[i]).insert(vs[i + 1])
}

/// The roads have a trail of `k` roads.
pub open spec fn has_trail(adj: Adjacency, roads: Set<nat>, k: nat) -> bool {
    exists|es: Seq<nat>, vs: Seq<nat>| #[trigger] is_trail(adj, roads, es, vs) && es.len() == k
}

/// Some trail of `k` roads ends at `v` and uses exactly the roads `p`.
pub open spec fn trail_to(adj: Adjacency, roads: Set<nat>, k: nat, v: nat, p: Set<nat>) -> bool {
    exists|es: Seq<nat>, vs: Seq<nat>|
        #[trigger] is_trail(adj, roads, es, vs) && es.len() == k && vs.last() == v && es.to_set() == p
}

proof fn lemma_trail_prefix(adj: Adjacency, roads: Set<nat>, es: Seq<nat>, vs: Seq<nat>)
    requires
        is_trail(adj, roads, es, vs),
        es.len() >= 1,
    ensures
        is_trail(adj, roads, es.drop_last(), vs.drop_last()),
        vs.drop_last().last() == vs[es.len() - 1],
        adj.e2v(es.last()) == Set::<nat>::empty().insert(vs[es.len() - 1]).insert(vs.last()),
        roads.contains(es.last()),
        !es.drop_last().to_set().contains(es.last()),
        es.drop_last().to_set().insert(es.last()) == es.to_set(),
{
    let p = es.drop_last();
    let k = es.len() - 1;
    assert forall|i: int| 0 <= i < p.len() implies roads.contains(#[trigger] p[i]) && adj.e2v(p[i])
        == Set::<nat>::empty().insert(vs.drop_last()[i]).insert(vs.drop_last()[i + 1]) by {
        assert(p[i] == es[i]);
    }
    assert(roads.contains(es[k]));
    if p.to_set().contains(es.last()) {
        let j = choose|j: int| 0 <= j < p.len() && p[j] == es.last();
        assert(es[j] == es[k]);
    }
    assert(es =~= p.push(es.last()));
    assert(p.push(es.last()) =~= p + seq![es.last()]);
    Seq::lemma_to_set_insert_commutes(p, es.last());
}

proof fn lemma_trail_extend(adj: Adjacency, roads: Set<nat>, es: Seq<nat>, vs: Seq<nat>, c: nat, v: nat)
    requires
        is_trail(adj, roads, es, vs),
        roads.contains(c),
        !es.to_set().contains(c),
        adj.e2v(c) == Set::<nat>::empty().insert(vs.last()).insert(v),
    ensures
        is_trail(adj, roads, es.push(c), vs.push(v)),
        es.push(c).to_set() == es.to_set().insert(c),
{
    let es2 = es.push(c);
    let vs2 = vs.push(v);
    assert forall|i: int| 0 <= i < es2.len() implies roads.contains(#[trigger] es2[i]) && adj.e2v(es2[i])
        == Set::<nat>::empty().insert(vs2[i]).insert(vs2[i + 1]) by {
        if i < es.len() {
            assert(es2[i] == es[i]);
        }
    }
    assert forall|i: int, j: int| 0 <= i < es2.len() && 0 <= j < es2.len() && i != j implies es2[i] != es2[j] by {
        if i < es.len() && j < es.len() {
        } else if i < es.len() {
            assert(es.to_set().contains(es[i]));
        } else {
            assert(es.to_set().contains(es[j]));
        }
    }
    assert(es2 =~= es + seq![c]);
    Seq::lemma_to_set_insert_commutes(es, c);
}

/// A trail uses each road once, so it has no more roads than the network.
proof fn lemma_trail_len(adj: Adjacency, roads: Set<nat>, es: Seq<nat>, vs: Seq<nat>)
    requires
        is_trail(adj, roads, es, vs),
        roads.finite(),
    ensures
        es.len() <= roads.len(),
{
    es.unique_seq_to_set();
    assert forall|x: nat| es.to_set().contains(x) implies roads.contains(x) by {
        let j = choose|j: int| 0 <= j < es.len() && es[j] == x;
        assert(roads.contains(es[j]));
    }
    vstd::set_lib::lemma_len_subset(es.to_set(), roads);
}

/// The trails without roads at vertex `v`: the empty one if `v` is at the end of
/// some road, and none otherwise.
pub open spec fn layer_zero_entry(adj: Adjacency, roads: Set<nat>, entry: Seq<Bitboard<u128>>, v: nat) -> bool {
    if touched(adj, roads).contains(v) {
        entry.len() == 1 && entry[0]@ == Set::<nat>::empty()
    } else {
        entry.len() == 0
    }
}

/// A two-point set with one known point: the other one is what is left.
proof fn lemma_other_end(s: Set<nat>, v: nat, w: nat)
    requires
        exists|a: nat, b: nat| a != b && s == Set::<nat>::empty().insert(a).insert(b),
        s.contains(v),
        s.remove(v).contains(w),
    ensures
        s == Set::<nat>::empty().insert(w).insert(v),
        w != v,
{
    let (a, b) = choose|a: nat, b: nat| a != b && s == Set::<nat>::empty().insert(a).insert(b);
    assert(s =~= Set::<nat>::empty().insert(w).insert(v));
}

/// The length of the longest trail in a road network, found by extending every
/// trail one road at a time: trails of length `k` ending at each vertex are
/// recorded by the set of roads they use.
///
/// Too slow for play; it is meant to fill the lookup table.
pub fn slow_longest_trail(adj: &Adjacency, roads: Bitboard<u128>) -> (r: u8)
    requires
        adj.wf(),
        roads@.subset_of(below(N_EDGES as nat)),
    ensures
        r == 0 || has_trail(*adj, roads@, r as nat),
        forall|k: nat| k > r ==> !#[trigger] has_trail(*adj, roads@, k),
        is_longest_trail(*adj, roads@, r as nat),
{
    let ghost a = *adj;
    let ghost rs = roads@;
    proof {
        roads.lemma_view_finite();
        crate::bitboard::lemma_nat_range(N_EDGES as nat);
        assert(below(N_EDGES as nat) =~= crate::bitboard::nat_range(N_EDGES as nat));
        vstd::set_lib::lemma_len_subset(rs, below(N_EDGES as nat));
    }
    let road_count = roads.count_ones();

    // The vertices at the ends of the roads.
    let mut verts: Bitboard<u64> = Bitboard::zeros();
    let mut rest = roads;
    loop
        invariant
            adj.wf(),
            a == *adj,
            rs == roads@,
            rs.subset_of(below(N_EDGES as nat)),
            rest@.subset_of(rs),
            forall|v: nat| #[trigger] verts@.contains(v) <==> exists|e: nat| #[trigger] rs.contains(e) && !rest@.contains(e) && a.e2v(e).contains(v),
        ensures
            rest@ == Set::<nat>::empty(),
        decreases rest@.len(),
    {
        proof {
            rest.lemma_view_finite();
        }
        let ghost before = rest@;
        let e = match rest.next() {
            None => break,
            Some(e) => e,
        };
        let ghost verts_before = verts@;
        verts.or_assign(adj.edge_to_verts[e]);
        proof {
            assert forall|v: nat| #[trigger] verts@.contains(v) <==> exists|f: nat| #[trigger] rs.contains(f) && !rest@.contains(f) && a.e2v(f).contains(v) by {
                if verts@.contains(v) && !verts_before.contains(v) {
                    assert(rs.contains(e as nat) && !rest@.contains(e as nat) && a.e2v(e as nat).contains(v));
                }
                if exists|f: nat| #[trigger] rs.contains(f) && !rest@.contains(f) && a.e2v(f).contains(v) {
                    let f = choose|f: nat| #[trigger] rs.contains(f) && !rest@.contains(f) && a.e2v(f).contains(v);
                    if f != e {
                        assert(!before.contains(f));
                    }
                }
            }
        }
    }
    proof {
        assert(rest@ =~= Set::<nat>::empty());
        assert(verts@ =~= touched(a, rs));
    }

    // Layer 0: a trail without roads at every vertex.
    let mut prev: Vec<Vec<Bitboard<u128>>> = Vec::new();
    let mut v: usize = 0;
    while v < 54
        invariant
            v <= 54,
            prev.len() == v,
            verts@ == touched(a, rs),
            forall|u: int| 0 <= u < v ==> #[trigger] layer_zero_entry(a, rs, prev@[u]@, u as nat),
        decreases 54 - v,
    {
        let mut list: Vec<Bitboard<u128>> = Vec::new();
        if verts.contains(v) {
            list.push(Bitboard::zeros());
        }
        let ghost prev_before = prev@;
        let ghost list_view = list@;
        proof {
            assert(layer_zero_entry(a, rs, list_view, v as nat));
        }
        prev.push(list);
        proof {
            assert forall|u: int| 0 <= u < v + 1 implies #[trigger] layer_zero_entry(a, rs, prev@[u]@, u as nat) by {
                if u < v {
                    assert(prev@[u] == prev_before[u]);
                } else {
                    assert(prev@[u]@ == list_view);
                }
            }
        }
        v = v + 1;
    }
    proof {
        assert forall|u: int, j: int| 0 <= u < 54 && 0 <= j < prev@[u].len() implies trail_to(a, rs, 0, u as nat, #[trigger] prev@[u]@[j]@) by {
            assert(layer_zero_entry(a, rs, prev@[u]@, u as nat));
            let es = Seq::<nat>::empty();
            let vs = seq![u as nat];
            assert(is_trail(a, rs, es, vs));
            assert(es.to_set() =~= Set::<nat>::empty());
        }
        assert forall|es: Seq<nat>, vs: Seq<nat>| #[trigger] is_trail(a, rs, es, vs) && es.len() == 0 implies vs.last() < 54 && exists|j: int| 0 <= j < prev@[vs.last() as int].len() && prev@[vs.last() as int]@[j]@ == es.to_set() by {
            let u = vs[0];
            let e = choose|e: nat| #[trigger] rs.contains(e) && a.e2v(e).contains(u);
            assert(a.e2v(e).subset_of(below(54)));
            assert(es.to_set() =~= Set::<nat>::empty());
            let ui = u as int;
            assert(ui < 54);
            assert(layer_zero_entry(a, rs, prev@[ui]@, ui as nat));
            assert(touched(a, rs).contains(u));
            assert(prev@[ui]@[0]@ == Set::<nat>::empty());
        }
    }

    let mut longest: u8 = 0;
    let mut length: u32 = 1;
    while length <= road_count
        invariant
            adj.wf(),
            a == *adj,
            rs == roads@,
            rs.finite(),
            rs.subset_of(below(N_EDGES as nat)),
            road_count == rs.len(),
            road_count <= 72,
            1 <= length <= road_count + 1,
            prev.len() == 54,
            forall|u: int, j: int| 0 <= u < 54 && 0 <= j < prev@[u].len() ==> trail_to(a, rs, (length - 1) as nat, u as nat, #[trigger] prev@[u]@[j]@),
            forall|es: Seq<nat>, vs: Seq<nat>| #[trigger] is_trail(a, rs, es, vs) && es.len() == length - 1 ==> vs.last() < 54 && exists|j: int| 0 <= j < prev@[vs.last() as int].len() && prev@[vs.last() as int]@[j]@ == es.to_set(),
            longest < length,
            longest == 0 || has_trail(a, rs, longest as nat),
            forall|k: nat| 1 <= k < length && #[trigger] has_trail(a, rs, k) ==> k <= longest,
        decreases road_count + 1 - length,
    {
        let ghost k = length as nat;
        let ghost longest_before = longest;
        let mut curr: Vec<Vec<Bitboard<u128>>> = Vec::new();
        let mut v: usize = 0;
        while v < 54
            invariant
                adj.wf(),
                a == *adj,
                rs == roads@,
                rs.finite(),
                rs.subset_of(below(N_EDGES as nat)),
                k == length,
                length <= road_count,
                road_count <= 72,
                v <= 54,
                curr.len() == v,
                prev.len() == 54,
                forall|u: int, j: int| 0 <= u < 54 && 0 <= j < prev@[u].len() ==> trail_to(a, rs, (k - 1) as nat, u as nat, #[trigger] prev@[u]@[j]@),
                forall|es: Seq<nat>, vs: Seq<nat>| #[trigger] is_trail(a, rs, es, vs) && es.len() == k - 1 ==> vs.last() < 54 && exists|j: int| 0 <= j < prev@[vs.last() as int].len() && prev@[vs.last() as int]@[j]@ == es.to_set(),
                forall|u: int, j: int| 0 <= u < v && 0 <= j < curr@[u].len() ==> trail_to(a, rs, k, u as nat, #[trigger] curr@[u]@[j]@),
                forall|es: Seq<nat>, vs: Seq<nat>| #[trigger] is_trail(a, rs, es, vs) && es.len() == k && vs.last() < v ==> exists|j: int| 0 <= j < curr@[vs.last() as int].len() && curr@[vs.last() as int]@[j]@ == es.to_set(),
                forall|u: int| 0 <= u < v && #[trigger] curr@[u].len() > 0 ==> longest == k,
                longest == longest_before || longest == k,
                longest == k ==> has_trail(a, rs, k),
                longest_before < k,
            decreases 54 - v,
        {
            let mut list: Vec<Bitboard<u128>> = Vec::new();
            let mut connections = adj.vert_to_edges[v].and(roads);
            let ghost conns0 = connections@;
            let mask = Bitboard::<u64>::single(v).not();
            proof {
                assert forall|es: Seq<nat>, vs: Seq<nat>| #[trigger] is_trail(a, rs, es, vs) && es.len() == k && vs.last() == v implies connections@.contains(es.last()) by {
                    lemma_trail_prefix(a, rs, es, vs);
                    assert(a.e2v(es.last()).contains(v as nat));
                    assert(es.last() < N_EDGES);
                    assert(a.v2e(v as nat).contains(es.last()));
                }
            }
            loop
                invariant
                    adj.wf(),
                    a == *adj,
                    rs == roads@,
                    rs.finite(),
                    rs.subset_of(below(N_EDGES as nat)),
                    k == length,
                    length <= road_count,
                    road_count <= 72,
                    v < 54,
                    prev.len() == 54,
                    conns0 == a.v2e(v as nat).intersect(rs),
                    connections@.subset_of(conns0),
                    mask@ == Bitboard::<u64>::full().difference(Set::<nat>::empty().insert(v as nat)),
                    forall|u: int, j: int| 0 <= u < 54 && 0 <= j < prev@[u].len() ==> trail_to(a, rs, (k - 1) as nat, u as nat, #[trigger] prev@[u]@[j]@),
                    forall|es: Seq<nat>, vs: Seq<nat>| #[trigger] is_trail(a, rs, es, vs) && es.len() == k - 1 ==> vs.last() < 54 && exists|j: int| 0 <= j < prev@[vs.last() as int].len() && prev@[vs.last() as int]@[j]@ == es.to_set(),
                    forall|j: int| 0 <= j < list@.len() ==> trail_to(a, rs, k, v as nat, #[trigger] list@[j]@),
                    forall|es: Seq<nat>, vs: Seq<nat>| #[trigger] is_trail(a, rs, es, vs) && es.len() == k && vs.last() == v && !connections@.contains(es.last()) ==> exists|j: int| 0 <= j < list@.len() && list@[j]@ == es.to_set(),
                    forall|u: int| 0 <= u < v && #[trigger] curr@[u].len() > 0 ==> longest == k,
                    curr.len() == v,
                    list@.len() > 0 ==> longest == k,
                    longest == longest_before || longest == k,
                    longest == k ==> has_trail(a, rs, k),
                    longest_before < k,
                ensures
                    connections@ == Set::<nat>::empty(),
                    forall|j: int| 0 <= j < list@.len() ==> trail_to(a, rs, k, v as nat, #[trigger] list@[j]@),
                    list@.len() > 0 ==> longest == k,
                    longest == longest_before || longest == k,
                    longest == k ==> has_trail(a, rs, k),
                    curr.len() == v,
                    forall|u: int| 0 <= u < v && #[trigger] curr@[u].len() > 0 ==> longest == k,
                    forall|es: Seq<nat>, vs: Seq<nat>| #[trigger] is_trail(a, rs, es, vs) && es.len() == k && vs.last() == v && !connections@.contains(es.last()) ==> exists|j: int| 0 <= j < list@.len() && list@[j]@ == es.to_set(),
                decreases connections@.len(),
            {
                proof {
                    connections.lemma_view_finite();
                }
                let ghost conns_before = connections@;
                let c = match connections.next() {
                    None => break,
                    Some(c) => c,
                };
                proof {
                    assert(conns0.contains(c as nat));
                    assert(a.v2e(v as nat).contains(c as nat));
                    assert(c < N_EDGES);
                    assert(a.e2v(c as nat).contains(v as nat));
                }
                let mut other = adj.edge_to_verts[c].and(mask);
                let w = match other.next() {
                    Some(w) => w,
                    None => {
                        proof {
                            let (x, y) = choose|x: nat, y: nat| x != y && a.e2v(c as nat) == Set::<nat>::empty().insert(x).insert(y);
                            let z = if x != v { x } else { y };
                            assert(a.e2v(c as nat).contains(z));
                            assert(a.e2v(c as nat).subset_of(below(54)));
                            assert(z < 54);
                            assert(z != v);
                            assert(Bitboard::<u64>::full().contains(z));
                            assert(mask@.contains(z));
                            assert(other@.contains(z));
                        }
                        0
                    },
                };
                proof {
                    assert(a.e2v(c as nat).remove(v as nat).contains(w as nat));
                    lemma_other_end(a.e2v(c as nat), v as nat, w as nat);
                    assert(a.e2v(c as nat).subset_of(below(54)));
                    assert(w < 54);
                }
                let paths = &prev[w];
                let mut j: usize = 0;
                while j < paths.len()
                    invariant
                        adj.wf(),
                        a == *adj,
                        rs == roads@,
                        rs.finite(),
                        k == length,
                        length <= road_count,
                        road_count <= 72,
                        v < 54,
                        w < 54,
                        c < N_EDGES,
                        rs.contains(c as nat),
                        a.e2v(c as nat) == Set::<nat>::empty().insert(w as nat).insert(v as nat),
                        *paths == prev@[w as int],
                        j <= paths.len(),
                        forall|i: int| 0 <= i < paths@.len() ==> trail_to(a, rs, (k - 1) as nat, w as nat, #[trigger] paths@[i]@),
                        forall|i: int| 0 <= i < list@.len() ==> trail_to(a, rs, k, v as nat, #[trigger] list@[i]@),
                        forall|es: Seq<nat>, vs: Seq<nat>| #[trigger] is_trail(a, rs, es, vs) && es.len() == k && vs.last() == v && !conns_before.contains(es.last()) ==> exists|i: int| 0 <= i < list@.len() && list@[i]@ == es.to_set(),
                        forall|es: Seq<nat>, vs: Seq<nat>| #[trigger] is_trail(a, rs, es, vs) && es.len() == k && vs.last() == v && es.last() == c && (exists|i: int| 0 <= i < j && paths@[i]@ == es.drop_last().to_set()) ==> exists|i: int| 0 <= i < list@.len() && list@[i]@ == es.to_set(),
                        forall|u: int| 0 <= u < v && #[trigger] curr@[u].len() > 0 ==> longest == k,
                        curr.len() == v,
                        list@.len() > 0 ==> longest == k,
                        longest == longest_before || longest == k,
                        longest == k ==> has_trail(a, rs, k),
                        longest_before < k,
                    decreases paths.len() - j,
                {
                    let path = paths[j];
                    if path.contains(c) {
                        proof {
                            assert forall|es: Seq<nat>, vs: Seq<nat>| #[trigger] is_trail(a, rs, es, vs) && es.len() == k && vs.last() == v && es.last() == c && (exists|i: int| 0 <= i < j + 1 && paths@[i]@ == es.drop_last().to_set()) implies exists|i: int| 0 <= i < list@.len() && list@[i]@ == es.to_set() by {
                                lemma_trail_prefix(a, rs, es, vs);
                                let i = choose|i: int| 0 <= i < j + 1 && paths@[i]@ == es.drop_last().to_set();
                                if i == j {
                                    assert(false);
                                }
                            }
                        }
                        j = j + 1;
                        continue;
                    }
                    let mut new_path = path;
                    new_path.add(c);
                    proof {
                        assert(trail_to(a, rs, (k - 1) as nat, w as nat, paths@[j as int]@));
                        let (es, vs) = choose|es: Seq<nat>, vs: Seq<nat>| #[trigger] is_trail(a, rs, es, vs) && es.len() == k - 1 && vs.last() == w && es.to_set() == path@;
                        lemma_trail_extend(a, rs, es, vs, c as nat, v as nat);
                        assert(vs.push(v as nat).last() == v);
                        assert(is_trail(a, rs, es.push(c as nat), vs.push(v as nat)));
                        assert(trail_to(a, rs, k, v as nat, new_path@));
                        assert(has_trail(a, rs, k));
                    }
                    let ghost list_before = list@;
                    list.push(new_path);
                    longest = length as u8;
                    proof {
                        assert forall|i: int| 0 <= i < list@.len() implies trail_to(a, rs, k, v as nat, #[trigger] list@[i]@) by {
                            if i < list_before.len() {
                                assert(list@[i] == list_before[i]);
                            }
                        }
                        assert forall|es: Seq<nat>, vs: Seq<nat>| #[trigger] is_trail(a, rs, es, vs) && es.len() == k && vs.last() == v && !conns_before.contains(es.last()) implies exists|i: int| 0 <= i < list@.len() && list@[i]@ == es.to_set() by {
                            let i = choose|i: int| 0 <= i < list_before.len() && list_before[i]@ == es.to_set();
                            assert(list@[i] == list_before[i]);
                        }
                        assert forall|es: Seq<nat>, vs: Seq<nat>| #[trigger] is_trail(a, rs, es, vs) && es.len() == k && vs.last() == v && es.last() == c && (exists|i: int| 0 <= i < j + 1 && paths@[i]@ == es.drop_last().to_set()) implies exists|i: int| 0 <= i < list@.len() && list@[i]@ == es.to_set() by {
                            lemma_trail_prefix(a, rs, es, vs);
                            let i = choose|i: int| 0 <= i < j + 1 && paths@[i]@ == es.drop_last().to_set();
                            if i == j {
                                assert(list@[list@.len() - 1]@ == es.to_set());
                            } else {
                                let i2 = choose|i2: int| 0 <= i2 < list_before.len() && list_before[i2]@ == es.to_set();
                                assert(list@[i2] == list_before[i2]);
                            }
                        }
                    }
                    j = j + 1;
                }
                proof {
                    assert forall|es: Seq<nat>, vs: Seq<nat>| #[trigger] is_trail(a, rs, es, vs) && es.len() == k && vs.last() == v && !connections@.contains(es.last()) implies exists|i: int| 0 <= i < list@.len() && list@[i]@ == es.to_set() by {
                        if es.last() == c {
                            lemma_trail_prefix(a, rs, es, vs);
                            let p = es.drop_last();
                            let q = vs.drop_last();
                            let x = es.last();
                            assert(a.e2v(x) == Set::<nat>::empty().insert(vs[es.len() - 1]).insert(v as nat));
                            assert(vs[es.len() - 1] == w) by {
                                let y = vs[es.len() - 1];
                                assert(a.e2v(c as nat).contains(y));
                                if y == v {
                                    assert(a.e2v(x) =~= Set::<nat>::empty().insert(v as nat));
                                    assert(!a.e2v(c as nat).contains(w as nat) || w == v);
                                }
                            }
                            assert(is_trail(a, rs, p, q));
                            assert(p.len() == k - 1);
                            let i = choose|i: int| 0 <= i < prev@[q.last() as int].len() && prev@[q.last() as int]@[i]@ == p.to_set();
                            assert(paths@[i]@ == p.to_set());
                        }
                    }
                }
            }
            proof {
                assert forall|es: Seq<nat>, vs: Seq<nat>| #[trigger] is_trail(a, rs, es, vs) && es.len() == k && vs.last() == v implies exists|i: int| 0 <= i < list@.len() && list@[i]@ == es.to_set() by {
                    lemma_trail_prefix(a, rs, es, vs);
                    let x = es.last();
                    assert(a.e2v(x).contains(v as nat));
                    assert(x < N_EDGES);
                    assert(a.v2e(v as nat).contains(x));
                    assert(conns0.contains(x));
                    assert(!connections@.contains(x));
                }
            }
            let ghost curr_before = curr@;
            let ghost list_view = list@;
            curr.push(list);
            proof {
                assert forall|u: int, i: int| 0 <= u < v + 1 && 0 <= i < curr@[u].len() implies trail_to(a, rs, k, u as nat, #[trigger] curr@[u]@[i]@) by {
                    if u < v {
                        assert(curr@[u] == curr_before[u]);
                    }
                }
                assert forall|u: int| 0 <= u < v + 1 && #[trigger] curr@[u].len() > 0 implies longest == k by {
                    if u < v {
                        assert(curr@[u] == curr_before[u]);
                    }
                }
                assert forall|es: Seq<nat>, vs: Seq<nat>| #[trigger] is_trail(a, rs, es, vs) && es.len() == k && vs.last() < v + 1 implies exists|i: int| 0 <= i < curr@[vs.last() as int].len() && curr@[vs.last() as int]@[i]@ == es.to_set() by {
                    let x = vs.last() as int;
                    if x < v {
                        assert(curr@[x] == curr_before[x]);
                        let j = choose|j: int| 0 <= j < curr_before[x].len() && curr_before[x]@[j]@ == es.to_set();
                        assert(curr@[x]@[j]@ == es.to_set());
                    } else {
                        assert(curr@[x]@ == list_view);
                        let j = choose|j: int| 0 <= j < list_view.len() && list_view[j]@ == es.to_set();
                        assert(curr@[x]@[j]@ == es.to_set());
                    }
                }
            }
            v = v + 1;
        }
        proof {
            assert forall|es: Seq<nat>, vs: Seq<nat>| #[trigger] is_trail(a, rs, es, vs) && es.len() == k implies vs.last() < 54 && exists|j: int| 0 <= j < curr@[vs.last() as int].len() && curr@[vs.last() as int]@[j]@ == es.to_set() by {
                lemma_trail_prefix(a, rs, es, vs);
                assert(es.last() < N_EDGES);
                assert(a.e2v(es.last()).subset_of(below(54)));
                assert(a.e2v(es.last()).contains(vs.last()));
                assert(vs.last() < 54);
                assert(vs.last() < v);
            }
            assert forall|kk: nat| 1 <= kk < length + 1 && #[trigger] has_trail(a, rs, kk) implies kk <= longest by {
                if kk == k {
                    let (es, vs) = choose|es: Seq<nat>, vs: Seq<nat>| #[trigger] is_trail(a, rs, es, vs) && es.len() == kk;
                    lemma_trail_prefix(a, rs, es, vs);
                    assert(a.e2v(es.last()).subset_of(below(54)));
                    assert(a.e2v(es.last()).contains(vs.last()));
                    let j = choose|j: int| 0 <= j < curr@[vs.last() as int].len() && curr@[vs.last() as int]@[j]@ == es.to_set();
                    assert(trail_to(a, rs, k, vs.last(), curr@[vs.last() as int]@[j]@));
                    assert(curr@[vs.last() as int].len() > 0);
                }
            }
        }
        prev = curr;
        length = length + 1;
    }
    proof {
        assert forall|kk: nat| kk > longest implies !#[trigger] has_trail(a, rs, kk) by {
            if has_trail(a, rs, kk) {
                let (es, vs) = choose|es: Seq<nat>, vs: Seq<nat>| #[trigger] is_trail(a, rs, es, vs) && es.len() == kk;
                lemma_trail_len(a, rs, es, vs);
            }
        }
    }
    longest
}

} // verus!
