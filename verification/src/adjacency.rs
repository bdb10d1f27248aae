//! Which hexes, vertices and edges of the Catan board touch each other.
use vstd::prelude::*;
use crate::bitboard::{Bitboard, BitboardInt};
use crate::catan_common::{N_EDGES, N_HEXES, N_VERTICES};
use crate::road_trails::sparse;

verus! {

/// Two distinct indices.
pub open spec fn is_pair(s: Set<nat>) -> bool {
    exists|a: nat, b: nat| a != b && s == Set::<nat>::empty().insert(a).insert(b)
}

/// The indices below `n`.
pub open spec fn below(n: nat) -> Set<nat> {
    Set::new(|i: nat| i < n)
}

/// The adjacency tables of a Catan board, one bitboard per hex, vertex or edge.
#[derive(Clone)]
pub struct Adjacency {
    /// The edges that share a vertex with each edge.
    pub edge_to_edges: Vec<Bitboard<u128>>,
    /// The two end points of each edge.
    pub edge_to_verts: Vec<Bitboard<u64>>,
    /// The edges that meet at each vertex.
    pub vert_to_edges: Vec<Bitboard<u128>>,
    /// Each vertex together with its neighbours.
    pub vert_to_verts: Vec<Bitboard<u64>>,
    /// The six corners of each hex.
    pub hex_to_verts: Vec<Bitboard<u64>>,
}

impl Adjacency {
    pub open spec fn e2e(&self, e: nat) -> Set<nat> {
        self.edge_to_edges@[e as int]@
    }

    pub open spec fn e2v(&self, e: nat) -> Set<nat> {
        self.edge_to_verts@[e as int]@
    }

    pub open spec fn v2e(&self, v: nat) -> Set<nat> {
        self.vert_to_edges@[v as int]@
    }

    pub open spec fn v2v(&self, v: nat) -> Set<nat> {
        self.vert_to_verts@[v as int]@
    }

    pub open spec fn h2v(&self, h: nat) -> Set<nat> {
        self.hex_to_verts@[h as int]@
    }

    /// The tables describe a board: every entry is in range, every edge has two
    /// distinct end points, the edges at a vertex are exactly those ending there,
    /// and neighbouring edges are neighbours both ways.
    pub open spec fn wf(&self) -> bool {
        &&& self.edge_to_edges.len() == N_EDGES
        &&& self.edge_to_verts.len() == N_EDGES
        &&& self.vert_to_edges.len() == N_VERTICES
        &&& self.vert_to_verts.len() == N_VERTICES
        &&& self.hex_to_verts.len() == N_HEXES
        &&& forall|e: nat| e < N_EDGES ==> #[trigger] self.e2e(e).subset_of(below(N_EDGES as nat))
        &&& forall|e: nat| e < N_EDGES ==> #[trigger] self.e2v(e).subset_of(below(N_VERTICES as nat))
        &&& forall|v: nat| v < N_VERTICES ==> #[trigger] self.v2e(v).subset_of(below(N_EDGES as nat))
        &&& forall|v: nat| v < N_VERTICES ==> #[trigger] self.v2v(v).subset_of(below(N_VERTICES as nat))
        &&& forall|h: nat| h < N_HEXES ==> #[trigger] self.h2v(h).subset_of(below(N_VERTICES as nat))
        &&& forall|e: nat| e < N_EDGES ==> is_pair(#[trigger] self.e2v(e))
        &&& forall|v: nat, e: nat| v < N_VERTICES && e < N_EDGES ==> (#[trigger] self.v2e(v).contains(e) <==> #[trigger] self.e2v(e).contains(v))
        &&& forall|a: nat, b: nat| a < N_EDGES && b < N_EDGES ==> (#[trigger] self.e2e(a).contains(b) <==> #[trigger] self.e2e(b).contains(a))
    }
}

/// Whether every element of `b` is below `n`.
fn within<T: BitboardInt>(b: &Bitboard<T>, n: usize) -> (r: bool)
    requires
        n <= T::width(),
    ensures
        r == b@.subset_of(below(n as nat)),
{
    let width = T::width_exec();
    let mut i = n;
    while i < width
        invariant
            n <= i <= width,
            width == T::width(),
            forall|j: nat| n <= j < i ==> !b@.contains(j),
        decreases width - i,
    {
        if b.contains(i) {
            assert(!below(n as nat).contains(i as nat));
            return false;
        }
        i = i + 1;
    }
    proof {
        b.lemma_view_finite();
        assert forall|j: nat| b@.contains(j) implies below(n as nat).contains(j) by {
            assert(Bitboard::<T>::full().contains(j));
        }
    }
    true
}

/// A finite set has two elements exactly when it is a pair of distinct values.
proof fn lemma_pair_len(s: Set<nat>)
    requires
        s.finite(),
    ensures
        is_pair(s) <==> s.len() == 2,
{
    if s.len() == 2 {
        let a = s.choose();
        let rest = s.remove(a);
        assert(rest.len() == 1);
        let b = rest.choose();
        assert(rest.remove(b).len() == 0);
        assert(rest.remove(b) =~= Set::<nat>::empty());
        assert(s =~= Set::<nat>::empty().insert(a).insert(b));
    }
    if exists|a: nat, b: nat| a != b && s == Set::<nat>::empty().insert(a).insert(b) {
        let (a, b) = choose|a: nat, b: nat| a != b && s == Set::<nat>::empty().insert(a).insert(b);
        assert(Set::<nat>::empty().insert(a).len() == 1);
    }
}

impl Adjacency {
    /// Whether the tables describe a board, as [`Adjacency::wf`] says, on which
    /// every edge has at most five neighbours, itself included.
    pub fn is_valid(&self) -> (r: bool)
        ensures
            r == (self.wf() && sparse(*self)),
    {
        if self.edge_to_edges.len() != N_EDGES || self.edge_to_verts.len() != N_EDGES || self.vert_to_edges.len()
            != N_VERTICES || self.vert_to_verts.len() != N_VERTICES || self.hex_to_verts.len() != N_HEXES {
            return false;
        }
        let mut e: usize = 0;
        while e < N_EDGES
            invariant
                e <= N_EDGES,
                self.edge_to_edges.len() == N_EDGES,
                self.edge_to_verts.len() == N_EDGES,
                forall|x: nat| x < e ==> #[trigger] self.e2e(x).subset_of(below(N_EDGES as nat)),
                forall|x: nat| x < e ==> #[trigger] self.e2v(x).subset_of(below(N_VERTICES as nat)),
                forall|x: nat| x < e ==> is_pair(#[trigger] self.e2v(x)),
                forall|x: nat| x < e ==> #[trigger] self.e2e(x).len() <= 5,
            decreases N_EDGES - e,
        {
            if !within(&self.edge_to_edges[e], N_EDGES) {
                assert(!self.e2e(e as nat).subset_of(below(N_EDGES as nat)));
                return false;
            }
            if !within(&self.edge_to_verts[e], N_VERTICES) {
                assert(!self.e2v(e as nat).subset_of(below(N_VERTICES as nat)));
                return false;
            }
            proof {
                self.edge_to_verts@[e as int].lemma_view_finite();
                lemma_pair_len(self.e2v(e as nat));
            }
            if self.edge_to_verts[e].count_ones() != 2 {
                assert(!is_pair(self.e2v(e as nat)));
                return false;
            }
            if self.edge_to_edges[e].count_ones() > 5 {
                assert(self.e2e(e as nat).len() > 5);
                assert(!sparse(*self));
                return false;
            }
            e = e + 1;
        }
        let mut v: usize = 0;
        while v < N_VERTICES
            invariant
                v <= N_VERTICES,
                self.edge_to_verts.len() == N_EDGES,
                self.vert_to_edges.len() == N_VERTICES,
                self.vert_to_verts.len() == N_VERTICES,
                forall|x: nat| x < v ==> #[trigger] self.v2e(x).subset_of(below(N_EDGES as nat)),
                forall|x: nat| x < v ==> #[trigger] self.v2v(x).subset_of(below(N_VERTICES as nat)),
                forall|x: nat, y: nat| x < v && y < N_EDGES ==> (#[trigger] self.v2e(x).contains(y) <==> #[trigger] self.e2v(y).contains(x)),
            decreases N_VERTICES - v,
        {
            if !within(&self.vert_to_edges[v], N_EDGES) {
                assert(!self.v2e(v as nat).subset_of(below(N_EDGES as nat)));
                return false;
            }
            if !within(&self.vert_to_verts[v], N_VERTICES) {
                assert(!self.v2v(v as nat).subset_of(below(N_VERTICES as nat)));
                return false;
            }
            let mut k: usize = 0;
            while k < N_EDGES
                invariant
                    k <= N_EDGES,
                    v < N_VERTICES,
                    self.edge_to_verts.len() == N_EDGES,
                    self.vert_to_edges.len() == N_VERTICES,
                    forall|y: nat| y < k ==> (#[trigger] self.v2e(v as nat).contains(y) <==> self.e2v(y).contains(v as nat)),
                decreases N_EDGES - k,
            {
                if self.vert_to_edges[v].contains(k) != self.edge_to_verts[k].contains(v) {
                    assert(self.v2e(v as nat).contains(k as nat) != self.e2v(k as nat).contains(v as nat));
                    return false;
                }
                k = k + 1;
            }
            v = v + 1;
        }
        let mut h: usize = 0;
        while h < N_HEXES
            invariant
                h <= N_HEXES,
                self.hex_to_verts.len() == N_HEXES,
                forall|x: nat| x < h ==> #[trigger] self.h2v(x).subset_of(below(N_VERTICES as nat)),
            decreases N_HEXES - h,
        {
            if !within(&self.hex_to_verts[h], N_VERTICES) {
                assert(!self.h2v(h as nat).subset_of(below(N_VERTICES as nat)));
                return false;
            }
            h = h + 1;
        }
        let mut a: usize = 0;
        while a < N_EDGES
            invariant
                a <= N_EDGES,
                self.edge_to_edges.len() == N_EDGES,
                forall|x: nat, y: nat| x < a && y < N_EDGES ==> (#[trigger] self.e2e(x).contains(y) <==> #[trigger] self.e2e(y).contains(x)),
            decreases N_EDGES - a,
        {
            let mut b: usize = 0;
            while b < N_EDGES
                invariant
                    b <= N_EDGES,
                    a < N_EDGES,
                    self.edge_to_edges.len() == N_EDGES,
                    forall|y: nat| y < b ==> (#[trigger] self.e2e(a as nat).contains(y) <==> self.e2e(y).contains(a as nat)),
                decreases N_EDGES - b,
            {
                if self.edge_to_edges[a].contains(b) != self.edge_to_edges[b].contains(a) {
                    assert(self.e2e(a as nat).contains(b as nat) != self.e2e(b as nat).contains(a as nat));
                    return false;
                }
                b = b + 1;
            }
            a = a + 1;
        }
        assert(self.wf());
        true
    }
}

} // verus!
