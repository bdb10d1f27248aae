//! Dots and boxes on a five-by-five grid of boxes, for four players: whoever
//! closes a box scores it and moves again.
use vstd::prelude::*;
use crate::bitboard::{Bitboard, BitboardInt};
use crate::common::{chars_to_string, Outcome, Player as PlayerTrait};

verus! {

/// Rows of boxes.
pub const R: usize = 5;

/// Columns of boxes.
pub const C: usize = 5;

/// Horizontal edges come first (`C * (R + 1)` of them), then vertical ones.
pub const N_EDGES: usize = 60;

#[derive(Debug, Clone, Copy, PartialEq, Eq, Structural)]
pub enum Player {
    A,
    B,
    C,
    D,
}

/// Which edge of the box at a dot: the top one (`N`) or the left one (`W`).
#[derive(Debug, Clone, Copy, PartialEq, Eq, Structural)]
pub enum Dir {
    N,
    W,
}

/// The `N` or `W` edge of the dot at column `.0`, row `.1`.
#[derive(Debug, Clone, Copy, PartialEq, Eq, Structural)]
pub struct Edge(pub u8, pub u8, pub Dir);

#[derive(Debug, Clone)]
pub struct DotsAndBoxes {
    pub board: u64,
    pub current_player: Player,
    pub score: [u8; 4],
}

impl Player {
    pub open spec fn spec_index(self) -> nat {
        match self {
            Player::A => 0,
            Player::B => 1,
            Player::C => 2,
            Player::D => 3,
        }
    }

    pub open spec fn spec_from_index(n: nat) -> Player {
        if n == 0 {
            Player::A
        } else if n == 1 {
            Player::B
        } else if n == 2 {
            Player::C
        } else {
            Player::D
        }
    }

    pub fn into_usize(self) -> (r: usize)
        ensures
            r == self.spec_index(),
    {
        match self {
            Player::A => 0,
            Player::B => 1,
            Player::C => 2,
            Player::D => 3,
        }
    }

    fn from_usize(n: usize) -> (r: Player)
        requires
            n < 4,
        ensures
            r == Self::spec_from_index(n as nat),
            r.spec_index() == n,
    {
        if n == 0 {
            Player::A
        } else if n == 1 {
            Player::B
        } else if n == 2 {
            Player::C
        } else {
            Player::D
        }
    }
}

impl PlayerTrait for Player {
    open spec fn all() -> Seq<Player> {
        seq![Player::A, Player::B, Player::C, Player::D]
    }

    open spec fn seat(self) -> nat {
        self.spec_index()
    }

    fn list() -> (r: Vec<Player>) {
        let r = vec![Player::A, Player::B, Player::C, Player::D];
        assert(r@ =~= Self::all());
        r
    }

    fn seat_index(self) -> (r: usize) {
        self.into_usize()
    }
}

// ---------------------------------------------------------------------------
// Edge geometry

/// The number of an edge.
pub open spec fn edge_index(e: Edge) -> nat {
    let Edge(x, y, dir) = e;
    match dir {
        Dir::N => (y as nat) * 5 + (x as nat),
        Dir::W => 30 + (y as nat) * 6 + (x as nat),
    }
}

/// The edge lies on the grid.
pub open spec fn edge_in_bounds(e: Edge) -> bool {
    let Edge(x, y, dir) = e;
    match dir {
        Dir::N => x < 5 && y <= 5,
        Dir::W => x <= 5 && y < 5,
    }
}

/// The edge with number `i`.
pub open spec fn edge_of_index(i: nat) -> Edge {
    if i < 30 {
        Edge((i % 5) as u8, (i / 5) as u8, Dir::N)
    } else {
        Edge(((i - 30) % 6) as u8, ((i - 30) / 6) as u8, Dir::W)
    }
}

/// The four edges around the box whose top-left dot is `(x, y)`.
pub open spec fn spec_box_edges(x: u8, y: u8) -> Seq<Edge> {
    seq![
        Edge(x, y, Dir::N),
        Edge(x, y, Dir::W),
        Edge(x, (y + 1) as u8, Dir::N),
        Edge((x + 1) as u8, y, Dir::W),
    ]
}

pub open spec fn sat_dec(v: u8) -> u8 {
    if v == 0 {
        0
    } else {
        (v - 1) as u8
    }
}

/// The top-left dots of the two boxes on either side of an edge; at the border
/// of the grid both are the same box.
pub open spec fn spec_edge_boxes(e: Edge) -> ((u8, u8), (u8, u8)) {
    let Edge(x, y, dir) = e;
    match dir {
        Dir::N => ((x, sat_dec(y)), (x, y)),
        Dir::W => ((sat_dec(x), y), (x, y)),
    }
}

/// The numbers of the edges of `edges` that lie on the grid.
pub open spec fn mask_set(edges: Seq<Edge>) -> Set<nat>
    decreases edges.len(),
{
    if edges.len() == 0 {
        Set::empty()
    } else {
        let rest = mask_set(edges.drop_last());
        if edge_in_bounds(edges.last()) {
            rest.insert(edge_index(edges.last()))
        } else {
            rest
        }
    }
}

/// The box at `(x, y)` is on the grid and all four of its edges are drawn.
pub open spec fn box_complete(drawn: Set<nat>, x: u8, y: u8) -> bool {
    &&& x < 5
    &&& y < 5
    &&& drawn.contains(edge_index(Edge(x, y, Dir::N)))
    &&& drawn.contains(edge_index(Edge(x, y, Dir::W)))
    &&& drawn.contains(edge_index(Edge(x, (y + 1) as u8, Dir::N)))
    &&& drawn.contains(edge_index(Edge((x + 1) as u8, y, Dir::W)))
}

/// The boxes that drawing edge `i` closes, given the edges drawn afterwards.
pub open spec fn boxes_closed(drawn: Set<nat>, i: nat) -> nat {
    let (b1, b2) = spec_edge_boxes(edge_of_index(i));
    (if box_complete(drawn, b1.0, b1.1) {
        1nat
    } else {
        0
    }) + (if b1 != b2 && box_complete(drawn, b2.0, b2.1) {
        1nat
    } else {
        0
    })
}

// ---------------------------------------------------------------------------
// Drawing the grid as text

/// A row of dots: each dot followed by its edge to the right, as dashes when
/// drawn, for the first `n` columns of dot row `y`.
pub open spec fn dot_row(drawn: Set<nat>, y: nat, n: nat) -> Seq<char>
    decreases n,
{
    if n == 0 {
        Seq::empty()
    } else {
        dot_row(drawn, y, (n - 1) as nat) + seq!['.'] + if drawn.contains((5 * y + (n - 1)) as nat) {
            seq!['-', '-', '-']
        } else {
            seq![' ', ' ', ' ']
        }
    }
}

/// A row of walls: each vertical edge of box row `y`, as a bar when drawn,
/// followed by the inside of its box, for the first `n` columns.
pub open spec fn wall_row(drawn: Set<nat>, y: nat, n: nat) -> Seq<char>
    decreases n,
{
    if n == 0 {
        Seq::empty()
    } else {
        wall_row(drawn, y, (n - 1) as nat) + (if drawn.contains((30 + 6 * y + (n - 1)) as nat) {
            seq!['|']
        } else {
            seq![' ']
        }) + if n - 1 < 5 {
            seq![' ', ' ', ' ']
        } else {
            Seq::empty()
        }
    }
}

/// The first `n` dot rows, each followed by its row of walls but the last.
pub open spec fn grid_rows(drawn: Set<nat>, n: nat) -> Seq<char>
    decreases n,
{
    if n == 0 {
        Seq::empty()
    } else {
        let y = (n - 1) as nat;
        grid_rows(drawn, y) + dot_row(drawn, y, 5) + seq!['.', '\n'] + if y < 5 {
            wall_row(drawn, y, 6) + seq!['\n']
        } else {
            Seq::empty()
        }
    }
}

impl Edge {
    pub fn from_index(i: usize) -> (r: Edge)
        requires
            i < N_EDGES,
        ensures
            r == edge_of_index(i as nat),
            edge_in_bounds(r),
            edge_index(r) == i,
    {
        if i < C * (R + 1) {
            let x = i % C;
            let y = i / C;
            Edge(x as u8, y as u8, Dir::N)
        } else {
            let i = i - (C * (R + 1));
            let x = i % (C + 1);
            let y = i / (C + 1);
            Edge(x as u8, y as u8, Dir::W)
        }
    }

    /// The boxes on either side of the edge, as their lists of edges.
    pub fn boxes(&self) -> (r: [Vec<Edge>; 2])
        requires
            self.0 < 255 && self.1 < 255,
        ensures
            ({
                let (b1, b2) = spec_edge_boxes(*self);
                &&& r@[0]@ == spec_box_edges(b1.0, b1.1)
                &&& r@[1]@ == spec_box_edges(b2.0, b2.1)
            }),
    {
        let Edge(x, y, dir) = *self;
        match dir {
            Dir::N => {
                let y0 = if y == 0 {
                    0
                } else {
                    y - 1
                };
                [self.box_edges(x, y0), self.box_edges(x, y)]
            },
            Dir::W => {
                let x0 = if x == 0 {
                    0
                } else {
                    x - 1
                };
                [self.box_edges(x0, y), self.box_edges(x, y)]
            },
        }
    }

    pub fn box_edges(&self, x: u8, y: u8) -> (r: Vec<Edge>)
        requires
            x < 255 && y < 255,
        ensures
            r@ == spec_box_edges(x, y),
    {
        let r = vec![Edge(x, y, Dir::N), Edge(x, y, Dir::W), Edge(x, y + 1, Dir::N), Edge(x + 1, y, Dir::W)];
        assert(r@ =~= spec_box_edges(x, y));
        r
    }

    pub fn index(&self) -> (r: usize)
        ensures
            r == edge_index(*self),
    {
        let Edge(x, y, dir) = *self;
        let x: usize = x as usize;
        let y: usize = y as usize;
        let i = y * C + x;
        match dir {
            Dir::N => i,
            Dir::W => C * (R + 1) + i + y,
        }
    }

    pub fn in_bounds(&self) -> (r: bool)
        ensures
            r == edge_in_bounds(*self),
    {
        let Edge(x, y, dir) = *self;
        let w = C as u8;
        let h = R as u8;
        match dir {
            Dir::N => x < w && y <= h,
            Dir::W => x <= w && y < h,
        }
    }
}

/// Numbering an edge on the grid and reading the number back gives the same edge.
pub proof fn lemma_edge_round_trip(e: Edge)
    requires
        edge_in_bounds(e),
    ensures
        edge_index(e) < N_EDGES,
        edge_of_index(edge_index(e)) == e,
{
}

/// Every number below `N_EDGES` names an edge on the grid that numbers back to it.
pub proof fn lemma_index_round_trip(i: nat)
    requires
        i < N_EDGES,
    ensures
        edge_in_bounds(edge_of_index(i)),
        edge_index(edge_of_index(i)) == i,
{
}

/// The complete boxes, each numbered `5 * y + x` by its top-left dot.
pub open spec fn complete_boxes(drawn: Set<nat>) -> Set<nat> {
    Set::new(|b: nat| b < 25 && box_complete(drawn, (b % 5) as u8, (b / 5) as u8))
}

/// The number of the box with top-left dot `(x, y)`.
pub open spec fn box_number(b: (u8, u8)) -> nat {
    (5 * b.1 + b.0) as nat
}

/// The boxes that an edge borders are exactly those it is one of the four
/// edges of.
proof fn lemma_bordering_boxes(e: nat, b: nat)
    requires
        e < N_EDGES,
        b < 25,
    ensures
        ({
            let (b1, b2) = spec_edge_boxes(edge_of_index(e));
            let x = (b % 5) as u8;
            let y = (b / 5) as u8;
            let around = e == edge_index(Edge(x, y, Dir::N)) || e == edge_index(Edge(x, y, Dir::W)) || e
                == edge_index(Edge(x, (y + 1) as u8, Dir::N)) || e == edge_index(Edge((x + 1) as u8, y, Dir::W));
            around <==> ((x, y) == b1 || (x, y) == b2)
        }),
{
}

/// Drawing an undrawn edge completes exactly the boxes on either side of it
/// whose other three edges were drawn, and changes no other box.
pub proof fn lemma_new_edge_completes(drawn: Set<nat>, e: nat)
    requires
        e < N_EDGES,
        !drawn.contains(e),
    ensures
        complete_boxes(drawn).finite(),
        complete_boxes(drawn.insert(e)).len() == complete_boxes(drawn).len() + boxes_closed(drawn.insert(e), e),
{
    let after = drawn.insert(e);
    let (b1, b2) = spec_edge_boxes(edge_of_index(e));
    let n1 = box_number(b1);
    let n2 = box_number(b2);
    let c1 = box_complete(after, b1.0, b1.1);
    let c2 = b1 != b2 && box_complete(after, b2.0, b2.1);
    let gained = Set::new(|b: nat| (c1 && b == n1) || (c2 && b == n2));
    crate::bitboard::lemma_nat_range(25);
    assert(complete_boxes(drawn).subset_of(crate::bitboard::nat_range(25)));
    assert(complete_boxes(after).subset_of(crate::bitboard::nat_range(25)));
    vstd::set_lib::lemma_len_subset(complete_boxes(drawn), crate::bitboard::nat_range(25));
    assert forall|b: nat| #[trigger] complete_boxes(after).contains(b) <==> complete_boxes(drawn).contains(b) || gained.contains(b) by {
        if b < 25 {
            lemma_bordering_boxes(e, b);
        }
    }
    assert(complete_boxes(after) =~= complete_boxes(drawn) + gained);
    assert(complete_boxes(drawn).disjoint(gained)) by {
        assert forall|b: nat| gained.contains(b) implies !complete_boxes(drawn).contains(b) by {
            if b < 25 {
                lemma_bordering_boxes(e, b);
            }
        }
    }
    if c1 && c2 {
        assert(n1 != n2);
        assert(gained =~= Set::<nat>::empty().insert(n1).insert(n2));
    } else if c1 {
        assert(gained =~= Set::<nat>::empty().insert(n1));
    } else if c2 {
        assert(gained =~= Set::<nat>::empty().insert(n2));
    } else {
        assert(gained =~= Set::<nat>::empty());
    }
    vstd::set_lib::lemma_set_disjoint_lens(complete_boxes(drawn), gained);
}

/// The numbers of the drawn edges of `edges` that lie on the grid, as a bitboard.
fn mask_of(edges: &Vec<Edge>) -> (r: Bitboard<u64>)
    requires
        forall|k: int| 0 <= k < edges.len() ==> (#[trigger] edges[k]).0 < 10 && edges[k].1 < 10,
    ensures
        r@ == mask_set(edges@),
{
    let mut mask = Bitboard::<u64>::zeros();
    let mut k: usize = 0;
    while k < edges.len()
        invariant
            k <= edges.len(),
            forall|j: int| 0 <= j < edges.len() ==> (#[trigger] edges[j]).0 < 10 && edges[j].1 < 10,
            mask@ == mask_set(edges@.subrange(0, k as int)),
        decreases edges.len() - k,
    {
        let e = edges[k];
        assert(edges@.subrange(0, k as int + 1).drop_last() =~= edges@.subrange(0, k as int));
        assert(edges@.subrange(0, k as int + 1).last() == e);
        if e.in_bounds() {
            let i = e.index();
            mask.add(i);
        }
        k = k + 1;
    }
    assert(edges@.subrange(0, edges.len() as int) =~= edges@);
    mask
}

/// Drawn edges counted against the mask of a box: all four are drawn exactly when
/// the box is complete.
proof fn lemma_box_count(drawn: Set<nat>, x: u8, y: u8)
    requires
        x <= 5,
        y <= 5,
    ensures
        mask_set(spec_box_edges(x, y)).finite(),
        mask_set(spec_box_edges(x, y)).intersect(drawn).len() == 4 <==> box_complete(drawn, x, y),
{
    let s = spec_box_edges(x, y);
    reveal_with_fuel(mask_set, 5);
    assert(s.drop_last().drop_last().drop_last().drop_last() =~= Seq::<Edge>::empty());
    let m = mask_set(s);
    let e0 = edge_index(s[0]);
    let e1 = edge_index(s[1]);
    let e2 = edge_index(s[2]);
    let e3 = edge_index(s[3]);
    let full = Set::<nat>::empty().insert(e0).insert(e1).insert(e2).insert(e3);
    assert(m.subset_of(full));
    assert(full.finite());
    assert(full.len() <= 4);
    vstd::set_lib::lemma_len_subset(m, full);
    let mi = m.intersect(drawn);
    vstd::set_lib::lemma_len_subset(mi, m);
    if x < 5 && y < 5 {
        assert(m =~= full);
        assert(e0 != e1 && e0 != e2 && e0 != e3 && e1 != e2 && e1 != e3 && e2 != e3);
        assert(full.len() == 4);
        if box_complete(drawn, x, y) {
            assert(mi =~= m);
        } else {
            let missing = if !drawn.contains(e0) {
                e0
            } else if !drawn.contains(e1) {
                e1
            } else if !drawn.contains(e2) {
                e2
            } else {
                e3
            };
            assert(mi.subset_of(m.remove(missing)));
            vstd::set_lib::lemma_len_subset(mi, m.remove(missing));
        }
    } else {
        let out = if x == 5 {
            e0
        } else {
            e1
        };
        assert(!m.contains(out));
        assert(m.subset_of(full.remove(out)));
        vstd::set_lib::lemma_len_subset(m, full.remove(out));
    }
}

impl DotsAndBoxes {
    pub open spec fn drawn(&self) -> Set<nat> {
        Bitboard { value: self.board }@
    }

    pub fn name() -> (r: String)
        ensures
            r@ == "DotsAndBoxes"@,
    {
        "DotsAndBoxes".to_string()
    }

    pub fn new() -> (r: DotsAndBoxes)
        ensures
            r.drawn() == Set::<nat>::empty(),
            r.current_player == Player::A,
            r.score@ == seq![0u8, 0, 0, 0],
    {
        let r = DotsAndBoxes { board: 0, current_player: Player::A, score: [0, 0, 0, 0] };
        proof {
            let z = Bitboard::<u64> { value: 0 };
            assert forall|i: nat| !z@.contains(i) by {
                if i < 64 {
                    let j = i as u64;
                    assert((0u64 >> j) & 1u64 == 0u64) by (bit_vector);
                }
            }
            assert(r.drawn() =~= Set::<nat>::empty());
            assert(r.score@ =~= seq![0u8, 0, 0, 0]);
        }
        r
    }

    pub fn index(&self, e: &Edge) -> (r: usize)
        ensures
            r == edge_index(*e),
    {
        e.index()
    }

    /// The grid as text: rows of dots joined by dashes where horizontal edges
    /// are drawn, and between them rows of bars where vertical edges are.
    pub fn render(&self) -> (r: String)
        ensures
            r@ == grid_rows(self.drawn(), 6),
    {
        let mut out: Vec<char> = Vec::new();
        let mut y: u8 = 0;
        while y <= 5
            invariant
                y <= 6,
                out@ == grid_rows(self.drawn(), y as nat),
            decreases 6 - y,
        {
            let ghost start = out@;
            let mut x: u8 = 0;
            while x < 5
                invariant
                    x <= 5,
                    y <= 5,
                    out@ == start + dot_row(self.drawn(), y as nat, x as nat),
                decreases 5 - x,
            {
                out.push('.');
                if self.contains(&Edge(x, y, Dir::N)) {
                    out.push('-');
                    out.push('-');
                    out.push('-');
                } else {
                    out.push(' ');
                    out.push(' ');
                    out.push(' ');
                }
                proof {
                    assert(edge_index(Edge(x, y, Dir::N)) == 5 * (y as nat) + (x as nat));
                    assert(out@ =~= start + dot_row(self.drawn(), y as nat, (x + 1) as nat));
                }
                x = x + 1;
            }
            out.push('.');
            out.push('\n');
            let ghost mid = out@;
            if y < 5 {
                let mut x: u8 = 0;
                while x <= 5
                    invariant
                        x <= 6,
                        y < 5,
                        out@ == mid + wall_row(self.drawn(), y as nat, x as nat),
                    decreases 6 - x,
                {
                    if self.contains(&Edge(x, y, Dir::W)) {
                        out.push('|');
                    } else {
                        out.push(' ');
                    }
                    if x < 5 {
                        out.push(' ');
                        out.push(' ');
                        out.push(' ');
                    }
                    proof {
                        assert(edge_index(Edge(x, y, Dir::W)) == 30 + 6 * (y as nat) + (x as nat));
                        assert(out@ =~= mid + wall_row(self.drawn(), y as nat, (x + 1) as nat));
                    }
                    x = x + 1;
                }
                out.push('\n');
            }
            proof {
                assert(out@ =~= grid_rows(self.drawn(), (y + 1) as nat));
            }
            y = y + 1;
        }
        chars_to_string(&out)
    }

    /// Whether edge `e` is drawn.
    pub fn contains(&self, e: &Edge) -> (r: bool)
        requires
            edge_index(*e) < 64,
        ensures
            r == self.drawn().contains(edge_index(*e)),
    {
        let b = Bitboard::new(self.board);
        b.contains(self.index(e))
    }

    /// The edges not yet drawn, in increasing order.
    pub fn get_actions(&self, _player: Player) -> (r: (Vec<usize>, Option<Vec<u32>>))
        ensures
            r.1 is None,
            forall|k: int| 0 <= k < r.0.len() ==> #[trigger] r.0[k] < N_EDGES && !self.drawn().contains(r.0[k] as nat),
            forall|i: nat| i < N_EDGES && !self.drawn().contains(i) ==> exists|k: int| 0 <= k < r.0.len() && #[trigger] r.0[k] == i,
            forall|k: int, j: int| 0 <= k < j < r.0.len() ==> r.0[k] < r.0[j],
    {
        let b = Bitboard::new(self.board);
        let mut actions: Vec<usize> = Vec::new();
        let mut i: usize = 0;
        while i < N_EDGES
            invariant
                i <= N_EDGES,
                b@ == self.drawn(),
                forall|k: int| 0 <= k < actions.len() ==> #[trigger] actions[k] < i && !self.drawn().contains(actions[k] as nat),
                forall|c: nat| c < i && !self.drawn().contains(c) ==> exists|k: int| 0 <= k < actions.len() && #[trigger] actions[k] == c,
                forall|k: int, j: int| 0 <= k < j < actions.len() ==> actions[k] < actions[j],
            decreases N_EDGES - i,
        {
            if !b.contains(i) {
                let ghost before = actions@;
                actions.push(i);
                proof {
                    assert forall|c: nat| c < i + 1 && !self.drawn().contains(c) implies exists|k: int| 0 <= k < actions.len() && #[trigger] actions[k] == c by {
                        if c == i {
                            assert(actions[actions.len() - 1] == c);
                        } else {
                            let k = choose|k: int| 0 <= k < before.len() && #[trigger] before[k] == c;
                            assert(actions[k] == c);
                        }
                    }
                }
            }
            i = i + 1;
        }
        let r: (Vec<usize>, Option<Vec<u32>>) = (actions, None);
        assert forall|c: nat| c < N_EDGES && !self.drawn().contains(c) implies exists|k: int| 0 <= k < r.0.len() && #[trigger] r.0[k] == c by {
            assert(c < i);
            let k = choose|k: int| 0 <= k < r.0.len() && #[trigger] r.0[k] == c;
            assert(r.0[k] == c);
        }
        r
    }

    pub fn current_player(&self) -> (r: Player)
        ensures
            r == self.current_player,
    {
        self.current_player
    }

    /// `new` is `old` after drawing edge `e`: the current player scores one
    /// point per box next to `e` that is complete afterwards, and keeps the
    /// turn after scoring; otherwise the turn passes on.
    pub open spec fn edge_drawn(old: DotsAndBoxes, new: DotsAndBoxes, e: nat) -> bool {
        let gained = boxes_closed(new.drawn(), e);
        let p = old.current_player.spec_index() as int;
        &&& new.drawn() == old.drawn().insert(e)
        &&& new.score@ == old.score@.update(p, (old.score[p] + gained) as u8)
        &&& new.current_player == if gained == 0 {
            Player::spec_from_index(((p + 1) % 4) as nat)
        } else {
            old.current_player
        }
    }

    pub open spec fn total_points(&self) -> int {
        self.score[0] + self.score[1] + self.score[2] + self.score[3]
    }

    /// Draws edge `e`. The current player scores each box that is complete
    /// afterwards on either side of the edge, and moves again if there was one;
    /// otherwise the turn passes to the next player.
    pub fn apply_action(&mut self, e: usize)
        requires
            e < N_EDGES,
            old(self).score[old(self).current_player.spec_index() as int] <= 253,
        ensures
            Self::edge_drawn(*old(self), *final(self), e as nat),
    {
        let mut drawn = Bitboard::new(self.board);
        drawn.add(e);
        self.board = drawn.value;

        let edge = Edge::from_index(e);
        let boxes = edge.boxes();
        let ghost (c1, c2) = spec_edge_boxes(edge);
        let mask1 = mask_of(&boxes[0]);
        let mask2 = mask_of(&boxes[1]);
        proof {
            lemma_box_count(drawn@, c1.0, c1.1);
            lemma_box_count(drawn@, c2.0, c2.1);
        }
        let mut end_turn = true;
        let p = self.current_player.into_usize();

        if mask1.and(drawn).count_ones() == 4 {
            self.score[p] = self.score[p] + 1;
            end_turn = false;
        }
        let same = mask1.equals(&mask2);
        proof {
            lemma_distinct_boxes(e as nat);
        }
        if !same && mask2.and(drawn).count_ones() == 4 {
            self.score[p] = self.score[p] + 1;
            end_turn = false;
        }

        if end_turn {
            let players = Player::list();
            self.current_player = players[(p + 1) % players.len()];
        }
        proof {
            let gained = boxes_closed(self.drawn(), e as nat);
            let pi = old(self).current_player.spec_index() as int;
            assert(self.drawn() == old(self).drawn().insert(e as nat));
            assert(self.score@ == old(self).score@.update(pi, (old(self).score[pi] + gained) as u8));
        }
    }

    /// All edges are drawn.
    pub fn is_terminal(&self) -> (r: bool)
        ensures
            r == (self.drawn().len() == N_EDGES),
    {
        Bitboard::new(self.board).count_ones() == N_EDGES as u32
    }

    pub fn is_random(&self) -> (r: bool)
        ensures
            !r,
    {
        false
    }

    /// Once every edge is drawn, the players with the highest score, in seating order.
    pub fn winners(&self) -> (r: Option<Vec<Player>>)
        ensures
            self.drawn().len() != N_EDGES ==> r is None,
            self.drawn().len() == N_EDGES ==> (r matches Some(w) && w@ == spec_winners(self.score@)),
    {
        if self.is_terminal() {
            let mut max: u8 = 0;
            let mut i: usize = 0;
            while i < 4
                invariant
                    i <= 4,
                    max == max_score(self.score@, i as int),
                decreases 4 - i,
            {
                if self.score[i] > max {
                    max = self.score[i];
                }
                i = i + 1;
            }
            let players = Player::list();
            let mut winners: Vec<Player> = Vec::new();
            let mut j: usize = 0;
            while j < 4
                invariant
                    j <= 4,
                    players@ == Player::all(),
                    max == max_score(self.score@, 4),
                    winners@ == winners_below(self.score@, max, j as int),
                decreases 4 - j,
            {
                if self.score[j] == max {
                    winners.push(players[j]);
                }
                j = j + 1;
            }
            Some(winners)
        } else {
            None
        }
    }

    pub open spec fn spec_outcome(&self, player: Player) -> Option<Outcome> {
        if self.drawn().len() != N_EDGES {
            None
        } else {
            let w = spec_winners(self.score@);
            if w.contains(player) {
                if w.len() > 1 {
                    Some(Outcome::Draw)
                } else {
                    Some(Outcome::Win)
                }
            } else {
                Some(Outcome::Loss)
            }
        }
    }

    /// A sole winner wins, several winners draw, everyone else loses.
    pub fn outcome(&self, player: Player) -> (r: Option<Outcome>)
        ensures
            r == self.spec_outcome(player),
            self.drawn().len() != N_EDGES ==> r is None,
            self.drawn().len() == N_EDGES ==> (r == Some(Outcome::Win) <==> top_alone(self.score@, player.spec_index() as int)),
            self.drawn().len() == N_EDGES ==> (r == Some(Outcome::Draw) <==> top_shared(self.score@, player.spec_index() as int)),
            self.drawn().len() == N_EDGES ==> (r == Some(Outcome::Loss) <==> outscored(self.score@, player.spec_index() as int)),
    {
        proof {
            lemma_outcome_by_scores(*self, player);
        }
        match self.winners() {
            None => None,
            Some(winners) => {
                if contains_player(&winners, player) {
                    if winners.len() > 1 {
                        Some(Outcome::Draw)
                    } else {
                        Some(Outcome::Win)
                    }
                } else {
                    Some(Outcome::Loss)
                }
            },
        }
    }

    /// Between two players: a draw when both or neither are among the winners.
    pub fn pairwise_outcome(&self, player1: Player, player2: Player) -> (r: Option<Outcome>)
        ensures
            self.drawn().len() != N_EDGES ==> r is None,
            self.drawn().len() == N_EDGES ==> {
                let w = spec_winners(self.score@);
                r == Some(
                    if w.contains(player1) == w.contains(player2) {
                        Outcome::Draw
                    } else if w.contains(player1) {
                        Outcome::Win
                    } else {
                        Outcome::Loss
                    },
                )
            },
            self.drawn().len() == N_EDGES ==> (r == Some(Outcome::Draw) <==> at_top(self.score@, player1.spec_index() as int)
                == at_top(self.score@, player2.spec_index() as int)),
            self.drawn().len() == N_EDGES ==> (r == Some(Outcome::Win) <==> at_top(self.score@, player1.spec_index() as int)
                && !at_top(self.score@, player2.spec_index() as int)),
    {
        proof {
            lemma_winners_are_top_scores(self.score@, player1);
            lemma_winners_are_top_scores(self.score@, player2);
        }
        if self.is_terminal() {
            let winners = self.winners();
            match winners {
                Some(winners) => {
                    let p1_win = contains_player(&winners, player1);
                    let p2_win = contains_player(&winners, player2);
                    if p1_win == p2_win {
                        return Some(Outcome::Draw);
                    }
                    if p1_win {
                        return Some(Outcome::Win);
                    }
                    Some(Outcome::Loss)
                },
                None => None,
            }
        } else {
            None
        }
    }
}

/// The two boxes on either side of an edge are the same box exactly when their
/// masks are equal.
proof fn lemma_distinct_boxes(i: nat)
    requires
        i < N_EDGES,
    ensures
        ({
            let (b1, b2) = spec_edge_boxes(edge_of_index(i));
            (mask_set(spec_box_edges(b1.0, b1.1)) == mask_set(spec_box_edges(b2.0, b2.1))) <==> b1 == b2
        }),
{
    let e = edge_of_index(i);
    let (b1, b2) = spec_edge_boxes(e);
    reveal_with_fuel(mask_set, 5);
    let s1 = spec_box_edges(b1.0, b1.1);
    let s2 = spec_box_edges(b2.0, b2.1);
    assert(s1.drop_last().drop_last().drop_last().drop_last() =~= Seq::<Edge>::empty());
    assert(s2.drop_last().drop_last().drop_last().drop_last() =~= Seq::<Edge>::empty());
    if b1 != b2 {
        let m1 = mask_set(s1);
        let m2 = mask_set(s2);
        match e.2 {
            Dir::N => {
                // The box below holds the edge one row down, the one above does not.
                let below = edge_index(Edge(b2.0, (b2.1 + 1) as u8, Dir::N));
                if edge_in_bounds(Edge(b2.0, (b2.1 + 1) as u8, Dir::N)) {
                    assert(m2.contains(below));
                    assert(!m1.contains(below));
                } else {
                    let top = edge_index(Edge(b1.0, b1.1, Dir::N));
                    assert(m1.contains(top));
                    assert(!m2.contains(top));
                }
            },
            Dir::W => {
                let right = edge_index(Edge((b2.0 + 1) as u8, b2.1, Dir::W));
                if edge_in_bounds(Edge((b2.0 + 1) as u8, b2.1, Dir::W)) {
                    assert(m2.contains(right));
                    assert(!m1.contains(right));
                } else {
                    let left = edge_index(Edge(b1.0, b1.1, Dir::W));
                    assert(m1.contains(left));
                    assert(!m2.contains(left));
                }
            },
        }
    }
}

/// The highest of the first `n` scores.
pub open spec fn max_score(score: Seq<u8>, n: int) -> u8
    decreases n,
{
    if n <= 0 {
        0
    } else {
        let m = max_score(score, n - 1);
        if score[n - 1] > m {
            score[n - 1]
        } else {
            m
        }
    }
}

/// The players among the first `n` seats whose score is `max`.
pub open spec fn winners_below(score: Seq<u8>, max: u8, n: int) -> Seq<Player>
    decreases n,
{
    if n <= 0 {
        Seq::empty()
    } else {
        let w = winners_below(score, max, n - 1);
        if score[n - 1] == max {
            w.push(Player::spec_from_index((n - 1) as nat))
        } else {
            w
        }
    }
}

/// The players with the highest score, in seating order.
pub open spec fn spec_winners(score: Seq<u8>) -> Seq<Player> {
    winners_below(score, max_score(score, 4), 4)
}

fn contains_player(players: &Vec<Player>, p: Player) -> (r: bool)
    ensures
        r == players@.contains(p),
{
    let mut i: usize = 0;
    while i < players.len()
        invariant
            i <= players.len(),
            forall|k: int| 0 <= k < i ==> players[k] != p,
        decreases players.len() - i,
    {
        if players[i] == p {
            return true;
        }
        i = i + 1;
    }
    false
}

/// Every point is a completed box: a new game has neither, and drawing an
/// undrawn edge adds as many points as it completes boxes, so the scores
/// always add up to the number of complete boxes.
pub proof fn lemma_points_are_boxes(old: DotsAndBoxes, new: DotsAndBoxes, e: nat)
    requires
        old.total_points() == complete_boxes(old.drawn()).len(),
        e < N_EDGES,
        !old.drawn().contains(e),
        DotsAndBoxes::edge_drawn(old, new, e),
    ensures
        new.total_points() == complete_boxes(new.drawn()).len(),
{
    lemma_new_edge_completes(old.drawn(), e);
    crate::bitboard::lemma_nat_range(25);
    vstd::set_lib::lemma_len_subset(complete_boxes(old.drawn()), crate::bitboard::nat_range(25));
    let p = old.current_player.spec_index() as int;
    let gained = boxes_closed(new.drawn(), e);
    assert(old.score[p] <= 25);
    assert(new.score[p] == old.score[p] + gained);
    assert(new.total_points() == old.total_points() + gained) by {
        if p == 0 {
        } else if p == 1 {
        } else if p == 2 {
        } else {
        }
    }
}

/// The player's score is above every other player's.
pub open spec fn top_alone(score: Seq<u8>, i: int) -> bool {
    forall|j: int| 0 <= j < 4 && j != i ==> score[j] < score[i]
}

/// The player's score is the highest, and some other player has it too.
pub open spec fn top_shared(score: Seq<u8>, i: int) -> bool {
    &&& forall|j: int| 0 <= j < 4 ==> score[j] <= score[i]
    &&& exists|j: int| 0 <= j < 4 && j != i && score[j] == score[i]
}

/// Some player scored more than the player.
pub open spec fn outscored(score: Seq<u8>, i: int) -> bool {
    exists|j: int| 0 <= j < 4 && score[j] > score[i]
}

/// Before every edge is drawn there is no outcome. Once it is, a player wins
/// when its score is above every other player's, draws when it shares the
/// highest score with another player, and loses when some player scored more.
pub proof fn lemma_outcome_by_scores(g: DotsAndBoxes, player: Player)
    ensures
        g.drawn().len() != N_EDGES ==> g.spec_outcome(player) is None,
        g.drawn().len() == N_EDGES ==> {
            let i = player.spec_index() as int;
            &&& (g.spec_outcome(player) == Some(Outcome::Win)) <==> top_alone(g.score@, i)
            &&& (g.spec_outcome(player) == Some(Outcome::Draw)) <==> top_shared(g.score@, i)
            &&& (g.spec_outcome(player) == Some(Outcome::Loss)) <==> outscored(g.score@, i)
        },
{
    let s = g.score@;
    let i = player.spec_index() as int;
    let m = max_score(s, 4);
    let w = spec_winners(s);
    lemma_max_score(s, 4);
    lemma_winners_below(s, m, 4);
    assert(w.contains(player) <==> s[i] == m);
    if g.drawn().len() == N_EDGES {
        if s[i] == m {
            if w.len() > 1 {
                let (j, k) = choose|j: int, k: int| 0 <= j < 4 && 0 <= k < 4 && s[j] == m && s[k] == m && j != k;
                if j == i {
                    assert(s[k] == s[i]);
                } else {
                    assert(s[j] == s[i]);
                }
                assert(!top_alone(s, i));
            } else {
                assert forall|j: int| 0 <= j < 4 && j != i implies s[j] < s[i] by {
                    if s[j] == m {
                        assert(s[j] == m && s[i] == m);
                    }
                }
                assert(!top_shared(s, i));
            }
        } else {
            let j = choose|j: int| 0 <= j < 4 && s[j] == m;
            assert(s[j] > s[i]);
            assert(outscored(s, i));
        }
    }
}

proof fn lemma_max_score(s: Seq<u8>, n: int)
    requires
        0 < n <= s.len(),
    ensures
        forall|j: int| 0 <= j < n ==> s[j] <= max_score(s, n),
        exists|j: int| 0 <= j < n && s[j] == max_score(s, n),
    decreases n,
{
    if n > 1 {
        lemma_max_score(s, n - 1);
        let j = choose|j: int| 0 <= j < n - 1 && s[j] == max_score(s, n - 1);
        if s[n - 1] <= max_score(s, n - 1) {
            assert(s[j] == max_score(s, n));
        }
    } else {
        assert(max_score(s, 0) == 0);
        assert(s[0] == max_score(s, 1));
    }
}

proof fn lemma_winners_below(s: Seq<u8>, max: u8, n: int)
    requires
        0 <= n <= 4,
        s.len() == 4,
    ensures
        forall|p: Player| #[trigger] winners_below(s, max, n).contains(p) <==> (p.spec_index() < n && s[p.spec_index() as int]
            == max),
        winners_below(s, max, n).len() > 1 <==> exists|j: int, k: int|
            0 <= j < n && 0 <= k < n && s[j] == max && s[k] == max && j != k,
        winners_below(s, max, n).len() == 0 <==> forall|j: int| 0 <= j < n ==> s[j] != max,
    decreases n,
{
    if n > 0 {
        lemma_winners_below(s, max, n - 1);
        let w = winners_below(s, max, n - 1);
        let q = Player::spec_from_index((n - 1) as nat);
        assert(q.spec_index() == n - 1);
        if s[n - 1] == max {
            assert forall|p: Player| #[trigger] w.push(q).contains(p) <==> (p.spec_index() < n && s[p.spec_index() as int]
                == max) by {
                if p.spec_index() == n - 1 {
                    assert(p == q);
                    assert(w.push(q)[w.len() as int] == q);
                }
                if w.push(q).contains(p) && p != q {
                    let k = choose|k: int| 0 <= k < w.push(q).len() && w.push(q)[k] == p;
                    assert(w.contains(p)) by {
                        assert(w[k] == p);
                    }
                }
                if w.contains(p) {
                    let k = choose|k: int| 0 <= k < w.len() && w[k] == p;
                    assert(w.push(q)[k] == p);
                }
            }
            if w.len() > 0 {
                let j = choose|j: int| 0 <= j < n - 1 && s[j] == max;
                assert(s[j] == max && s[n - 1] == max && j != n - 1);
            }
            if exists|j: int, k: int| 0 <= j < n && 0 <= k < n && s[j] == max && s[k] == max && j != k {
                let (j, k) = choose|j: int, k: int| 0 <= j < n && 0 <= k < n && s[j] == max && s[k] == max && j != k;
                let o = if j == n - 1 { k } else { j };
                assert(0 <= o < n - 1 && s[o] == max);
            }
        }
    }
}

/// The player has a highest score, alone or shared.
pub open spec fn at_top(score: Seq<u8>, i: int) -> bool {
    forall|j: int| 0 <= j < 4 ==> score[j] <= score[i]
}

/// The winners of a finished game are the players with a highest score, so
/// between two players the one at the top alone wins, and two players both at
/// the top or both below it draw.
pub proof fn lemma_winners_are_top_scores(score: Seq<u8>, player: Player)
    requires
        score.len() == 4,
    ensures
        spec_winners(score).contains(player) <==> at_top(score, player.spec_index() as int),
{
    let m = max_score(score, 4);
    lemma_max_score(score, 4);
    lemma_winners_below(score, m, 4);
    let i = player.spec_index() as int;
    if at_top(score, i) {
        let j = choose|j: int| 0 <= j < 4 && score[j] == m;
        assert(score[j] <= score[i]);
    }
}

/// A new game starts with no points and no complete box.
pub proof fn lemma_no_points_at_start(g: DotsAndBoxes)
    requires
        g.drawn() == Set::<nat>::empty(),
        g.score@ == seq![0u8, 0, 0, 0],
    ensures
        g.total_points() == complete_boxes(g.drawn()).len(),
        g.total_points() == 0,
{
    assert(complete_boxes(g.drawn()) =~= Set::<nat>::empty());
}

} // verus!
