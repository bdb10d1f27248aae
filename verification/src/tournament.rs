//! The bookkeeping of a tournament between agents: match-up tallies, which
//! agents play next, and when to stop.
use vstd::prelude::*;
use crate::common::Outcome;

verus! {

/// The verdict of a sequential test on a match-up.
#[derive(Debug, Clone, Copy, PartialEq, Eq, Structural)]
pub enum TestResult {
    H0,
    H1,
}

/// The record of one agent against another.
#[derive(Debug, Clone, Copy)]
pub struct Matchup {
    pub wins: usize,
    pub draws: usize,
    pub losses: usize,
    pub test_result: Option<TestResult>,
    /// Whether the match-up is tested for a verdict.
    pub evaluate: bool,
}

impl Matchup {
    pub fn new(evaluate: bool) -> (r: Matchup)
        ensures
            r.wins == 0 && r.draws == 0 && r.losses == 0,
            r.test_result is None,
            r.evaluate == evaluate,
    {
        Matchup { wins: 0, draws: 0, losses: 0, test_result: None, evaluate }
    }

    /// Counts one more game with the given outcome.
    pub fn update(&mut self, outcome: Outcome)
        requires
            outcome == Outcome::Win ==> old(self).wins < usize::MAX,
            outcome == Outcome::Draw ==> old(self).draws < usize::MAX,
            outcome == Outcome::Loss ==> old(self).losses < usize::MAX,
        ensures
            final(self).wins == old(self).wins + if outcome == Outcome::Win { 1int } else { 0int },
            final(self).draws == old(self).draws + if outcome == Outcome::Draw { 1int } else { 0int },
            final(self).losses == old(self).losses + if outcome == Outcome::Loss { 1int } else { 0int },
            final(self).test_result == old(self).test_result,
            final(self).evaluate == old(self).evaluate,
    {
        match outcome {
            Outcome::Win => {
                self.wins = self.wins + 1;
            },
            Outcome::Loss => {
                self.losses = self.losses + 1;
            },
            Outcome::Draw => {
                self.draws = self.draws + 1;
            },
        }
    }
}

/// The match-up is still waiting for a verdict.
pub open spec fn is_open(m: Matchup) -> bool {
    m.evaluate && m.test_result is None
}

/// The pair `(i, j)` has an entry in `ms`.
pub open spec fn lists_pair(ms: Seq<((usize, usize), Matchup)>, i: int, j: int) -> bool {
    exists|k: int| 0 <= k < ms.len() && ms[k].0 == (i as usize, j as usize)
}

/// Every ordered pair of distinct agents, in order, each tested when both
/// agents are.
pub fn init_matchups(evaluate: &Vec<bool>) -> (r: Vec<((usize, usize), Matchup)>)
    requires
        evaluate.len() * evaluate.len() <= usize::MAX,
    ensures
        r.len() == evaluate.len() * evaluate.len() - evaluate.len(),
        forall|k: int| 0 <= k < r.len() ==> {
            let ((i, j), m) = #[trigger] r@[k];
            &&& i < evaluate.len() && j < evaluate.len() && i != j
            &&& m == Matchup { wins: 0, draws: 0, losses: 0, test_result: None, evaluate: evaluate@[i as int] && evaluate@[j as int] }
        },
        forall|i: int, j: int| 0 <= i < evaluate.len() && 0 <= j < evaluate.len() && i != j ==> #[trigger] lists_pair(r@, i, j),
        forall|a: int, b: int| 0 <= a < b < r.len() ==> (#[trigger] r@[a]).0 != (#[trigger] r@[b]).0,
{
    let n = evaluate.len();
    let mut r: Vec<((usize, usize), Matchup)> = Vec::new();
    let mut i: usize = 0;
    while i < n
        invariant
            i <= n,
            n == evaluate.len(),
            n * n <= usize::MAX,
            r.len() == i * n - i,
            forall|k: int| 0 <= k < r.len() ==> {
                let ((a, b), m) = #[trigger] r@[k];
                &&& a < i && b < n && a != b
                &&& m == Matchup { wins: 0, draws: 0, losses: 0, test_result: None, evaluate: evaluate@[a as int] && evaluate@[b as int] }
            },
            forall|a: int, b: int| 0 <= a < i && 0 <= b < n && a != b ==> #[trigger] lists_pair(r@, a, b),
            forall|a: int, b: int| 0 <= a < b < r.len() ==> (#[trigger] r@[a]).0 != (#[trigger] r@[b]).0,
        decreases n - i,
    {
        let mut j: usize = 0;
        let ghost base = r.len();
        proof {
            assert(i * n - i + n - 1 <= n * n) by (nonlinear_arith)
                requires
                    i < n,
            ;
        }
        while j < n
            invariant
                i < n,
                j <= n,
                n == evaluate.len(),
                n * n <= usize::MAX,
                i * n - i + n - 1 <= n * n,
                base == i * n - i,
                r.len() == base + j - if j > i { 1int } else { 0int },
                forall|k: int| 0 <= k < r.len() ==> {
                    let ((a, b), m) = #[trigger] r@[k];
                    &&& (a < i || (a == i && b < j)) && b < n && a != b
                    &&& m == Matchup { wins: 0, draws: 0, losses: 0, test_result: None, evaluate: evaluate@[a as int] && evaluate@[b as int] }
                },
                forall|a: int, b: int| ((0 <= a < i && 0 <= b < n) || (a == i && 0 <= b < j)) && a != b ==> #[trigger] lists_pair(r@, a, b),
                forall|a: int, b: int| 0 <= a < b < r.len() ==> (#[trigger] r@[a]).0 != (#[trigger] r@[b]).0,
            decreases n - j,
        {
            if i != j {
                let m = Matchup::new(evaluate[i] && evaluate[j]);
                let ghost before = r@;
                r.push(((i, j), m));
                proof {
                    assert forall|a: int, b: int| ((0 <= a < i && 0 <= b < n) || (a == i && 0 <= b < j + 1)) && a != b implies #[trigger] lists_pair(r@, a, b) by {
                        if a == i && b == j {
                            assert(r@[r.len() - 1].0 == (a as usize, b as usize));
                        } else {
                            assert(lists_pair(before, a, b));
                            let k = choose|k: int| 0 <= k < before.len() && before[k].0 == (a as usize, b as usize);
                            assert(r@[k] == before[k]);
                        }
                    }
                }
            }
            j = j + 1;
        }
        proof {
            assert((i + 1) * n - (i + 1) == i * n - i + n - 1) by (nonlinear_arith);
        }
        i = i + 1;
    }
    r
}

/// A game to play: the agents that take the seats.
pub struct GameJob {
    pub agents: Vec<usize>,
}

/// The match-up `entry` can seat its agents beside `acc`: it is still being
/// tested, both agents are on the roster, and the game has seats for them.
pub open spec fn fits(entry: ((usize, usize), Matchup), acc: Set<nat>, roster_len: nat, n: nat) -> bool {
    &&& is_open(entry.1)
    &&& entry.0.0 < roster_len
    &&& entry.0.1 < roster_len
    &&& acc.insert(entry.0.0 as nat).insert(entry.0.1 as nat).len() <= n
}

/// The agents gathered from the match-ups of `ms`, in order, added to `acc`
/// pair by pair whenever the pair fits.
pub open spec fn gather_open(ms: Seq<((usize, usize), Matchup)>, acc: Set<nat>, roster_len: nat, n: nat) -> Set<nat>
    decreases ms.len(),
{
    if ms.len() == 0 {
        acc
    } else if fits(ms[0], acc, roster_len, n) {
        gather_open(ms.drop_first(), acc.insert(ms[0].0.0 as nat).insert(ms[0].0.1 as nat), roster_len, n)
    } else {
        gather_open(ms.drop_first(), acc, roster_len, n)
    }
}

/// `acc` topped up with agents `i`, `i + 1`, ... below `roster_len` until it
/// holds `n` agents.
pub open spec fn top_up(acc: Set<nat>, i: nat, roster_len: nat, n: nat) -> Set<nat>
    decreases roster_len - i,
{
    if i >= roster_len || acc.len() >= n {
        acc
    } else {
        top_up(acc.insert(i), i + 1, roster_len, n)
    }
}

/// The agents of the next game: those of the match-ups still being tested,
/// in the order given and as far as they fit, then the first agents of the
/// roster.
pub open spec fn job_agents(ms: Seq<((usize, usize), Matchup)>, roster_len: nat, n: nat) -> Set<nat> {
    top_up(gather_open(ms, Set::empty(), roster_len, n), 0, roster_len, n)
}

/// `k` is the first match-up of `ms` still being tested whose agents are both
/// on the roster.
pub open spec fn first_open(ms: Seq<((usize, usize), Matchup)>, roster_len: nat, k: int) -> bool {
    &&& 0 <= k < ms.len()
    &&& is_open(ms[k].1) && ms[k].0.0 < roster_len && ms[k].0.1 < roster_len
    &&& forall|j: int| 0 <= j < k ==> !(is_open(#[trigger] ms[j].1) && ms[j].0.0 < roster_len && ms[j].0.1 < roster_len)
}

proof fn lemma_gather_grows(ms: Seq<((usize, usize), Matchup)>, acc: Set<nat>, roster_len: nat, n: nat)
    requires
        acc.finite(),
        acc.len() <= n,
        acc.subset_of(Set::new(|x: nat| x < roster_len)),
    ensures
        acc.subset_of(gather_open(ms, acc, roster_len, n)),
        gather_open(ms, acc, roster_len, n).finite(),
        gather_open(ms, acc, roster_len, n).len() <= n,
        gather_open(ms, acc, roster_len, n).subset_of(Set::new(|x: nat| x < roster_len)),
    decreases ms.len(),
{
    if ms.len() > 0 {
        if fits(ms[0], acc, roster_len, n) {
            let next = acc.insert(ms[0].0.0 as nat).insert(ms[0].0.1 as nat);
            lemma_gather_grows(ms.drop_first(), next, roster_len, n);
        } else {
            lemma_gather_grows(ms.drop_first(), acc, roster_len, n);
        }
    }
}

proof fn lemma_gather_first(ms: Seq<((usize, usize), Matchup)>, roster_len: nat, n: nat, k: int)
    requires
        first_open(ms, roster_len, k),
        n >= 2,
    ensures
        gather_open(ms, Set::empty(), roster_len, n).contains(ms[k].0.0 as nat),
        gather_open(ms, Set::empty(), roster_len, n).contains(ms[k].0.1 as nat),
    decreases k,
{
    let e = Set::<nat>::empty();
    if k == 0 {
        let next = e.insert(ms[0].0.0 as nat).insert(ms[0].0.1 as nat);
        assert(next.len() <= 2) by {
            assert(e.insert(ms[0].0.0 as nat).len() == 1);
        }
        assert(fits(ms[0], e, roster_len, n));
        lemma_gather_grows(ms.drop_first(), next, roster_len, n);
    } else {
        assert(!(is_open(ms[0].1) && ms[0].0.0 < roster_len && ms[0].0.1 < roster_len));
        let rest = ms.drop_first();
        assert forall|j: int| 0 <= j < k - 1 implies !(is_open(#[trigger] rest[j].1) && rest[j].0.0 < roster_len
            && rest[j].0.1 < roster_len) by {
            assert(rest[j] == ms[j + 1]);
        }
        assert(rest[k - 1] == ms[k]);
        lemma_gather_first(rest, roster_len, n, k - 1);
    }
}

proof fn lemma_top_up(acc: Set<nat>, i: nat, roster_len: nat, n: nat)
    requires
        acc.finite(),
        acc.len() <= n,
        acc.subset_of(Set::new(|x: nat| x < roster_len)),
        forall|x: nat| x < i ==> acc.contains(x),
    ensures
        acc.subset_of(top_up(acc, i, roster_len, n)),
        top_up(acc, i, roster_len, n).finite(),
        top_up(acc, i, roster_len, n).len() <= n,
        top_up(acc, i, roster_len, n).subset_of(Set::new(|x: nat| x < roster_len)),
        roster_len >= n ==> top_up(acc, i, roster_len, n).len() == n,
    decreases roster_len - i,
{
    if i >= roster_len {
        if roster_len >= n {
            let r = Set::new(|x: nat| x < roster_len);
            crate::bitboard::lemma_nat_range(roster_len);
            assert(r =~= crate::bitboard::nat_range(roster_len));
            assert(acc =~= r);
        }
    } else if acc.len() < n {
        lemma_top_up(acc.insert(i), i + 1, roster_len, n);
    }
}


/// Whether `v` holds `x`.
fn holds(v: &Vec<usize>, x: usize) -> (r: bool)
    ensures
        r == exists|i: int| 0 <= i < v.len() && v@[i] == x,
{
    let mut i: usize = 0;
    while i < v.len()
        invariant
            i <= v.len(),
            forall|j: int| 0 <= j < i ==> v@[j] != x,
        decreases v.len() - i,
    {
        if v[i] == x {
            return true;
        }
        i = i + 1;
    }
    false
}

/// The elements of `v` as a set of indices.
pub open spec fn elems(v: Seq<usize>) -> Set<nat> {
    Set::new(|x: nat| exists|i: int| 0 <= i < v.len() && v[i] == x)
}

/// Adds `x` to `v` unless it is there already.
fn add_agent(v: &mut Vec<usize>, x: usize)
    requires
        old(v)@.no_duplicates(),
        elems(old(v)@).finite(),
        elems(old(v)@).len() == old(v).len(),
    ensures
        final(v)@.no_duplicates(),
        elems(final(v)@) == elems(old(v)@).insert(x as nat),
        elems(final(v)@).finite(),
        elems(final(v)@).len() == final(v).len(),
{
    if !holds(v, x) {
        let ghost before = v@;
        v.push(x);
        proof {
            assert(!elems(before).contains(x as nat));
            assert(elems(v@) =~= elems(before).insert(x as nat)) by {
                assert forall|y: nat| elems(v@).contains(y) implies elems(before).insert(x as nat).contains(y) by {
                    let i = choose|i: int| 0 <= i < v.len() && v@[i] == y;
                    if i < before.len() {
                        assert(before[i] == y);
                    }
                }
                assert forall|y: nat| elems(before).contains(y) implies elems(v@).contains(y) by {
                    let i = choose|i: int| 0 <= i < before.len() && before[i] == y;
                    assert(v@[i] == y);
                }
                assert(v@[v.len() - 1] == x);
            }
        }
    } else {
        proof {
            let i = choose|i: int| 0 <= i < v.len() && v@[i] == x;
            assert(elems(v@).contains(x as nat));
            assert(elems(v@) =~= elems(v@).insert(x as nat));
        }
    }
}

/// Picks the agents of the next game: the agents of the match-ups still being
/// tested, taken pair by pair in the order given as long as the pair fits,
/// and then the first agents of the roster until every seat is taken. Each
/// agent appears once and is on the roster; the first match-up still being
/// tested is always seated when the game has two seats or more.
pub fn select_job(matchups: &Vec<((usize, usize), Matchup)>, roster_len: usize, player_count: usize) -> (r: GameJob)
    ensures
        r.agents@.no_duplicates(),
        elems(r.agents@) == job_agents(matchups@, roster_len as nat, player_count as nat),
        forall|i: int| 0 <= i < r.agents.len() ==> #[trigger] r.agents@[i] < roster_len,
        r.agents.len() <= player_count,
        roster_len >= player_count ==> r.agents.len() == player_count,
        forall|k: int|
            player_count >= 2 && #[trigger] first_open(matchups@, roster_len as nat, k) ==> elems(r.agents@).contains(
                matchups@[k].0.0 as nat,
            ) && elems(r.agents@).contains(matchups@[k].0.1 as nat),
{
    let ghost roster = Set::new(|x: nat| x < roster_len as nat);
    let mut agents: Vec<usize> = Vec::new();
    let mut k: usize = 0;
    proof {
        assert(elems(agents@) =~= Set::<nat>::empty());
        assert(matchups@.subrange(0, matchups.len() as int) =~= matchups@);
    }
    while k < matchups.len()
        invariant
            k <= matchups.len(),
            roster == Set::new(|x: nat| x < roster_len as nat),
            agents@.no_duplicates(),
            elems(agents@).finite(),
            elems(agents@).len() == agents.len(),
            agents.len() <= player_count,
            elems(agents@).subset_of(roster),
            gather_open(matchups@, Set::empty(), roster_len as nat, player_count as nat) == gather_open(
                matchups@.subrange(k as int, matchups.len() as int),
                elems(agents@),
                roster_len as nat,
                player_count as nat,
            ),
        decreases matchups.len() - k,
    {
        let ghost rest = matchups@.subrange(k as int, matchups.len() as int);
        let ghost acc = elems(agents@);
        proof {
            assert(rest.drop_first() =~= matchups@.subrange(k + 1, matchups.len() as int));
            assert(rest[0] == matchups@[k as int]);
        }
        let ((a, b), m) = matchups[k];
        if m.evaluate && m.test_result.is_none() && a < roster_len && b < roster_len {
            let has_a = holds(&agents, a);
            let has_b = a == b || holds(&agents, b);
            let extra: usize = (if has_a { 0 } else { 1 }) + (if has_b { 0 } else { 1 });
            proof {
                assert(acc.insert(a as nat).len() == acc.len() + if has_a { 0int } else { 1int });
                assert(acc.insert(a as nat).contains(b as nat) == has_b);
                assert(acc.insert(a as nat).insert(b as nat).len() == acc.len() + extra);
            }
            if extra <= player_count - agents.len() {
                add_agent(&mut agents, a);
                add_agent(&mut agents, b);
                proof {
                    assert(elems(agents@) == acc.insert(a as nat).insert(b as nat));
                }
            }
        }
        k = k + 1;
    }
    let ghost gathered = elems(agents@);
    proof {
        assert(matchups@.subrange(k as int, matchups.len() as int).len() == 0);
        assert(gathered == gather_open(matchups@, Set::empty(), roster_len as nat, player_count as nat));
        lemma_top_up(gathered, 0, roster_len as nat, player_count as nat);
    }
    let mut i: usize = 0;
    while i < roster_len && agents.len() < player_count
        invariant
            i <= roster_len,
            roster == Set::new(|x: nat| x < roster_len as nat),
            agents@.no_duplicates(),
            elems(agents@).finite(),
            elems(agents@).len() == agents.len(),
            agents.len() <= player_count,
            elems(agents@).subset_of(roster),
            top_up(gathered, 0, roster_len as nat, player_count as nat) == top_up(
                elems(agents@),
                i as nat,
                roster_len as nat,
                player_count as nat,
            ),
        decreases roster_len - i,
    {
        add_agent(&mut agents, i);
        i = i + 1;
    }
    proof {
        lemma_top_up(gathered, 0, roster_len as nat, player_count as nat);
        assert forall|j: int| 0 <= j < agents.len() implies #[trigger] agents@[j] < roster_len by {
            assert(elems(agents@).contains(agents@[j] as nat));
        }
        assert forall|k: int|
            player_count >= 2 && #[trigger] first_open(matchups@, roster_len as nat, k) implies elems(agents@).contains(
                matchups@[k].0.0 as nat,
            ) && elems(agents@).contains(matchups@[k].0.1 as nat) by {
            lemma_gather_first(matchups@, roster_len as nat, player_count as nat, k);
        }
    }
    GameJob { agents }
}

/// What the tournament's scheduler does next.
#[derive(Debug, Clone, Copy, PartialEq, Eq, Structural)]
pub enum Step {
    /// Every tested match-up has a verdict.
    Done,
    /// The user asked to stop.
    Interrupted,
    /// The time allowed has run out.
    TimeUp,
    /// Hand a worker another game.
    Dispatch,
    /// Wait for a game to finish.
    Wait,
}

/// The scheduler's decision once the finished games have been counted: stop
/// when all verdicts are in, when interrupted or when time is up (in that
/// order); otherwise keep every worker busy and wait when all are.
pub fn next_step(verdicts: usize, to_test: usize, interrupted: bool, time_up: bool, in_flight: usize, capacity: usize) -> (r: Step)
    ensures
        r == if verdicts >= to_test {
            Step::Done
        } else if interrupted {
            Step::Interrupted
        } else if time_up {
            Step::TimeUp
        } else if in_flight < capacity {
            Step::Dispatch
        } else {
            Step::Wait
        },
{
    if verdicts >= to_test {
        Step::Done
    } else if interrupted {
        Step::Interrupted
    } else if time_up {
        Step::TimeUp
    } else if in_flight < capacity {
        Step::Dispatch
    } else {
        Step::Wait
    }
}

} // verus!
