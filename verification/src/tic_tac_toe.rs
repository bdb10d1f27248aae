//! Tic-tac-toe, and a player that follows the classic rule-based strategy:
//! win, block, fork, block a fork, then the centre, the corner opposite the
//! opponent, a free corner and a free side.
use vstd::prelude::*;
use crate::common::{chars_to_string, Outcome, Player as PlayerTrait};

verus! {

#[derive(Debug, Clone, Copy, PartialEq, Eq, Structural)]
pub enum Player {
    X,
    O,
}

/// A board position, 0 to 8, row by row.
#[derive(Debug, Clone, Copy, PartialEq, Eq, Structural)]
pub struct Cell(pub u8);

#[derive(Debug, Clone)]
pub struct TicTacToe {
    pub board: [Option<Player>; 9],
    pub current_player: Player,
}

/// The board as the contracts see it.
pub type Board = Seq<Option<Player>>;

impl Player {
    pub open spec fn spec_index(self) -> nat {
        match self {
            Player::X => 0,
            Player::O => 1,
        }
    }

    pub open spec fn spec_other(self) -> Player {
        match self {
            Player::X => Player::O,
            Player::O => Player::X,
        }
    }

    pub fn into_usize(self) -> (r: usize)
        ensures
            r == self.spec_index(),
    {
        match self {
            Player::X => 0,
            Player::O => 1,
        }
    }
}

impl PlayerTrait for Player {
    open spec fn all() -> Seq<Player> {
        seq![Player::X, Player::O]
    }

    open spec fn seat(self) -> nat {
        self.spec_index()
    }

    fn list() -> (r: Vec<Player>) {
        let r = vec![Player::X, Player::O];
        assert(r@ =~= Self::all());
        r
    }

    fn seat_index(self) -> (r: usize) {
        self.into_usize()
    }
}

impl Cell {
    pub fn into_usize(self) -> (r: usize)
        ensures
            r == self.0,
    {
        self.0 as usize
    }

    /// The cell with number `val`, read modulo 256.
    pub fn from_usize(val: usize) -> (r: Cell)
        ensures
            r.0 == val % 256,
    {
        Cell((val % 256) as u8)
    }
}

// ---------------------------------------------------------------------------
// Lines

/// The eight lines of the board: three rows, three columns, two diagonals.
pub open spec fn line(k: int) -> (int, int, int) {
    if k == 0 {
        (0, 1, 2)
    } else if k == 1 {
        (3, 4, 5)
    } else if k == 2 {
        (6, 7, 8)
    } else if k == 3 {
        (0, 3, 6)
    } else if k == 4 {
        (1, 4, 7)
    } else if k == 5 {
        (2, 5, 8)
    } else if k == 6 {
        (0, 4, 8)
    } else {
        (2, 4, 6)
    }
}

fn line_cells(k: usize) -> (r: (usize, usize, usize))
    requires
        k < 8,
    ensures
        r.0 == line(k as int).0,
        r.1 == line(k as int).1,
        r.2 == line(k as int).2,
        r.0 < 9 && r.1 < 9 && r.2 < 9,
{
    if k == 0 {
        (0, 1, 2)
    } else if k == 1 {
        (3, 4, 5)
    } else if k == 2 {
        (6, 7, 8)
    } else if k == 3 {
        (0, 3, 6)
    } else if k == 4 {
        (1, 4, 7)
    } else if k == 5 {
        (2, 5, 8)
    } else if k == 6 {
        (0, 4, 8)
    } else {
        (2, 4, 6)
    }
}

/// Line `k` holds three marks of one player.
pub open spec fn line_won(b: Board, k: int) -> bool {
    let (x, y, z) = line(k);
    b[x] is Some && b[x] == b[y] && b[y] == b[z]
}

/// The owner of the first won line from line `k` on.
pub open spec fn first_winner(b: Board, k: int) -> Option<Player>
    decreases 8 - k,
{
    if k >= 8 {
        None
    } else if line_won(b, k) {
        b[line(k).0]
    } else {
        first_winner(b, k + 1)
    }
}

pub open spec fn count_marks(b: Board, k: int, p: Player) -> nat {
    let (x, y, z) = line(k);
    (if b[x] == Some(p) {
        1nat
    } else {
        0
    }) + (if b[y] == Some(p) {
        1nat
    } else {
        0
    }) + (if b[z] == Some(p) {
        1nat
    } else {
        0
    })
}

pub open spec fn count_empty(b: Board, k: int) -> nat {
    let (x, y, z) = line(k);
    (if b[x] is None {
        1nat
    } else {
        0
    }) + (if b[y] is None {
        1nat
    } else {
        0
    }) + (if b[z] is None {
        1nat
    } else {
        0
    })
}

/// The empty cell of line `k`, taking the first one.
pub open spec fn empty_cell(b: Board, k: int) -> nat {
    let (x, y, z) = line(k);
    if b[x] is None {
        x as nat
    } else if b[y] is None {
        y as nat
    } else {
        z as nat
    }
}

/// Line `k` holds two marks of `p` and one empty cell: `p` wins by playing there.
pub open spec fn line_threat(b: Board, k: int, p: Player) -> bool {
    count_marks(b, k, p) == 2 && count_empty(b, k) == 1
}

/// The cells that would complete a line for `p`, in the order of the first line
/// through each of them, considering lines `0..k`.
pub open spec fn threats(b: Board, p: Player, k: int) -> Seq<nat>
    decreases k,
{
    if k <= 0 {
        Seq::empty()
    } else {
        let t = threats(b, p, k - 1);
        if line_threat(b, k - 1, p) && !t.contains(empty_cell(b, k - 1)) {
            t.push(empty_cell(b, k - 1))
        } else {
            t
        }
    }
}

pub open spec fn all_threats(b: Board, p: Player) -> Seq<nat> {
    threats(b, p, 8)
}

/// Playing `c` gives `p` two threats at once.
pub open spec fn is_fork(b: Board, p: Player, c: nat) -> bool {
    c < 9 && b[c as int] is None && all_threats(b.update(c as int, Some(p)), p).len() >= 2
}

/// The fork cells of `p` below `n`, in increasing order.
pub open spec fn forks(b: Board, p: Player, n: nat) -> Seq<nat>
    decreases n,
{
    if n == 0 {
        Seq::empty()
    } else {
        let f = forks(b, p, (n - 1) as nat);
        if is_fork(b, p, (n - 1) as nat) {
            f.push((n - 1) as nat)
        } else {
            f
        }
    }
}

pub open spec fn all_forks(b: Board, p: Player) -> Seq<nat> {
    forks(b, p, 9)
}

pub open spec fn board_full(b: Board) -> bool {
    forall|i: int| 0 <= i < 9 ==> #[trigger] b[i] is Some
}

proof fn lemma_threats_shape(b: Board, p: Player, k: int)
    requires
        b.len() == 9,
        0 <= k <= 8,
    ensures
        threats(b, p, k).no_duplicates(),
        forall|i: int|
            0 <= i < threats(b, p, k).len() ==> #[trigger] threats(b, p, k)[i] < 9 && b[threats(
                b,
                p,
                k,
            )[i] as int] is None,
        threats(b, p, k).len() <= k,
    decreases k,
{
    if k > 0 {
        lemma_threats_shape(b, p, k - 1);
    }
}

// ---------------------------------------------------------------------------
// The game

impl TicTacToe {
    /// The board as three lines of `X`, `O` and `.`.
    pub fn render(&self) -> (r: String)
        ensures
            r@ == board_text(self.board@, 9),
    {
        let mut out: Vec<char> = Vec::new();
        let mut i: usize = 0;
        while i < 9
            invariant
                i <= 9,
                out@ == board_text(self.board@, i as nat),
            decreases 9 - i,
        {
            let c = match self.board[i] {
                Some(Player::X) => 'X',
                Some(Player::O) => 'O',
                None => '.',
            };
            out.push(c);
            if i % 3 == 2 {
                out.push('\n');
            }
            proof {
                assert(out@ =~= board_text(self.board@, (i + 1) as nat));
            }
            i = i + 1;
        }
        chars_to_string(&out)
    }

    pub fn name() -> (r: String)
        ensures
            r@ == "TicTacToe"@,
    {
        "TicTacToe".to_string()
    }

    pub fn new() -> (r: TicTacToe)
        ensures
            forall|i: int| 0 <= i < 9 ==> #[trigger] r.board@[i] is None,
            r.current_player == Player::X,
    {
        TicTacToe { board: [None;9], current_player: Player::X }
    }

    /// The owner of the first won line, rows first, then columns, then diagonals.
    pub fn check_winner(&self) -> (r: Option<Player>)
        ensures
            r == first_winner(self.board@, 0),
    {
        let mut k: usize = 0;
        while k < 8
            invariant
                k <= 8,
                first_winner(self.board@, 0) == first_winner(self.board@, k as int),
            decreases 8 - k,
        {
            let (a, b, c) = line_cells(k);
            if self.board[a].is_some() && self.board[a] == self.board[b] && self.board[b]
                == self.board[c] {
                return self.board[a];
            }
            k = k + 1;
        }
        None
    }

    /// The empty cells, in increasing order.
    pub fn get_actions(&self, _player: Player) -> (r: (Vec<Cell>, Option<Vec<u32>>))
        ensures
            r.1 is None,
            forall|i: int| 0 <= i < r.0.len() ==> (#[trigger] r.0[i]).0 < 9 && self.board@[r.0[i].0 as int] is None,
            forall|c: int| 0 <= c < 9 && self.board@[c] is None ==> exists|i: int| 0 <= i < r.0.len() && #[trigger] r.0[i].0 == c,
            forall|i: int, j: int| 0 <= i < j < r.0.len() ==> r.0[i].0 < r.0[j].0,
    {
        let mut cells: Vec<Cell> = Vec::new();
        let mut i: usize = 0;
        while i < 9
            invariant
                i <= 9,
                forall|k: int| 0 <= k < cells.len() ==> (#[trigger] cells[k]).0 < i && self.board@[cells[k].0 as int] is None,
                forall|c: int| 0 <= c < i && self.board@[c] is None ==> exists|k: int| 0 <= k < cells.len() && #[trigger] cells[k].0 == c,
                forall|k: int, j: int| 0 <= k < j < cells.len() ==> cells[k].0 < cells[j].0,
            decreases 9 - i,
        {
            if self.board[i].is_none() {
                let ghost before = cells@;
                cells.push(Cell(i as u8));
                proof {
                    assert forall|c: int| 0 <= c < i + 1 && self.board@[c] is None implies exists|k: int| 0 <= k < cells.len() && #[trigger] cells[k].0 == c by {
                        if c == i {
                            assert(cells[cells.len() - 1].0 == c);
                        } else {
                            let k = choose|k: int| 0 <= k < before.len() && #[trigger] before[k].0 == c;
                            assert(cells[k].0 == c);
                        }
                    }
                }
            }
            i = i + 1;
        }
        (cells, None)
    }

    pub fn current_player(&self) -> (r: Player)
        ensures
            r == self.current_player,
    {
        self.current_player
    }

    /// Marks `mv` for the current player, who then hands over the turn.
    pub fn apply_action(&mut self, mv: Cell)
        requires
            mv.0 < 9,
        ensures
            final(self).board@ == old(self).board@.update(mv.0 as int, Some(old(self).current_player)),
            final(self).current_player == old(self).current_player.spec_other(),
    {
        self.board[mv.0 as usize] = Some(self.current_player);
        self.current_player = if self.current_player == Player::X {
            Player::O
        } else {
            Player::X
        };
    }

    pub open spec fn spec_is_terminal(&self) -> bool {
        first_winner(self.board@, 0) is Some || board_full(self.board@)
    }

    /// The game is over when a line is won or the board is full.
    pub fn is_terminal(&self) -> (r: bool)
        ensures
            r == self.spec_is_terminal(),
    {
        if self.check_winner().is_some() {
            return true;
        }
        let (actions, _) = self.get_actions(self.current_player);
        if actions.len() == 0 {
            assert(board_full(self.board@));
            true
        } else {
            assert(self.board@[actions[0].0 as int] is None);
            false
        }
    }

    pub open spec fn spec_outcome(&self, player: Player) -> Option<Outcome> {
        if !self.spec_is_terminal() {
            None
        } else {
            match first_winner(self.board@, 0) {
                Some(w) => Some(
                    if w == player {
                        Outcome::Win
                    } else {
                        Outcome::Loss
                    },
                ),
                None => Some(Outcome::Draw),
            }
        }
    }

    pub fn outcome(&self, player: Player) -> (r: Option<Outcome>)
        ensures
            r == self.spec_outcome(player),
    {
        if self.is_terminal() {
            if let Some(winner) = self.check_winner() {
                if winner == player {
                    Some(Outcome::Win)
                } else {
                    Some(Outcome::Loss)
                }
            } else {
                Some(Outcome::Draw)
            }
        } else {
            None
        }
    }

    pub fn pairwise_outcome(&self, player1: Player, _player2: Player) -> (r: Option<Outcome>)
        ensures
            r == self.spec_outcome(player1),
    {
        self.outcome(player1)
    }

    pub fn is_random(&self) -> (r: bool)
        ensures
            !r,
    {
        false
    }
}

// ---------------------------------------------------------------------------
// The strategy

/// The mark of a cell: `X`, `O`, or `.` when empty.
pub open spec fn mark(c: Option<Player>) -> char {
    match c {
        Some(Player::X) => 'X',
        Some(Player::O) => 'O',
        None => '.',
    }
}

/// The first `n` cells as text, a line break after each row of three.
pub open spec fn board_text(b: Board, n: nat) -> Seq<char>
    decreases n,
{
    if n == 0 {
        Seq::empty()
    } else {
        board_text(b, (n - 1) as nat) + seq![mark(b[n - 1])] + if (n - 1) % 3 == 2 {
            seq!['\n']
        } else {
            Seq::empty()
        }
    }
}

/// The classic strategy: win, block, fork, block a fork, take the centre, the
/// corner opposite the opponent, any corner, any side.
pub struct Optimal;

/// The first cell from `c` on where `p` can make a single threat whose forced
/// block leaves the opponent no fork; with `strict`, the forced block must also
/// be one of the opponent's fork cells.
pub open spec fn first_safe_threat(b: Board, p: Player, strict: bool, c: nat) -> Option<nat>
    decreases 9 - c,
{
    if c >= 9 {
        None
    } else if safe_threat(b, p, strict, c) {
        Some(c)
    } else {
        first_safe_threat(b, p, strict, c + 1)
    }
}

pub open spec fn safe_threat(b: Board, p: Player, strict: bool, c: nat) -> bool {
    let opp = p.spec_other();
    let sim = b.update(c as int, Some(p));
    let t = all_threats(sim, p);
    &&& c < 9
    &&& b[c as int] is None
    &&& t.len() == 1
    &&& strict ==> all_forks(b, opp).contains(t[0])
    &&& all_forks(sim.update(t[0] as int, Some(opp)), opp).len() == 0
}

/// The first of `cells` (in order) that is empty.
pub open spec fn first_empty(b: Board, cells: Seq<nat>) -> Option<nat>
    decreases cells.len(),
{
    if cells.len() == 0 {
        None
    } else if b[cells[0] as int] is None {
        Some(cells[0])
    } else {
        first_empty(b, cells.drop_first())
    }
}

/// The corner opposite a corner of the opponent, for the corner pairs (0, 8)
/// and (2, 6) in turn.
pub open spec fn opposite_corner(b: Board, opp: Player) -> Option<nat> {
    if b[0] == Some(opp) && b[8] is None {
        Some(8)
    } else if b[8] == Some(opp) && b[0] is None {
        Some(0)
    } else if b[2] == Some(opp) && b[6] is None {
        Some(6)
    } else if b[6] == Some(opp) && b[2] is None {
        Some(2)
    } else {
        None
    }
}

/// The cell the strategy plays for `p`.
pub open spec fn strategy(b: Board, p: Player) -> nat {
    let opp = p.spec_other();
    let own = all_threats(b, p);
    let theirs = all_threats(b, opp);
    let my_forks = all_forks(b, p);
    let opp_forks = all_forks(b, opp);
    if own.len() > 0 {
        own[0]
    } else if theirs.len() > 0 {
        theirs[0]
    } else if my_forks.len() > 0 {
        my_forks[0]
    } else if opp_forks.len() > 0 {
        if opp_forks.len() == 1 {
            opp_forks[0]
        } else if first_safe_threat(b, p, true, 0) is Some {
            first_safe_threat(b, p, true, 0).unwrap()
        } else if first_safe_threat(b, p, false, 0) is Some {
            first_safe_threat(b, p, false, 0).unwrap()
        } else {
            opp_forks[0]
        }
    } else if b[4] is None {
        4
    } else if opposite_corner(b, opp) is Some {
        opposite_corner(b, opp).unwrap()
    } else if first_empty(b, seq![0nat, 2, 6, 8]) is Some {
        first_empty(b, seq![0nat, 2, 6, 8]).unwrap()
    } else {
        first_empty(b, seq![1nat, 3, 5, 7]).unwrap()
    }
}

fn contains_cell(cells: &Vec<usize>, x: usize) -> (r: bool)
    ensures
        r == cells@.contains(x),
{
    let mut i: usize = 0;
    while i < cells.len()
        invariant
            i <= cells.len(),
            forall|k: int| 0 <= k < i ==> cells[k] != x,
        decreases cells.len() - i,
    {
        if cells[i] == x {
            return true;
        }
        i = i + 1;
    }
    false
}

pub open spec fn as_nats(v: Seq<usize>) -> Seq<nat> {
    v.map_values(|x: usize| x as nat)
}

impl Optimal {
    pub fn other(player: Player) -> (r: Player)
        ensures
            r == player.spec_other(),
    {
        match player {
            Player::X => Player::O,
            Player::O => Player::X,
        }
    }

    /// The distinct cells that would complete a line for `player`.
    pub fn threat_cells(board: &[Option<Player>; 9], player: Player) -> (r: Vec<usize>)
        ensures
            as_nats(r@) == all_threats(board@, player),
    {
        let mut cells: Vec<usize> = Vec::new();
        let mut k: usize = 0;
        while k < 8
            invariant
                k <= 8,
                as_nats(cells@) == threats(board@, player, k as int),
            decreases 8 - k,
        {
            let (a, b, c) = line_cells(k);
            let marks = (if board[a] == Some(player) {
                1usize
            } else {
                0
            }) + (if board[b] == Some(player) {
                1usize
            } else {
                0
            }) + (if board[c] == Some(player) {
                1usize
            } else {
                0
            });
            let empties = (if board[a].is_none() {
                1usize
            } else {
                0
            }) + (if board[b].is_none() {
                1usize
            } else {
                0
            }) + (if board[c].is_none() {
                1usize
            } else {
                0
            });
            if marks == 2 && empties == 1 {
                let cell = if board[a].is_none() {
                    a
                } else if board[b].is_none() {
                    b
                } else {
                    c
                };
                assert(cell == empty_cell(board@, k as int));
                if !contains_cell(&cells, cell) {
                    proof {
                        assert(!threats(board@, player, k as int).contains(cell as nat)) by {
                            if threats(board@, player, k as int).contains(cell as nat) {
                                let j = choose|j: int| 0 <= j < cells@.len() && as_nats(cells@)[j] == cell as nat;
                                assert(cells@.contains(cells@[j]));
                            }
                        }
                    }
                    cells.push(cell);
                    assert(as_nats(cells@) =~= threats(board@, player, k as int + 1));
                } else {
                    assert(threats(board@, player, k as int).contains(cell as nat)) by {
                        let j = choose|j: int| 0 <= j < cells@.len() && cells@[j] == cell;
                        assert(as_nats(cells@)[j] == cell as nat);
                    }
                }
            }
            k = k + 1;
        }
        cells
    }

    /// The empty cells where `player` would make two threats at once, in increasing order.
    pub fn fork_moves(board: &[Option<Player>; 9], player: Player) -> (r: Vec<usize>)
        ensures
            as_nats(r@) == all_forks(board@, player),
    {
        let mut cells: Vec<usize> = Vec::new();
        let mut cell: usize = 0;
        while cell < 9
            invariant
                cell <= 9,
                as_nats(cells@) == forks(board@, player, cell as nat),
            decreases 9 - cell,
        {
            if board[cell].is_none() {
                let mut sim = *board;
                sim[cell] = Some(player);
                assert(sim@ =~= board@.update(cell as int, Some(player)));
                if Self::threat_cells(&sim, player).len() >= 2 {
                    cells.push(cell);
                    assert(as_nats(cells@) =~= forks(board@, player, cell as nat + 1));
                }
            }
            cell = cell + 1;
        }
        cells
    }

    fn first_safe_threat_exec(board: &[Option<Player>; 9], player: Player, strict: bool, opp_forks: &Vec<usize>) -> (r: Option<usize>)
        requires
            as_nats(opp_forks@) == all_forks(board@, player.spec_other()),
        ensures
            r matches Some(c) ==> first_safe_threat(board@, player, strict, 0) == Some(c as nat),
            r is None ==> first_safe_threat(board@, player, strict, 0) is None,
    {
        let opponent = Self::other(player);
        let mut cell: usize = 0;
        while cell < 9
            invariant
                cell <= 9,
                opponent == player.spec_other(),
                as_nats(opp_forks@) == all_forks(board@, player.spec_other()),
                first_safe_threat(board@, player, strict, 0) == first_safe_threat(board@, player, strict, cell as nat),
            decreases 9 - cell,
        {
            if board[cell].is_none() {
                let mut sim = *board;
                sim[cell] = Some(player);
                assert(sim@ =~= board@.update(cell as int, Some(player)));
                let threats = Self::threat_cells(&sim, player);
                if threats.len() == 1 {
                    let forced = threats[0];
                    proof {
                        lemma_threats_shape(sim@, player, 8);
                        assert(forced as nat == all_threats(sim@, player)[0]);
                    }
                    let in_forks = contains_cell(opp_forks, forced);
                    proof {
                        if in_forks != all_forks(board@, opponent).contains(forced as nat) {
                            if in_forks {
                                let j = choose|j: int| 0 <= j < opp_forks@.len() && opp_forks@[j] == forced;
                                assert(as_nats(opp_forks@)[j] == forced as nat);
                            } else {
                                let j = choose|j: int| 0 <= j < as_nats(opp_forks@).len() && as_nats(opp_forks@)[j] == forced as nat;
                                assert(opp_forks@.contains(opp_forks@[j]));
                            }
                        }
                    }
                    if !strict || in_forks {
                        let mut sim2 = sim;
                        sim2[forced] = Some(opponent);
                        assert(sim2@ =~= sim@.update(forced as int, Some(opponent)));
                        if Self::fork_moves(&sim2, opponent).len() == 0 {
                            return Some(cell);
                        }
                    }
                }
            }
            cell = cell + 1;
        }
        None
    }

    /// The move of the strategy.
    pub fn get_action(&self, state: TicTacToe) -> (r: Cell)
        requires
            !board_full(state.board@),
        ensures
            r.0 == strategy(state.board@, state.current_player),
            r.0 < 9,
            state.board@[r.0 as int] is None,
            has_line_threat(state.board@, state.current_player) ==> exists|k: int|
                0 <= k < 8 && #[trigger] line_threat(state.board@, k, state.current_player) && empty_cell(state.board@, k) == r.0,
            !has_line_threat(state.board@, state.current_player) && has_line_threat(state.board@, state.current_player.spec_other())
                ==> exists|k: int|
                0 <= k < 8 && #[trigger] line_threat(state.board@, k, state.current_player.spec_other()) && empty_cell(
                    state.board@,
                    k,
                ) == r.0,
            !has_line_threat(state.board@, state.current_player) && !has_line_threat(
                state.board@,
                state.current_player.spec_other(),
            ) && (exists|c: nat| #[trigger] is_fork(state.board@, state.current_player, c)) ==> is_fork(
                state.board@,
                state.current_player,
                r.0 as nat,
            ),
            ({
                let b = state.board@;
                let p = state.current_player;
                !has_line_threat(b, p) && !has_line_threat(b, p.spec_other()) && (forall|d: nat| !#[trigger] is_fork(b, p, d))
                    && (exists|c: nat| #[trigger] is_fork(b, p.spec_other(), c)) ==> is_fork(b, p.spec_other(), r.0 as nat)
                    || forcing_safe_block(b, p, r.0 as nat)
            }),
            forall|c: nat|
                !has_line_threat(state.board@, state.current_player) && !has_line_threat(
                    state.board@,
                    state.current_player.spec_other(),
                ) && (forall|d: nat| !#[trigger] is_fork(state.board@, state.current_player, d)) && #[trigger] is_fork(
                    state.board@,
                    state.current_player.spec_other(),
                    c,
                ) && (forall|d: nat| is_fork(state.board@, state.current_player.spec_other(), d) ==> d == c) ==> r.0 == c,
    {
        proof {
            let b0 = state.board@;
            let p0 = state.current_player;
            lemma_strategy_wins_blocks_forks(b0, p0);
            if !has_line_threat(b0, p0) && !has_line_threat(b0, p0.spec_other()) && (forall|d: nat| !#[trigger] is_fork(b0, p0, d))
                && (exists|c: nat| #[trigger] is_fork(b0, p0.spec_other(), c)) {
                lemma_strategy_meets_forks(b0, p0);
            }
        }
        let board = &state.board;
        let player = state.current_player();
        let opponent = Self::other(player);
        let ghost b = board@;
        proof {
            lemma_threats_shape(b, player, 8);
            lemma_threats_shape(b, opponent, 8);
            lemma_forks_shape(b, player, 9);
            lemma_forks_shape(b, opponent, 9);
        }

        // 1. Win
        let own = Self::threat_cells(board, player);
        if own.len() > 0 {
            assert(own[0] as nat == all_threats(b, player)[0]);
            return Cell(own[0] as u8);
        }
        // 2. Block the opponent's win
        let theirs = Self::threat_cells(board, opponent);
        if theirs.len() > 0 {
            assert(theirs[0] as nat == all_threats(b, opponent)[0]);
            return Cell(theirs[0] as u8);
        }
        // 3. Fork
        let my_forks = Self::fork_moves(board, player);
        if my_forks.len() > 0 {
            assert(my_forks[0] as nat == all_forks(b, player)[0]);
            return Cell(my_forks[0] as u8);
        }
        // 4. Block the opponent's fork
        let opp_forks = Self::fork_moves(board, opponent);
        if opp_forks.len() > 0 {
            assert(opp_forks[0] as nat == all_forks(b, opponent)[0]);
            if opp_forks.len() == 1 {
                return Cell(opp_forks[0] as u8);
            }
            match Self::first_safe_threat_exec(board, player, true, &opp_forks) {
                Some(c) => {
                    proof {
                        lemma_first_safe_threat_shape(b, player, true, 0);
                    }
                    return Cell(c as u8);
                },
                None => {},
            }
            match Self::first_safe_threat_exec(board, player, false, &opp_forks) {
                Some(c) => {
                    proof {
                        lemma_first_safe_threat_shape(b, player, false, 0);
                    }
                    return Cell(c as u8);
                },
                None => {},
            }
            return Cell(opp_forks[0] as u8);
        }
        // 5. Centre
        if board[4].is_none() {
            return Cell(4);
        }
        // 6. Opposite corner
        if board[0] == Some(opponent) && board[8].is_none() {
            return Cell(8);
        }
        if board[8] == Some(opponent) && board[0].is_none() {
            return Cell(0);
        }
        if board[2] == Some(opponent) && board[6].is_none() {
            return Cell(6);
        }
        if board[6] == Some(opponent) && board[2].is_none() {
            return Cell(2);
        }
        // 7. Empty corner
        proof {
            reveal_with_fuel(first_empty, 5);
        }
        if board[0].is_none() {
            return Cell(0);
        }
        if board[2].is_none() {
            return Cell(2);
        }
        if board[6].is_none() {
            return Cell(6);
        }
        if board[8].is_none() {
            return Cell(8);
        }
        // 8. Empty side
        if board[1].is_none() {
            return Cell(1);
        }
        if board[3].is_none() {
            return Cell(3);
        }
        if board[5].is_none() {
            return Cell(5);
        }
        assert(board[7].is_none());
        Cell(7)
    }
}

proof fn lemma_forks_shape(b: Board, p: Player, n: nat)
    requires
        n <= 9,
    ensures
        forall|i: int|
            0 <= i < forks(b, p, n).len() ==> #[trigger] forks(b, p, n)[i] < 9 && b[forks(
                b,
                p,
                n,
            )[i] as int] is None,
    decreases n,
{
    if n > 0 {
        lemma_forks_shape(b, p, (n - 1) as nat);
    }
}

proof fn lemma_first_safe_threat_shape(b: Board, p: Player, strict: bool, c: nat)
    ensures
        first_safe_threat(b, p, strict, c) matches Some(x) ==> x < 9 && b[x as int] is None,
    decreases 9 - c,
{
    if c < 9 {
        lemma_first_safe_threat_shape(b, p, strict, c + 1);
    }
}

/// `p` has a line with two of its marks and the third cell empty.
pub open spec fn has_line_threat(b: Board, p: Player) -> bool {
    exists|k: int| 0 <= k < 8 && #[trigger] line_threat(b, k, p)
}

/// After `p` plays `m`, `p` threatens to win on exactly one cell, and once the
/// opponent blocks there the opponent has no fork left.
pub open spec fn forcing_safe_block(b: Board, p: Player, m: nat) -> bool {
    let sim = b.update(m as int, Some(p));
    &&& all_threats(sim, p).len() == 1
    &&& forall|d: nat| !#[trigger] is_fork(sim.update(all_threats(sim, p)[0] as int, Some(p.spec_other())), p.spec_other(), d)
}

proof fn lemma_no_threats(b: Board, p: Player, k: int)
    requires
        0 <= k <= 8,
        forall|j: int| 0 <= j < 8 ==> !#[trigger] line_threat(b, j, p),
    ensures
        threats(b, p, k).len() == 0,
    decreases k,
{
    if k > 0 {
        lemma_no_threats(b, p, k - 1);
    }
}

proof fn lemma_forks_are_forks(b: Board, p: Player, n: nat)
    requires
        n <= 9,
    ensures
        forall|i: int| 0 <= i < forks(b, p, n).len() ==> is_fork(b, p, #[trigger] forks(b, p, n)[i]) && forks(b, p, n)[i] < n,
        forall|i: int, j: int| 0 <= i < j < forks(b, p, n).len() ==> forks(b, p, n)[i] < forks(b, p, n)[j],
        forall|d: nat| d < n && #[trigger] is_fork(b, p, d) ==> forks(b, p, n).contains(d),
    decreases n,
{
    if n > 0 {
        let m = (n - 1) as nat;
        lemma_forks_are_forks(b, p, m);
        let f = forks(b, p, m);
        if is_fork(b, p, m) {
            let g = f.push(m);
            assert forall|d: nat| d < n && #[trigger] is_fork(b, p, d) implies g.contains(d) by {
                if d == m {
                    assert(g[f.len() as int] == d);
                } else {
                    let k = choose|k: int| 0 <= k < f.len() && f[k] == d;
                    assert(g[k] == d);
                }
            }
        }
    }
}

proof fn lemma_first_safe_threat_is_safe(b: Board, p: Player, strict: bool, c: nat)
    ensures
        first_safe_threat(b, p, strict, c) matches Some(x) ==> safe_threat(b, p, strict, x),
    decreases 9 - c,
{
    if c < 9 {
        lemma_first_safe_threat_is_safe(b, p, strict, c + 1);
    }
}

/// When neither player can win at once and the player to move has no fork,
/// its answer to an opponent with fork cells is one of those cells, or a
/// single threat whose forced block leaves the opponent without a fork; and
/// when the opponent has exactly one fork cell, the answer is that cell.
pub proof fn lemma_strategy_meets_forks(b: Board, p: Player)
    requires
        !has_line_threat(b, p),
        !has_line_threat(b, p.spec_other()),
        forall|d: nat| !#[trigger] is_fork(b, p, d),
        exists|c: nat| #[trigger] is_fork(b, p.spec_other(), c),
    ensures
        is_fork(b, p.spec_other(), strategy(b, p)) || forcing_safe_block(b, p, strategy(b, p)),
        forall|c: nat|
            #[trigger] is_fork(b, p.spec_other(), c) && (forall|d: nat| is_fork(b, p.spec_other(), d) ==> d == c) ==> strategy(
                b,
                p,
            ) == c,
{
    let opp = p.spec_other();
    assert forall|j: int| 0 <= j < 8 implies !#[trigger] line_threat(b, j, p) by {
        if line_threat(b, j, p) {
            assert(has_line_threat(b, p));
        }
    }
    assert forall|j: int| 0 <= j < 8 implies !#[trigger] line_threat(b, j, opp) by {
        if line_threat(b, j, opp) {
            assert(has_line_threat(b, opp));
        }
    }
    lemma_no_threats(b, p, 8);
    lemma_no_threats(b, opp, 8);
    lemma_forks_are_forks(b, p, 9);
    lemma_forks_are_forks(b, opp, 9);
    let mine = all_forks(b, p);
    let theirs = all_forks(b, opp);
    if mine.len() > 0 {
        assert(is_fork(b, p, mine[0]));
    }
    let c0 = choose|c: nat| #[trigger] is_fork(b, opp, c);
    assert(c0 < 9);
    assert(theirs.contains(c0));
    assert(theirs.len() > 0);
    assert(is_fork(b, opp, theirs[0]));
    let m = strategy(b, p);
    if theirs.len() > 1 {
        lemma_first_safe_threat_is_safe(b, p, true, 0);
        lemma_first_safe_threat_is_safe(b, p, false, 0);
        if m != theirs[0] {
            let sim = b.update(m as int, Some(p));
            let t = all_threats(sim, p);
            let after = sim.update(t[0] as int, Some(opp));
            assert(safe_threat(b, p, true, m) || safe_threat(b, p, false, m));
            lemma_forks_are_forks(after, opp, 9);
            assert forall|d: nat| !#[trigger] is_fork(after, opp, d) by {
                if is_fork(after, opp, d) {
                    assert(all_forks(after, opp).contains(d));
                }
            }
        }
    }
    assert forall|c: nat|
        #[trigger] is_fork(b, opp, c) && (forall|d: nat| is_fork(b, opp, d) ==> d == c) implies m == c by {
        assert(theirs.contains(c));
        if theirs.len() > 1 {
            assert(is_fork(b, opp, theirs[1]));
            assert(theirs[0] < theirs[1]);
            assert(theirs[0] == c && theirs[1] == c);
        }
        assert(theirs[0] == c);
    }
}

proof fn lemma_threat_cells(b: Board, p: Player, k: int)
    requires
        0 <= k <= 8,
    ensures
        forall|i: int|
            0 <= i < threats(b, p, k).len() ==> exists|j: int|
                0 <= j < k && #[trigger] line_threat(b, j, p) && empty_cell(b, j) == #[trigger] threats(b, p, k)[i],
        (exists|j: int| 0 <= j < k && #[trigger] line_threat(b, j, p)) ==> threats(b, p, k).len() > 0,
    decreases k,
{
    if k > 0 {
        lemma_threat_cells(b, p, k - 1);
        let t = threats(b, p, k - 1);
        if line_threat(b, k - 1, p) && !t.contains(empty_cell(b, k - 1)) {
            let u = t.push(empty_cell(b, k - 1));
            assert forall|i: int| 0 <= i < u.len() implies exists|j: int|
                0 <= j < k && #[trigger] line_threat(b, j, p) && empty_cell(b, j) == #[trigger] u[i] by {
                if i < t.len() {
                    assert(u[i] == t[i]);
                    let j = choose|j: int| 0 <= j < k - 1 && #[trigger] line_threat(b, j, p) && empty_cell(b, j) == t[i];
                    assert(line_threat(b, j, p));
                } else {
                    assert(line_threat(b, k - 1, p));
                }
            }
        }
        if exists|j: int| 0 <= j < k && #[trigger] line_threat(b, j, p) {
            let j = choose|j: int| 0 <= j < k && #[trigger] line_threat(b, j, p);
            if j == k - 1 && t.len() == 0 {
                assert(!t.contains(empty_cell(b, k - 1)));
            }
        }
    }
}

/// The player to move completes one of its lines when it can; otherwise it
/// fills the empty cell of a line the opponent is about to complete; failing
/// both, it makes a fork when it has one.
pub proof fn lemma_strategy_wins_blocks_forks(b: Board, p: Player)
    ensures
        has_line_threat(b, p) ==> exists|k: int|
            0 <= k < 8 && #[trigger] line_threat(b, k, p) && empty_cell(b, k) == strategy(b, p),
        !has_line_threat(b, p) && has_line_threat(b, p.spec_other()) ==> exists|k: int|
            0 <= k < 8 && #[trigger] line_threat(b, k, p.spec_other()) && empty_cell(b, k) == strategy(b, p),
        !has_line_threat(b, p) && !has_line_threat(b, p.spec_other()) && (exists|c: nat| #[trigger] is_fork(b, p, c))
            ==> is_fork(b, p, strategy(b, p)),
{
    let opp = p.spec_other();
    lemma_threat_cells(b, p, 8);
    lemma_threat_cells(b, opp, 8);
    lemma_forks_are_forks(b, p, 9);
    let own = all_threats(b, p);
    let theirs = all_threats(b, opp);
    if has_line_threat(b, p) {
        assert(own.len() > 0);
        assert(own[0] == own[0]);
    } else {
        assert(own.len() == 0) by {
            if own.len() > 0 {
                let x = own[0];
                let j = choose|j: int| 0 <= j < 8 && #[trigger] line_threat(b, j, p) && empty_cell(b, j) == own[0];
                assert(has_line_threat(b, p));
            }
        }
        if has_line_threat(b, opp) {
            assert(theirs.len() > 0);
            assert(theirs[0] == theirs[0]);
        } else {
            assert(theirs.len() == 0) by {
                if theirs.len() > 0 {
                    let x = theirs[0];
                    let j = choose|j: int| 0 <= j < 8 && #[trigger] line_threat(b, j, opp) && empty_cell(b, j) == theirs[0];
                    assert(has_line_threat(b, opp));
                }
            }
            if exists|c: nat| #[trigger] is_fork(b, p, c) {
                let c = choose|c: nat| #[trigger] is_fork(b, p, c);
                assert(all_forks(b, p).contains(c));
                assert(is_fork(b, p, all_forks(b, p)[0]));
            }
        }
    }
}

} // verus!
