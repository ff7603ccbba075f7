use vstd::prelude::*;
use crate::board::{
    free_cells, is_move_list, lemma_cells_bound, lemma_free_cells_is_move_list, line_cell,
    line_index, moved, num_lines, Board,
};
use crate::player::{Field, Player};
use crate::search::{child_cells, MoveOrder};

verus! {

/// What the near-win score adds for a line that its evaluated side is one mark
/// from completing.
pub const NEAR_WIN_BONUS: i32 = 5;

/// What the near-win score takes away for a line that the other side is one
/// mark from completing.
pub const NEAR_WIN_PENALTY: i32 = 100;

/// Number of the first `j` cells of win line `k` that hold `f`.
pub open spec fn line_count(cells: Seq<Field>, n: int, k: int, f: Field, j: int) -> nat
    decreases j,
{
    if j <= 0 {
        0
    } else {
        line_count(cells, n, k, f, j - 1) + if cells[line_cell(n, k, j - 1)] == f {
            1nat
        } else {
            0nat
        }
    }
}

/// Number of marks of `p` on win line `k`.
pub open spec fn marks_on_line(cells: Seq<Field>, n: int, k: int, p: Player) -> nat {
    line_count(cells, n, k, Field::Player(p), n)
}

/// Number of the first `k` win lines that hold no mark of `p`.
pub open spec fn open_lines_upto(cells: Seq<Field>, n: int, p: Player, k: int) -> nat
    decreases k,
{
    if k <= 0 {
        0
    } else {
        open_lines_upto(cells, n, p, k - 1) + if marks_on_line(cells, n, k - 1, p) == 0 {
            1nat
        } else {
            0nat
        }
    }
}

/// The line-potential score for `p`: the lines that `p` can still win (no
/// mark of the opponent) less the lines that the opponent can still win.
pub open spec fn line_potential(cells: Seq<Field>, n: int, p: Player) -> int {
    open_lines_upto(cells, n, p.opp(), num_lines(n)) - open_lines_upto(cells, n, p, num_lines(n))
}

/// What win line `k` gives the near-win score for `p`: the bonus when `p` holds
/// all of its cells but one and the last is free, the penalty when the opponent
/// does.
pub open spec fn near_win_line(cells: Seq<Field>, n: int, k: int, p: Player) -> int {
    let mine = marks_on_line(cells, n, k, p);
    let theirs = marks_on_line(cells, n, k, p.opp());
    if mine == n - 1 && theirs == 0 {
        NEAR_WIN_BONUS as int
    } else if theirs == n - 1 && mine == 0 {
        -(NEAR_WIN_PENALTY as int)
    } else {
        0
    }
}

/// The near-win score for `p` over the first `k` win lines.
pub open spec fn near_win_upto(cells: Seq<Field>, n: int, p: Player, k: int) -> int
    decreases k,
{
    if k <= 0 {
        0
    } else {
        near_win_upto(cells, n, p, k - 1) + near_win_line(cells, n, k - 1, p)
    }
}

/// The near-win score for `p` over all win lines.
pub open spec fn near_win(cells: Seq<Field>, n: int, p: Player) -> int {
    near_win_upto(cells, n, p, num_lines(n))
}

/// The marks of `X` and of `O` on win line `k`.
fn count_line(board: &Board, k: u32) -> (r: (u32, u32))
    requires
        board.shaped(),
        k < 2 * board.size + 2,
    ensures
        r.0 == marks_on_line(board.fields@, board.size as int, k as int, Player::X),
        r.1 == marks_on_line(board.fields@, board.size as int, k as int, Player::O),
        r.0 + r.1 <= board.size,
{
    let n = board.size;
    let mut x: u32 = 0;
    let mut o: u32 = 0;
    let mut j: u32 = 0;
    while j < n
        invariant
            board.shaped(),
            n == board.size,
            k < 2 * n + 2,
            j <= n,
            x == line_count(board.fields@, n as int, k as int, Field::Player(Player::X), j as int),
            o == line_count(board.fields@, n as int, k as int, Field::Player(Player::O), j as int),
            x + o <= j,
        decreases n - j,
    {
        let idx = line_index(n, k, j);
        match board.fields[idx] {
            Field::Player(Player::X) => {
                x = x + 1;
            },
            Field::Player(Player::O) => {
                o = o + 1;
            },
            Field::Free => {},
        }
        j = j + 1;
    }
    (x, o)
}

impl Board {
    /// The line-potential score of the position for `player`; see `line_potential`.
    pub fn lines_heuristic(&self, player: Player) -> (r: i32)
        requires
            self.shaped(),
        ensures
            r as int == line_potential(self.fields@, self.size as int, player),
    {
        let n = self.size;
        let lines = 2 * n + 2;
        let mut mine_open: i32 = 0;
        let mut theirs_open: i32 = 0;
        let mut k: u32 = 0;
        while k < lines
            invariant
                self.shaped(),
                n == self.size,
                lines == 2 * n + 2,
                k <= lines,
                mine_open as int == open_lines_upto(self.fields@, n as int, player.opp(), k as int),
                theirs_open as int == open_lines_upto(self.fields@, n as int, player, k as int),
                mine_open <= k,
                theirs_open <= k,
            decreases lines - k,
        {
            let (x, o) = count_line(self, k);
            let (mine, theirs) = match player {
                Player::X => (x, o),
                Player::O => (o, x),
            };
            if theirs == 0 {
                mine_open = mine_open + 1;
            }
            if mine == 0 {
                theirs_open = theirs_open + 1;
            }
            k = k + 1;
        }
        mine_open - theirs_open
    }

    /// The near-win score of the position for `player`; see `near_win`.
    pub fn better_heuristic(&self, player: Player) -> (r: i32)
        requires
            self.shaped(),
        ensures
            r as int == near_win(self.fields@, self.size as int, player),
    {
        let n = self.size;
        let lines = 2 * n + 2;
        let mut result: i32 = 0;
        let mut k: u32 = 0;
        while k < lines
            invariant
                self.shaped(),
                n == self.size,
                lines == 2 * n + 2,
                k <= lines,
                result as int == near_win_upto(self.fields@, n as int, player, k as int),
                -100 * (k as int) <= result <= 5 * (k as int),
            decreases lines - k,
        {
            let (x, o) = count_line(self, k);
            let (mine, theirs) = match player {
                Player::X => (x, o),
                Player::O => (o, x),
            };
            if mine == n - 1 && theirs == 0 {
                result = result + NEAR_WIN_BONUS;
            } else if theirs == n - 1 && mine == 0 {
                result = result - NEAR_WIN_PENALTY;
            }
            k = k + 1;
        }
        result
    }
}


// ---------------------------------------------------------------------------
// Move ordering.
// ---------------------------------------------------------------------------

/// The key that `order` gives the move to cell `i`: the score of the child
/// position for the side that moves into it. Higher keys are tried first.
pub open spec fn child_key(cells: Seq<Field>, n: int, turn: Player, order: MoveOrder, i: int) -> int {
    match order {
        MoveOrder::Index => 0,
        MoveOrder::Lines => line_potential(child_cells(cells, turn, i), n, turn),
        MoveOrder::NearWin => near_win(child_cells(cells, turn, i), n, turn),
    }
}

/// `m` put into `s` before the first element of lower key.
pub open spec fn insert_by_key(s: Seq<usize>, m: usize, f: spec_fn(usize) -> int) -> Seq<usize>
    decreases s.len(),
{
    if s.len() == 0 {
        seq![m]
    } else if f(s[0]) < f(m) {
        seq![m] + s
    } else {
        seq![s[0]] + insert_by_key(s.drop_first(), m, f)
    }
}

/// `s` sorted by descending key by inserting its elements in turn.
pub open spec fn sort_by_key(s: Seq<usize>, f: spec_fn(usize) -> int) -> Seq<usize>
    decreases s.len(),
{
    if s.len() == 0 {
        s
    } else {
        insert_by_key(sort_by_key(s.drop_last(), f), s.last(), f)
    }
}

/// Inserting before the first element of lower key is `insert_by_key`.
proof fn lemma_insert_by_key(s: Seq<usize>, m: usize, f: spec_fn(usize) -> int, p: int)
    requires
        0 <= p <= s.len(),
        forall|u: int| 0 <= u < p ==> f(s[u]) >= f(m),
        p < s.len() ==> f(s[p]) < f(m),
    ensures
        insert_by_key(s, m, f) == s.insert(p, m),
    decreases s.len(),
{
    if s.len() == 0 {
        assert(s.insert(p, m) =~= seq![m]);
    } else if p == 0 {
        assert(s.insert(p, m) =~= seq![m] + s);
    } else {
        let t = s.drop_first();
        assert forall|u: int| 0 <= u < p - 1 implies f(t[u]) >= f(m) by {
            assert(t[u] == s[u + 1]);
        }
        if p - 1 < t.len() {
            assert(t[p - 1] == s[p]);
        }
        lemma_insert_by_key(t, m, f, p - 1);
        assert(s.insert(p, m) =~= seq![s[0]] + t.insert(p - 1, m));
    }
}

/// The moves that `order` tries, in its order: the free cells ascending, or
/// sorted by descending key (see `child_key`).
pub open spec fn move_list(cells: Seq<Field>, n: int, turn: Player, order: MoveOrder) -> Seq<usize> {
    if order == MoveOrder::Index {
        free_cells(cells)
    } else {
        sort_by_key(free_cells(cells), |i: usize| child_key(cells, n, turn, order, i as int))
    }
}

/// `moves` sorted by descending key, equal keys kept in their order.
#[verifier::rlimit(60)]
fn sort_by_key_desc(moves: &Vec<usize>, keys: &Vec<i32>, Ghost(f): Ghost<spec_fn(usize) -> int>) -> (r: Vec<usize>)
    requires
        moves@.len() == keys@.len(),
        forall|w: int| 0 <= w < moves@.len() ==> keys@[w] as int == f(#[trigger] moves@[w]),
        forall|a: int, b: int| 0 <= a < b < moves@.len() ==> moves@[a] < moves@[b],
    ensures
        r@.len() == moves@.len(),
        forall|a: int, b: int| 0 <= a < b < r@.len() ==> r@[a] != r@[b],
        forall|u: int| 0 <= u < r@.len() ==> moves@.contains(#[trigger] r@[u]),
        forall|w: int| 0 <= w < moves@.len() ==> r@.contains(#[trigger] moves@[w]),
        forall|a: int, b: int| 0 <= a < b < r@.len() ==> f(r@[a]) >= f(r@[b]),
        forall|a: int, b: int| 0 <= a < b < r@.len() && f(r@[a]) == f(r@[b]) ==> r@[a] < r@[b],
        r@ == sort_by_key(moves@, f),
{
    let mut r: Vec<usize> = Vec::new();
    let mut rk: Vec<i32> = Vec::new();
    let mut t: usize = 0;
    while t < moves.len()
        invariant
            moves@.len() == keys@.len(),
            forall|w: int| 0 <= w < moves@.len() ==> keys@[w] as int == f(#[trigger] moves@[w]),
            forall|a: int, b: int| 0 <= a < b < moves@.len() ==> moves@[a] < moves@[b],
            t <= moves@.len(),
            forall|a: int, b: int| 0 <= a < b < t && rk@[a] == rk@[b] ==> r@[a] < r@[b],
            r@ == sort_by_key(moves@.subrange(0, t as int), f),
            r@.len() == t,
            rk@.len() == t,
            forall|u: int| 0 <= u < t ==> rk@[u] as int == f(#[trigger] r@[u]),
            forall|a: int, b: int| 0 <= a < b < t ==> rk@[a] >= rk@[b],
            forall|a: int, b: int| 0 <= a < b < t ==> r@[a] != r@[b],
            forall|u: int| 0 <= u < t ==> exists|w: int| 0 <= w < t && #[trigger] r@[u] == moves@[w],
            forall|w: int| 0 <= w < t ==> r@.contains(#[trigger] moves@[w]),
        decreases moves@.len() - t,
    {
        let m = moves[t];
        let key = keys[t];
        let mut p: usize = 0;
        while p < rk.len() && rk[p] >= key
            invariant
                p <= rk@.len(),
                forall|u: int| 0 <= u < p ==> rk@[u] >= key,
            decreases rk@.len() - p,
        {
            p = p + 1;
        }
        let ghost r0 = r@;
        let ghost rk0 = rk@;
        proof {
            r0.insert_ensures(p as int, m);
            rk0.insert_ensures(p as int, key);
            assert forall|u: int| 0 <= u < t implies r0[u] < m by {
                let w = choose|w: int| 0 <= w < t && r0[u] == moves@[w];
            }
        }
        proof {
            lemma_insert_by_key(r0, m, f, p as int);
            let pre = moves@.subrange(0, t as int + 1);
            assert(pre.drop_last() =~= moves@.subrange(0, t as int));
            assert(pre.last() == m);
        }
        r.insert(p, m);
        rk.insert(p, key);
        proof {
            assert forall|u: int| 0 <= u < t + 1 implies rk@[u] as int == f(#[trigger] r@[u]) by {
                if u > p {
                    assert(r@[u] == r0[u - 1]);
                    assert(rk@[u] == rk0[u - 1]);
                }
            }
            assert forall|a: int, b: int| 0 <= a < b < t + 1 implies rk@[a] >= rk@[b] by {
                if b < p {
                } else if b == p {
                } else if a < p {
                    assert(rk@[b] == rk0[b - 1]);
                } else if a == p {
                    assert(rk@[b] == rk0[b - 1]);
                    if p < t {
                        assert(rk0[p as int] < key);
                    }
                } else {
                    assert(rk@[a] == rk0[a - 1]);
                    assert(rk@[b] == rk0[b - 1]);
                }
            }
            assert forall|a: int, b: int| 0 <= a < b < t + 1 && rk@[a] == rk@[b] implies r@[a] < r@[b] by {
                if a < p {
                    if b > p {
                        assert(r@[b] == r0[b - 1]);
                        assert(rk@[b] == rk0[b - 1]);
                    }
                } else if a == p {
                    assert(r@[b] == r0[b - 1]);
                    assert(rk@[b] == rk0[b - 1]);
                    assert(rk0[p as int] < key);
                } else {
                    assert(r@[a] == r0[a - 1]);
                    assert(r@[b] == r0[b - 1]);
                    assert(rk@[a] == rk0[a - 1]);
                    assert(rk@[b] == rk0[b - 1]);
                }
            }
            assert forall|a: int, b: int| 0 <= a < b < t + 1 implies r@[a] != r@[b] by {
                if a < p {
                    if b > p {
                        assert(r@[b] == r0[b - 1]);
                    }
                } else if a == p {
                    assert(r@[b] == r0[b - 1]);
                } else {
                    assert(r@[a] == r0[a - 1]);
                    assert(r@[b] == r0[b - 1]);
                }
            }
            assert forall|u: int| 0 <= u < t + 1 implies exists|w: int| 0 <= w < t + 1 && #[trigger] r@[u] == moves@[w] by {
                if u < p {
                    let w = choose|w: int| 0 <= w < t && r0[u] == moves@[w];
                    assert(r@[u] == moves@[w]);
                } else if u == p {
                    assert(r@[u] == moves@[t as int]);
                } else {
                    let w = choose|w: int| 0 <= w < t && r0[u - 1] == moves@[w];
                    assert(r@[u] == moves@[w]);
                }
            }
            assert forall|w: int| 0 <= w < t + 1 implies r@.contains(#[trigger] moves@[w]) by {
                if w < t {
                    assert(r0.contains(moves@[w]));
                    let u = choose|u: int| 0 <= u < r0.len() && r0[u] == moves@[w];
                    if u < p {
                        assert(r@[u] == moves@[w]);
                    } else {
                        assert(r@[u + 1] == moves@[w]);
                    }
                } else {
                    assert(r@[p as int] == moves@[w]);
                }
            }
        }
        t = t + 1;
    }
    proof {
        assert forall|u: int| 0 <= u < r@.len() implies moves@.contains(#[trigger] r@[u]) by {
            let w = choose|w: int| 0 <= w < t && r@[u] == moves@[w];
        }
        assert(moves@.subrange(0, t as int) =~= moves@);
    }
    r
}

/// The moves of the position in the order `order` asks for: ascending index,
/// or by descending key (see `child_key`), equal keys in ascending index.
pub fn ordered_moves(board: &Board, order: MoveOrder) -> (r: Vec<usize>)
    requires
        board.wf(),
    ensures
        is_move_list(board.fields@, r@),
        order == MoveOrder::Index ==> r@ == free_cells(board.fields@),
        r@ == move_list(board.fields@, board.size as int, board.player_turn, order),
        forall|a: int, b: int|
            0 <= a < b < r@.len() ==> child_key(board.fields@, board.size as int, board.player_turn, order, r@[a] as int)
                >= child_key(board.fields@, board.size as int, board.player_turn, order, r@[b] as int),
        forall|a: int, b: int|
            0 <= a < b < r@.len() && child_key(board.fields@, board.size as int, board.player_turn, order, r@[a] as int)
                == child_key(board.fields@, board.size as int, board.player_turn, order, r@[b] as int) ==> r@[a] < r@[b],
{
    let free = board.legal_moves();
    proof {
        lemma_cells_bound(board.size as int);
        lemma_free_cells_is_move_list(board.fields@);
    }
    if matches!(order, MoveOrder::Index) {
        return free;
    }
    let ghost cells = board.fields@;
    let ghost n = board.size as int;
    let ghost turn = board.player_turn;
    let ghost f = |i: usize| child_key(cells, n, turn, order, i as int);
    let mut keys: Vec<i32> = Vec::new();
    let mut k: usize = 0;
    while k < free.len()
        invariant
            board.wf(),
            cells == board.fields@,
            n == board.size as int,
            turn == board.player_turn,
            f == (|i: usize| child_key(cells, n, turn, order, i as int)),
            order != MoveOrder::Index,
            free@ == free_cells(cells),
            is_move_list(cells, free@),
            cells.len() <= 25,
            k <= free@.len(),
            keys@.len() == k,
            forall|w: int| 0 <= w < k ==> keys@[w] as int == f(#[trigger] free@[w]),
        decreases free@.len() - k,
    {
        let i = free[k];
        let mut child = board.duplicate();
        let _ = child.make_move(i as u32);
        proof {
            assert(moved(*board, child, i as int));
            assert(child.fields@ == child_cells(cells, turn, i as int));
        }
        let key = match order {
            MoveOrder::Lines => child.lines_heuristic(board.player_turn),
            _ => child.better_heuristic(board.player_turn),
        };
        keys.push(key);
        proof {
            assert(f(i) == child_key(cells, n, turn, order, i as int));
            assert(keys@[k as int] as int == f(free@[k as int]));
        }
        k = k + 1;
    }
    let r = sort_by_key_desc(&free, &keys, Ghost(f));
    proof {
        assert forall|q: int| 0 <= q < r@.len() implies (#[trigger] r@[q]) < cells.len() && cells[r@[q] as int] is Free by {
            assert(free@.contains(r@[q]));
        }
        assert forall|x: int| 0 <= x < cells.len() && (#[trigger] cells[x]) is Free implies r@.contains(x as usize) by {
            assert(free@.contains(x as usize));
            let w = choose|w: int| 0 <= w < free@.len() && free@[w] == x as usize;
            assert(r@.contains(free@[w]));
        }
    }
    r
}


/// The move that led to each board: the last index of its history.
pub open spec fn last_moves(boards: Seq<Board>) -> Seq<usize> {
    boards.map_values(|b: Board| b.moves@.last() as usize)
}

/// The children come in the order that `order` gives their moves: by
/// descending key, equal keys in ascending move order.
pub open spec fn children_ordered(parent: Board, boards: Seq<Board>, order: MoveOrder) -> bool {
    let ms = last_moves(boards);
    &&& is_move_list(parent.fields@, ms)
    &&& forall|k: int| 0 <= k < boards.len() ==> (#[trigger] boards[k]).wf() && moved(parent, boards[k], ms[k] as int)
    &&& forall|a: int, b: int|
        0 <= a < b < ms.len() ==> child_key(parent.fields@, parent.size as int, parent.player_turn, order, ms[a] as int)
            >= child_key(parent.fields@, parent.size as int, parent.player_turn, order, ms[b] as int)
    &&& forall|a: int, b: int|
        0 <= a < b < ms.len() && child_key(parent.fields@, parent.size as int, parent.player_turn, order, ms[a] as int)
            == child_key(parent.fields@, parent.size as int, parent.player_turn, order, ms[b] as int) ==> ms[a] < ms[b]
}

impl Board {
    fn children_in(&self, order: MoveOrder) -> (r: Vec<Board>)
        requires
            self.wf(),
        ensures
            children_ordered(*self, r@, order),
    {
        let ms = ordered_moves(self, order);
        proof {
            lemma_cells_bound(self.size as int);
        }
        let mut r: Vec<Board> = Vec::new();
        let mut k: usize = 0;
        while k < ms.len()
            invariant
                self.wf(),
                self.fields@.len() <= 25,
                is_move_list(self.fields@, ms@),
                k <= ms@.len(),
                r@.len() == k,
                forall|q: int| 0 <= q < k ==> (#[trigger] r@[q]).wf() && moved(*self, r@[q], ms@[q] as int),
            decreases ms@.len() - k,
        {
            let i = ms[k];
            let mut child = self.duplicate();
            let _ = child.make_move(i as u32);
            proof {
                assert(moved(*self, child, i as int));
            }
            r.push(child);
            proof {
                assert(r@[k as int] == child);
            }
            k = k + 1;
        }
        proof {
            assert(last_moves(r@) =~= ms@);
        }
        r
    }

    /// The children, best first by line-potential score for the side to move;
    /// equal scores keep ascending move order.
    pub fn generate_sorted_lines_heuristic(&self) -> (r: Vec<Board>)
        requires
            self.wf(),
        ensures
            children_ordered(*self, r@, MoveOrder::Lines),
    {
        self.children_in(MoveOrder::Lines)
    }

    /// The children, best first by near-win score for the side to move; equal
    /// scores keep ascending move order.
    pub fn generate_own_heuristic(&self) -> (r: Vec<Board>)
        requires
            self.wf(),
        ensures
            children_ordered(*self, r@, MoveOrder::NearWin),
    {
        self.children_in(MoveOrder::NearWin)
    }
}

} // verus!
