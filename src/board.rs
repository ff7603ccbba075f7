use vstd::prelude::*;
use crate::player::{Field, GameResult, Player};

verus! {

/// Smallest board side with a win-line table.
pub const MIN_SIZE: u32 = 2;

/// Largest board side with a win-line table.
pub const MAX_SIZE: u32 = 5;

/// Why a move or an undo was refused.
#[derive(Debug, Clone, Copy, PartialEq, Eq, Structural)]
pub enum MoveError {
    OccupiedCell,
    OutOfRange,
    NoMoveToUndo,
}

// ---------------------------------------------------------------------------
// Win lines: rows first, then columns, then the main and the anti diagonal.
// ---------------------------------------------------------------------------

/// Number of win lines on a board of side `n`.
pub open spec fn num_lines(n: int) -> int {
    2 * n + 2
}

/// The board index of the `j`-th cell of win line `k` on a board of side `n`.
pub open spec fn line_cell(n: int, k: int, j: int) -> int {
    if k < n {
        k * n + j
    } else if k < 2 * n {
        j * n + (k - n)
    } else if k == 2 * n {
        j * n + j
    } else {
        j * n + (n - 1 - j)
    }
}

pub proof fn lemma_line_cell_bounds(n: int, k: int, j: int)
    requires
        2 <= n <= 5,
        0 <= k < num_lines(n),
        0 <= j < n,
    ensures
        0 <= line_cell(n, k, j) < n * n,
{
    if k < n {
        assert(k * n + j < n * n) by (nonlinear_arith)
            requires
                0 <= k < n,
                0 <= j < n,
        ;
        assert(0 <= k * n) by (nonlinear_arith)
            requires
                0 <= k,
                0 <= n,
        ;
    } else {
        assert(j * n + n <= n * n) by (nonlinear_arith)
            requires
                0 <= j < n,
        ;
        assert(0 <= j * n) by (nonlinear_arith)
            requires
                0 <= j,
                0 <= n,
        ;
    }
}

/// Whether every cell of win line `k` belongs to `p`.
pub open spec fn line_full(cells: Seq<Field>, n: int, k: int, p: Player) -> bool {
    forall|j: int| 0 <= j < n ==> #[trigger] cells[line_cell(n, k, j)] == Field::Player(p)
}

/// Whether some win line belongs wholly to `p`.
pub open spec fn has_line(cells: Seq<Field>, n: int, p: Player) -> bool {
    exists|k: int| 0 <= k < num_lines(n) && line_full(cells, n, k, p)
}

/// Whether some cell is still free.
pub open spec fn has_free(cells: Seq<Field>) -> bool {
    exists|i: int| 0 <= i < cells.len() && cells[i] is Free
}

/// Classification scanning the lines from `k` on.
pub open spec fn classify_from(cells: Seq<Field>, n: int, k: int) -> GameResult
    decreases num_lines(n) - k,
{
    if k >= num_lines(n) {
        if has_free(cells) {
            GameResult::InProgress
        } else {
            GameResult::Draw
        }
    } else if line_full(cells, n, k, Player::X) {
        GameResult::Player(Player::X)
    } else if line_full(cells, n, k, Player::O) {
        GameResult::Player(Player::O)
    } else {
        classify_from(cells, n, k + 1)
    }
}

/// The result of a position: the owner of the first full line in table
/// order; otherwise in progress while a cell is free, else a draw.
pub open spec fn classify(cells: Seq<Field>, n: int) -> GameResult {
    classify_from(cells, n, 0)
}

/// The index of cell `pos` of win line `line` on a board of side `size`.
pub fn line_index(size: u32, line: u32, pos: u32) -> (r: usize)
    requires
        MIN_SIZE <= size <= MAX_SIZE,
        line < 2 * size + 2,
        pos < size,
    ensures
        r == line_cell(size as int, line as int, pos as int),
        r < size * size,
{
    proof {
        lemma_line_cell_bounds(size as int, line as int, pos as int);
    }
    let n = size as usize;
    let k = line as usize;
    let j = pos as usize;
    assert(k * n <= 60 && j * n <= 25) by (nonlinear_arith)
        requires
            k < 12,
            j < n,
            n <= 5,
    ;
    if k < n {
        k * n + j
    } else if k < 2 * n {
        j * n + (k - n)
    } else if k == 2 * n {
        j * n + j
    } else {
        j * n + (n - 1 - j)
    }
}


// ---------------------------------------------------------------------------
// Counting cells.
// ---------------------------------------------------------------------------

/// Number of cells among the first `i` that hold `f`.
pub open spec fn count_upto(cells: Seq<Field>, i: int, f: Field) -> nat
    decreases i,
{
    if i <= 0 {
        0
    } else {
        count_upto(cells, i - 1, f) + if cells[i - 1] == f {
            1nat
        } else {
            0nat
        }
    }
}

/// Number of cells that hold `f`.
pub open spec fn count_of(cells: Seq<Field>, f: Field) -> nat {
    count_upto(cells, cells.len() as int, f)
}

/// Number of occupied cells.
pub open spec fn occupied_count(cells: Seq<Field>) -> nat {
    count_of(cells, Field::Player(Player::X)) + count_of(cells, Field::Player(Player::O))
}

/// The free indices among the first `i`, ascending.
pub open spec fn free_upto(cells: Seq<Field>, i: int) -> Seq<usize>
    decreases i,
{
    if i <= 0 {
        seq![]
    } else if cells[i - 1] is Free {
        free_upto(cells, i - 1).push((i - 1) as usize)
    } else {
        free_upto(cells, i - 1)
    }
}

/// All free indices, ascending.
pub open spec fn free_cells(cells: Seq<Field>) -> Seq<usize> {
    free_upto(cells, cells.len() as int)
}

pub proof fn lemma_count_update(cells: Seq<Field>, i: int, idx: int, v: Field, f: Field)
    requires
        0 <= idx < cells.len(),
        i <= cells.len(),
    ensures
        count_upto(cells.update(idx, v), i, f) + (if idx < i && cells[idx] == f {
            1int
        } else {
            0int
        }) == count_upto(cells, i, f) + (if idx < i && v == f {
            1int
        } else {
            0int
        }),
    decreases i,
{
    if i > 0 {
        lemma_count_update(cells, i - 1, idx, v, f);
    }
}

pub proof fn lemma_counts_sum(cells: Seq<Field>, i: int)
    requires
        0 <= i <= cells.len(),
    ensures
        count_upto(cells, i, Field::Free) + count_upto(cells, i, Field::Player(Player::X))
            + count_upto(cells, i, Field::Player(Player::O)) == i,
    decreases i,
{
    if i > 0 {
        lemma_counts_sum(cells, i - 1);
        match cells[i - 1] {
            Field::Free => {},
            Field::Player(Player::X) => {},
            Field::Player(Player::O) => {},
        }
    }
}

pub proof fn lemma_free_upto(cells: Seq<Field>, i: int)
    requires
        0 <= i <= cells.len() <= 25,
    ensures
        free_upto(cells, i).len() == count_upto(cells, i, Field::Free),
        forall|k: int|
            0 <= k < free_upto(cells, i).len() ==> {
                &&& (#[trigger] free_upto(cells, i)[k]) < i
                &&& cells[free_upto(cells, i)[k] as int] is Free
            },
        forall|a: int, b: int|
            0 <= a < b < free_upto(cells, i).len() ==> free_upto(cells, i)[a] < free_upto(
                cells,
                i,
            )[b],
        forall|x: int|
            0 <= x < i && (#[trigger] cells[x]) is Free ==> free_upto(cells, i).contains(
                x as usize,
            ),
    decreases i,
{
    if i > 0 {
        lemma_free_upto(cells, i - 1);
        let prev = free_upto(cells, i - 1);
        let cur = free_upto(cells, i);
        if cells[i - 1] is Free {
            assert(cur == prev.push((i - 1) as usize));
            assert forall|k: int| 0 <= k < cur.len() implies (#[trigger] cur[k]) < i && cells[cur[k] as int] is Free by {
                if k < prev.len() {
                    assert(cur[k] == prev[k]);
                }
            }
            assert forall|a: int, b: int| 0 <= a < b < cur.len() implies cur[a] < cur[b] by {
                assert(cur[a] == prev[a]);
                if b < prev.len() {
                    assert(cur[b] == prev[b]);
                }
            }
        }
        assert forall|x: int| 0 <= x < i && (#[trigger] cells[x]) is Free implies cur.contains(
            x as usize,
        ) by {
            if x < i - 1 {
                assert(prev.contains(x as usize));
                let w = choose|w: int| 0 <= w < prev.len() && prev[w] == x as usize;
                assert(cur[w] == x as usize);
            } else {
                assert(cur[cur.len() - 1] == x as usize);
            }
        }
    }
}

/// Every free index of the board, and only those, appear in `s`, once each.
pub open spec fn is_move_list(cells: Seq<Field>, s: Seq<usize>) -> bool {
    &&& forall|k: int| 0 <= k < s.len() ==> (#[trigger] s[k]) < cells.len() && cells[s[k] as int] is Free
    &&& forall|a: int, b: int| 0 <= a < b < s.len() ==> s[a] != s[b]
    &&& forall|x: int| 0 <= x < cells.len() && (#[trigger] cells[x]) is Free ==> s.contains(x as usize)
}

pub proof fn lemma_free_cells_is_move_list(cells: Seq<Field>)
    requires
        cells.len() <= 25,
    ensures
        is_move_list(cells, free_cells(cells)),
        free_cells(cells).len() == count_of(cells, Field::Free),
        forall|a: int, b: int|
            0 <= a < b < free_cells(cells).len() ==> free_cells(cells)[a] < free_cells(cells)[b],
{
    lemma_free_upto(cells, cells.len() as int);
}

// ---------------------------------------------------------------------------
// The board.
// ---------------------------------------------------------------------------

/// A square board of side `size`: its cells in row-major order, the side to
/// move, and the indices played so far, oldest first.
#[derive(Debug)]
pub struct Board {
    pub fields: Vec<Field>,
    pub player_turn: Player,
    pub moves: Vec<u32>,
    pub size: u32,
}

/// `new` is `old` after the side to move in `old` took the free cell `i`.
pub open spec fn moved(old: Board, new: Board, i: int) -> bool {
    &&& new.fields@ == old.fields@.update(i, Field::Player(old.player_turn))
    &&& new.moves@ == old.moves@.push(i as u32)
    &&& new.player_turn == old.player_turn.opp()
    &&& new.size == old.size
}

/// `new` is `old` with its last move taken back.
pub open spec fn unmoved(old: Board, new: Board) -> bool {
    &&& old.moves@.len() > 0
    &&& new.fields@ == old.fields@.update(old.moves@.last() as int, Field::Free)
    &&& new.moves@ == old.moves@.drop_last()
    &&& new.player_turn == old.player_turn.opp()
    &&& new.size == old.size
}

impl Board {
    /// Side within the supported range, one cell per square, and a history of
    /// distinct in-range indices whose cells are occupied.
    pub open spec fn wf(&self) -> bool {
        &&& self.shaped()
        &&& forall|k: int|
            0 <= k < self.moves@.len() ==> (#[trigger] self.moves@[k]) < self.fields@.len()
                && self.fields@[self.moves@[k] as int] is Player
        &&& forall|a: int, b: int|
            0 <= a < b < self.moves@.len() ==> self.moves@[a] != self.moves@[b]
    }

    /// Side within the supported range and one cell per square.
    pub open spec fn shaped(&self) -> bool {
        &&& MIN_SIZE <= self.size <= MAX_SIZE
        &&& self.fields@.len() == (self.size as int) * (self.size as int)
    }

    /// The side to move is the one that the counts of marks give: `X` when
    /// both have as many marks, `O` when `X` has one more.
    pub open spec fn balanced(&self) -> bool {
        turn_of(self.fields@) == self.player_turn && counts_ok(self.fields@)
    }

    /// The result of the position, as `get_result` computes it.
    pub open spec fn result(&self) -> GameResult {
        classify(self.fields@, self.size as int)
    }

    /// An empty board of side `n`, `X` to move.
    pub fn create_board(n: u32) -> (r: Board)
        requires
            MIN_SIZE <= n <= MAX_SIZE,
        ensures
            r.wf(),
            r.balanced(),
            r.size == n,
            r.player_turn == Player::X,
            r.moves@.len() == 0,
            r.fields@ == Seq::new((n * n) as nat, |i: int| Field::Free),
    {
        assert(n * n <= 25) by (nonlinear_arith)
            requires
                n <= 5,
        ;
        let total = n * n;
        let mut fields: Vec<Field> = Vec::new();
        let mut i: u32 = 0;
        while i < total
            invariant
                i <= total,
                total == n * n,
                fields@ == Seq::new(i as nat, |j: int| Field::Free),
            decreases total - i,
        {
            fields.push(Field::Free);
            i = i + 1;
            proof {
                assert(fields@ =~= Seq::new(i as nat, |j: int| Field::Free));
            }
        }
        let r = Board { fields, player_turn: Player::X, moves: Vec::new(), size: n };
        proof {
            lemma_count_all_free(r.fields@, r.fields@.len() as int);
        }
        r
    }
}

impl Board {
    /// Takes cell `index` for the side to move.
    pub fn make_move(&mut self, index: u32) -> (r: Result<(), MoveError>)
        requires
            old(self).wf(),
        ensures
            final(self).wf(),
            index >= old(self).fields@.len() ==> r == Err::<(), MoveError>(MoveError::OutOfRange)
                && *final(self) == *old(self),
            index < old(self).fields@.len() && old(self).fields@[index as int] is Player ==> r
                == Err::<(), MoveError>(MoveError::OccupiedCell) && *final(self) == *old(self),
            index < old(self).fields@.len() && old(self).fields@[index as int] is Free ==> r
                == Ok::<(), MoveError>(()) && moved(*old(self), *final(self), index as int),
            old(self).balanced() ==> final(self).balanced(),
    {
        if index as usize >= self.fields.len() {
            return Err(MoveError::OutOfRange);
        }
        match self.fields[index as usize] {
            Field::Free => {
                let ghost before = *self;
                let mark = Field::Player(self.player_turn);
                self.fields.set(index as usize, mark);
                self.moves.push(index);
                self.player_turn = self.player_turn.opponent();
                proof {
                    lemma_move_keeps_wf(before, *self, index as int);
                }
                Ok(())
            },
            Field::Player(_) => Err(MoveError::OccupiedCell),
        }
    }

    /// Takes back the last move.
    pub fn undo_last_move(&mut self) -> (r: Result<(), MoveError>)
        requires
            old(self).wf(),
        ensures
            final(self).wf(),
            old(self).moves@.len() == 0 ==> r == Err::<(), MoveError>(MoveError::NoMoveToUndo)
                && *final(self) == *old(self),
            old(self).moves@.len() > 0 ==> r == Ok::<(), MoveError>(()) && unmoved(
                *old(self),
                *final(self),
            ),
    {
        if self.moves.len() == 0 {
            return Err(MoveError::NoMoveToUndo);
        }
        match self.moves.pop() {
            None => Err(MoveError::NoMoveToUndo),
            Some(last) => {
                proof {
                    assert(old(self).moves@.last() == last);
                    assert(self.moves@ =~= old(self).moves@.drop_last());
                }
                self.fields.set(last as usize, Field::Free);
                self.player_turn = self.player_turn.opponent();
                proof {
                    let o = *old(self);
                    assert forall|k: int| 0 <= k < self.moves@.len() implies (#[trigger] self.moves@[k]) < self.fields@.len()
                        && self.fields@[self.moves@[k] as int] is Player by {
                        assert(self.moves@[k] == o.moves@[k]);
                        assert(o.moves@[k] != o.moves@[o.moves@.len() - 1]);
                    }
                    assert forall|a: int, b: int| 0 <= a < b < self.moves@.len() implies self.moves@[a] != self.moves@[b] by {
                        assert(self.moves@[a] == o.moves@[a]);
                        assert(self.moves@[b] == o.moves@[b]);
                    }
                }
                Ok(())
            },
        }
    }

    /// Classifies the position; see `classify`.
    pub fn get_result(&self) -> (r: GameResult)
        requires
            self.shaped(),
        ensures
            r == self.result(),
    {
        let n = self.size;
        let lines = 2 * n + 2;
        let mut k: u32 = 0;
        while k < lines
            invariant
                self.shaped(),
                n == self.size,
                lines == 2 * n + 2,
                k <= lines,
                classify(self.fields@, n as int) == classify_from(self.fields@, n as int, k as int),
            decreases lines - k,
        {
            let mut all_x = true;
            let mut all_o = true;
            let mut j: u32 = 0;
            while j < n
                invariant
                    self.shaped(),
                    n == self.size,
                    k < lines,
                    lines == 2 * n + 2,
                    j <= n,
                    all_x == (forall|q: int| 0 <= q < j ==> #[trigger] self.fields@[line_cell(n as int, k as int, q)] == Field::Player(Player::X)),
                    all_o == (forall|q: int| 0 <= q < j ==> #[trigger] self.fields@[line_cell(n as int, k as int, q)] == Field::Player(Player::O)),
                decreases n - j,
            {
                let idx = line_index(n, k, j);
                match self.fields[idx] {
                    Field::Player(Player::X) => {
                        all_o = false;
                    },
                    Field::Player(Player::O) => {
                        all_x = false;
                    },
                    Field::Free => {
                        all_x = false;
                        all_o = false;
                    },
                }
                j = j + 1;
            }
            if all_x {
                return GameResult::Player(Player::X);
            }
            if all_o {
                return GameResult::Player(Player::O);
            }
            k = k + 1;
        }
        let mut i: usize = 0;
        while i < self.fields.len()
            invariant
                i <= self.fields@.len(),
                forall|q: int| 0 <= q < i ==> !(self.fields@[q] is Free),
                classify(self.fields@, n as int) == classify_from(self.fields@, n as int, k as int),
                k == lines,
                lines == 2 * n + 2,
                n == self.size,
            decreases self.fields@.len() - i,
        {
            if let Field::Free = self.fields[i] {
                proof {
                    assert(has_free(self.fields@));
                }
                return GameResult::InProgress;
            }
            i = i + 1;
        }
        proof {
            assert(!has_free(self.fields@));
        }
        GameResult::Draw
    }

    /// The free indices, ascending.
    pub fn legal_moves(&self) -> (r: Vec<usize>)
        requires
            self.wf(),
        ensures
            r@ == free_cells(self.fields@),
    {
        let mut r: Vec<usize> = Vec::new();
        let mut i: usize = 0;
        proof {
            lemma_cells_bound(self.size as int);
        }
        while i < self.fields.len()
            invariant
                i <= self.fields@.len() <= 25,
                r@ == free_upto(self.fields@, i as int),
            decreases self.fields@.len() - i,
        {
            if let Field::Free = self.fields[i] {
                r.push(i);
            }
            i = i + 1;
        }
        r
    }
}

pub proof fn lemma_cells_bound(n: int)
    requires
        2 <= n <= 5,
    ensures
        4 <= n * n <= 25,
{
    assert(4 <= n * n <= 25) by (nonlinear_arith)
        requires
            2 <= n <= 5,
    ;
}

proof fn lemma_move_keeps_wf(before: Board, after: Board, i: int)
    requires
        before.wf(),
        0 <= i < before.fields@.len(),
        before.fields@[i] is Free,
        moved(before, after, i),
    ensures
        after.wf(),
        before.balanced() ==> after.balanced(),
{
    lemma_cells_bound(before.size as int);
    assert forall|k: int| 0 <= k < after.moves@.len() implies (#[trigger] after.moves@[k]) < after.fields@.len()
        && after.fields@[after.moves@[k] as int] is Player by {
        if k < before.moves@.len() {
            assert(after.moves@[k] == before.moves@[k]);
            assert(before.fields@[before.moves@[k] as int] is Player);
            assert(before.moves@[k] as int != i);
        }
    }
    assert forall|a: int, b: int| 0 <= a < b < after.moves@.len() implies after.moves@[a] != after.moves@[b] by {
        assert(after.moves@[a] == before.moves@[a]);
        assert(before.fields@[before.moves@[a] as int] is Player);
        if b < before.moves@.len() {
            assert(after.moves@[b] == before.moves@[b]);
        } else {
            assert(after.moves@[b] as int == i);
        }
    }
    let c = before.fields@;
    let v = Field::Player(before.player_turn);
    lemma_cells_bound(before.size as int);
    let len = c.len() as int;
    lemma_count_update(c, len, i, v, Field::Player(Player::X));
    lemma_count_update(c, len, i, v, Field::Player(Player::O));
}

/// The index that cell `q` of a board of side `n` comes from when the board
/// is turned a quarter: cell `(i, j)` moves to `(j, n - 1 - i)`.
pub open spec fn rot_source(n: int, q: int) -> int {
    (n - 1 - q % n) * n + q / n
}

/// The cells of a board of side `n` turned a quarter.
pub open spec fn rotated(cells: Seq<Field>, n: int) -> Seq<Field> {
    Seq::new(cells.len(), |q: int| cells[rot_source(n, q)])
}

pub proof fn lemma_rot_source(n: int, q: int)
    requires
        2 <= n <= 5,
        0 <= q < n * n,
    ensures
        0 <= rot_source(n, q) < n * n,
        rot_source(n, q) / n == n - 1 - q % n,
        rot_source(n, q) % n == q / n,
{
    let a = q / n;
    let b = q % n;
    vstd::arithmetic::div_mod::lemma_fundamental_div_mod(q, n);
    assert(0 <= b < n);
    assert(0 <= a < n) by (nonlinear_arith)
        requires
            q == n * a + b,
            0 <= b < n,
            0 <= q < n * n,
            2 <= n,
    ;
    let s = (n - 1 - b) * n + a;
    assert(0 <= s < n * n) by (nonlinear_arith)
        requires
            0 <= a < n,
            0 <= b < n,
            s == (n - 1 - b) * n + a,
    ;
    vstd::arithmetic::div_mod::lemma_fundamental_div_mod_converse(s, n, n - 1 - b, a);
}

/// The cell `(i, j)` of a turned board holds what cell `(n - 1 - j, i)` held.
pub proof fn lemma_rotated_cell(cells: Seq<Field>, n: int, i: int, j: int)
    requires
        2 <= n <= 5,
        cells.len() == n * n,
        0 <= i < n,
        0 <= j < n,
    ensures
        0 <= i * n + j < n * n,
        0 <= (n - 1 - j) * n + i < n * n,
        rotated(cells, n)[i * n + j] == cells[(n - 1 - j) * n + i],
{
    assert(0 <= i * n + j < n * n) by (nonlinear_arith)
        requires
            0 <= i < n,
            0 <= j < n,
    ;
    assert(0 <= (n - 1 - j) * n + i < n * n) by (nonlinear_arith)
        requires
            0 <= i < n,
            0 <= j < n,
    ;
    vstd::arithmetic::div_mod::lemma_fundamental_div_mod_converse(i * n + j, n, i, j);
}

impl Board {
    /// The board turned a quarter: cell `(i, j)` goes to `(j, size - 1 - i)`.
    /// Side to move and history are kept as they are.
    pub fn rot90board(&self) -> (r: Board)
        requires
            self.shaped(),
        ensures
            r.shaped(),
            r.fields@ == rotated(self.fields@, self.size as int),
            r.moves@ == self.moves@,
            r.player_turn == self.player_turn,
            r.size == self.size,
    {
        let n = self.size as usize;
        let total = self.fields.len();
        proof {
            lemma_cells_bound(n as int);
        }
        let mut out: Vec<Field> = Vec::new();
        let mut q: usize = 0;
        while q < total
            invariant
                self.shaped(),
                n == self.size,
                total == self.fields@.len(),
                total == n * n,
                q <= total,
                out@ =~= rotated(self.fields@, n as int).subrange(0, q as int),
            decreases total - q,
        {
            proof {
                lemma_rot_source(n as int, q as int);
            }
            let src = (n - 1 - q % n) * n + q / n;
            out.push(self.fields[src]);
            q = q + 1;
        }
        let mut moves: Vec<u32> = Vec::new();
        let mut k: usize = 0;
        while k < self.moves.len()
            invariant
                k <= self.moves@.len(),
                moves@ =~= self.moves@.subrange(0, k as int),
            decreases self.moves@.len() - k,
        {
            moves.push(self.moves[k]);
            k = k + 1;
        }
        Board { fields: out, player_turn: self.player_turn, moves, size: self.size }
    }

    /// The numbers of marks of `X` and of `O`.
    pub fn mark_counts(&self) -> (r: (u32, u32))
        requires
            self.wf(),
        ensures
            r.0 == count_of(self.fields@, Field::Player(Player::X)),
            r.1 == count_of(self.fields@, Field::Player(Player::O)),
    {
        let mut x: u32 = 0;
        let mut o: u32 = 0;
        let mut i: usize = 0;
        proof {
            lemma_cells_bound(self.size as int);
        }
        while i < self.fields.len()
            invariant
                i <= self.fields@.len() <= 25,
                x == count_upto(self.fields@, i as int, Field::Player(Player::X)),
                o == count_upto(self.fields@, i as int, Field::Player(Player::O)),
                x <= i,
                o <= i,
            decreases self.fields@.len() - i,
        {
            match self.fields[i] {
                Field::Player(Player::X) => {
                    x = x + 1;
                },
                Field::Player(Player::O) => {
                    o = o + 1;
                },
                Field::Free => {},
            }
            i = i + 1;
        }
        (x, o)
    }

    /// The side to move that the counts of marks give; see `turn_of`.
    pub fn side_by_counts(&self) -> (r: Player)
        requires
            self.wf(),
        ensures
            r == turn_of(self.fields@),
    {
        let (x, o) = self.mark_counts();
        if x == o {
            Player::X
        } else {
            Player::O
        }
    }

    /// Whether the side to move is the one that the counts of marks give; see
    /// `balanced`.
    pub fn is_balanced(&self) -> (r: bool)
        requires
            self.wf(),
        ensures
            r == self.balanced(),
    {
        let (x, o) = self.mark_counts();
        let counts_fit = x == o || (o < x && x - o == 1);
        let side = if x == o {
            Player::X
        } else {
            Player::O
        };
        counts_fit && side == self.player_turn
    }
}

impl Board {
    /// A copy of the board.
    pub fn duplicate(&self) -> (r: Board)
        ensures
            r.fields@ == self.fields@,
            r.moves@ == self.moves@,
            r.player_turn == self.player_turn,
            r.size == self.size,
    {
        let fields = self.fields.clone();
        let moves = self.moves.clone();
        proof {
            assert(fields@ =~= self.fields@);
            assert(moves@ =~= self.moves@);
        }
        Board { fields, player_turn: self.player_turn, moves, size: self.size }
    }

    /// The position after each legal move, in ascending order of the move.
    pub fn generate_moves(&self) -> (r: Vec<Board>)
        requires
            self.wf(),
        ensures
            r@.len() == free_cells(self.fields@).len(),
            forall|k: int|
                0 <= k < r@.len() ==> (#[trigger] r@[k]).wf() && moved(
                    *self,
                    r@[k],
                    free_cells(self.fields@)[k] as int,
                ),
    {
        let free = self.legal_moves();
        proof {
            lemma_cells_bound(self.size as int);
            lemma_free_cells_is_move_list(self.fields@);
        }
        let mut r: Vec<Board> = Vec::new();
        let mut k: usize = 0;
        while k < free.len()
            invariant
                self.wf(),
                free@ == free_cells(self.fields@),
                is_move_list(self.fields@, free@),
                self.fields@.len() <= 25,
                k <= free@.len(),
                r@.len() == k,
                forall|q: int|
                    0 <= q < k ==> (#[trigger] r@[q]).wf() && moved(*self, r@[q], free@[q] as int),
            decreases free@.len() - k,
        {
            let mut child = self.duplicate();
            let i = free[k];
            proof {
                assert(self.fields@[i as int] is Free);
            }
            let _ = child.make_move(i as u32);
            proof {
                assert(moved(*self, child, i as int));
            }
            r.push(child);
            proof {
                assert(r@[k as int] == child);
            }
            k = k + 1;
        }
        r
    }
}

/// Some win line from `k` on belongs wholly to `p`.
pub open spec fn has_line_from(cells: Seq<Field>, n: int, p: Player, k: int) -> bool {
    exists|q: int| k <= q < num_lines(n) && line_full(cells, n, q, p)
}

pub proof fn lemma_classify_from(cells: Seq<Field>, n: int, k: int)
    requires
        0 <= k <= num_lines(n),
    ensures
        forall|p: Player| classify_from(cells, n, k) == GameResult::Player(p) ==> has_line_from(cells, n, p, k),
        forall|p: Player| has_line_from(cells, n, p, k) ==> classify_from(cells, n, k) is Player,
        !has_line_from(cells, n, Player::X, k) && !has_line_from(cells, n, Player::O, k) ==> classify_from(cells, n, k)
            == if has_free(cells) {
            GameResult::InProgress
        } else {
            GameResult::Draw
        },
        forall|p: Player|
            has_line_from(cells, n, p, k) && !has_line_from(cells, n, p.opp(), k) ==> classify_from(cells, n, k)
                == GameResult::Player(p),
    decreases num_lines(n) - k,
{
    if k < num_lines(n) {
        lemma_classify_from(cells, n, k + 1);
        assert forall|p: Player| classify_from(cells, n, k) == GameResult::Player(p) implies has_line_from(cells, n, p, k) by {
            if line_full(cells, n, k, p) {
            } else {
                assert(has_line_from(cells, n, p, k + 1));
                let q = choose|q: int| k + 1 <= q < num_lines(n) && line_full(cells, n, q, p);
            }
        }
        assert forall|p: Player|
            has_line_from(cells, n, p, k) && !has_line_from(cells, n, p.opp(), k) implies classify_from(cells, n, k)
                == GameResult::Player(p) by {
            let q = choose|q: int| k <= q < num_lines(n) && line_full(cells, n, q, p);
            assert(!line_full(cells, n, k, p.opp()));
            if q > k && !line_full(cells, n, k, p) {
                assert(has_line_from(cells, n, p, k + 1));
            }
        }
        assert forall|p: Player| has_line_from(cells, n, p, k) implies classify_from(cells, n, k) is Player by {
            let q = choose|q: int| k <= q < num_lines(n) && line_full(cells, n, q, p);
            if q > k && !line_full(cells, n, k, Player::X) && !line_full(cells, n, k, Player::O) {
                assert(has_line_from(cells, n, p, k + 1));
            }
            if q == k {
                assert(line_full(cells, n, k, p));
            }
        }
        if !has_line_from(cells, n, Player::X, k) && !has_line_from(cells, n, Player::O, k) {
            assert(!line_full(cells, n, k, Player::X));
            assert(!line_full(cells, n, k, Player::O));
            if has_line_from(cells, n, Player::X, k + 1) {
                let q = choose|q: int| k + 1 <= q < num_lines(n) && line_full(cells, n, q, Player::X);
                assert(has_line_from(cells, n, Player::X, k));
            }
            if has_line_from(cells, n, Player::O, k + 1) {
                let q = choose|q: int| k + 1 <= q < num_lines(n) && line_full(cells, n, q, Player::O);
                assert(has_line_from(cells, n, Player::O, k));
            }
        }
    }
}

/// Classification of a position in which not both sides hold a full line
/// (as in every position of a game that stops at its first win): a draw
/// exactly when no line is full and no cell is free, and a win for `p`
/// exactly when some line is wholly `p`'s.
pub proof fn law_classify(cells: Seq<Field>, n: int)
    requires
        MIN_SIZE <= n <= MAX_SIZE,
        cells.len() == n * n,
        !(has_line(cells, n, Player::X) && has_line(cells, n, Player::O)),
    ensures
        classify(cells, n) == GameResult::Draw <==> (!has_line(cells, n, Player::X) && !has_line(cells, n, Player::O)
            && !has_free(cells)),
        forall|p: Player| classify(cells, n) == GameResult::Player(p) <==> has_line(cells, n, p),
{
    lemma_classify_from(cells, n, 0);
    assert(has_line(cells, n, Player::X) == has_line_from(cells, n, Player::X, 0));
    assert(has_line(cells, n, Player::O) == has_line_from(cells, n, Player::O, 0));
    assert forall|p: Player| classify(cells, n) == GameResult::Player(p) <==> has_line(cells, n, p) by {
        assert(has_line(cells, n, p) == has_line_from(cells, n, p, 0));
        assert(has_line(cells, n, p.opp()) == has_line_from(cells, n, p.opp(), 0));
    }
}

/// A move taken back restores the cells, the side to move and the history.
pub proof fn law_move_then_undo(before: Board, mid: Board, after: Board, i: int)
    requires
        before.wf(),
        0 <= i < before.fields@.len(),
        before.fields@[i] is Free,
        moved(before, mid, i),
        unmoved(mid, after),
    ensures
        after.fields@ == before.fields@,
        after.player_turn == before.player_turn,
        after.moves@ == before.moves@,
        after.moves@.len() == before.moves@.len(),
        after.size == before.size,
{
    lemma_cells_bound(before.size as int);
    assert(mid.moves@.last() as int == i);
    assert(after.fields@ =~= before.fields@);
    assert(after.moves@ =~= before.moves@);
}

/// The legal moves and the occupied cells together make up the board.
pub proof fn law_moves_and_marks_fill_board(cells: Seq<Field>)
    requires
        cells.len() <= 25,
    ensures
        free_cells(cells).len() + occupied_count(cells) == cells.len(),
{
    lemma_free_cells_is_move_list(cells);
    lemma_counts_sum(cells, cells.len() as int);
}

/// The side to move in a position reached by alternate play from the empty board.
pub open spec fn turn_of(cells: Seq<Field>) -> Player {
    if count_of(cells, Field::Player(Player::X)) == count_of(cells, Field::Player(Player::O)) {
        Player::X
    } else {
        Player::O
    }
}

/// `X` has as many marks as `O`, or one more.
pub open spec fn counts_ok(cells: Seq<Field>) -> bool {
    let x = count_of(cells, Field::Player(Player::X));
    let o = count_of(cells, Field::Player(Player::O));
    x == o || x == o + 1
}

proof fn lemma_count_all_free(cells: Seq<Field>, i: int)
    requires
        0 <= i <= cells.len(),
        forall|j: int| 0 <= j < cells.len() ==> cells[j] is Free,
    ensures
        count_upto(cells, i, Field::Player(Player::X)) == 0,
        count_upto(cells, i, Field::Player(Player::O)) == 0,
    decreases i,
{
    if i > 0 {
        lemma_count_all_free(cells, i - 1);
    }
}

} // verus!
