use vstd::prelude::*;
use vstd::set_lib::lemma_map_size;
use crate::board::{
    classify, count_of, lemma_cells_bound, count_upto, has_free, has_line, has_line_from, lemma_classify_from,
    lemma_count_update, lemma_line_cell_bounds, lemma_rot_source, lemma_rotated_cell, line_cell, line_full, num_lines,
    rot_source, rotated, turn_of, MAX_SIZE, MIN_SIZE,
};
use crate::player::{Field, GameResult, Player};
use crate::search::{at_least, child_cells, child_value, lemma_fold, lemma_minimax_final, minimax, minimax_fold, worst_for};
use crate::table::{lemma_encode_fits, encode, entry_ok, lemma_same_key_same_cells, position_value, rotated_times, TranspositionTable};

verus! {

/// Where cell `p` of a board of side `n` goes when the board is turned a quarter.
pub open spec fn rot_dest(n: int, p: int) -> int {
    (p % n) * n + (n - 1 - p / n)
}

pub proof fn lemma_rot_dest(n: int, p: int)
    requires
        2 <= n <= 5,
        0 <= p < n * n,
    ensures
        0 <= rot_dest(n, p) < n * n,
        rot_source(n, rot_dest(n, p)) == p,
{
    let a = p / n;
    let b = p % n;
    vstd::arithmetic::div_mod::lemma_fundamental_div_mod(p, n);
    assert(0 <= a < n) by (nonlinear_arith)
        requires
            p == n * a + b,
            0 <= b < n,
            0 <= p < n * n,
            2 <= n,
    ;
    let d = b * n + (n - 1 - a);
    assert(0 <= d < n * n) by (nonlinear_arith)
        requires
            0 <= a < n,
            0 <= b < n,
            d == b * n + (n - 1 - a),
    ;
    vstd::arithmetic::div_mod::lemma_fundamental_div_mod_converse(d, n, b, n - 1 - a);
    assert(rot_source(n, d) == (n - 1 - (n - 1 - a)) * n + b);
    assert(rot_source(n, d) == p) by (nonlinear_arith)
        requires
            rot_source(n, d) == (n - 1 - (n - 1 - a)) * n + b,
            p == n * a + b,
    ;
}

pub proof fn lemma_rot_source_dest(n: int, q: int)
    requires
        2 <= n <= 5,
        0 <= q < n * n,
    ensures
        rot_dest(n, rot_source(n, q)) == q,
{
    lemma_rot_source(n, q);
    let s = rot_source(n, q);
    lemma_rot_dest(n, s);
    let d = rot_dest(n, s);
    assert(d == (q / n) * n + (n - 1 - (n - 1 - q % n)));
    vstd::arithmetic::div_mod::lemma_fundamental_div_mod(q, n);
    assert(d == q) by (nonlinear_arith)
        requires
            d == (q / n) * n + (n - 1 - (n - 1 - q % n)),
            q == n * (q / n) + q % n,
    ;
}

// ---------------------------------------------------------------------------
// Counts do not change under a turn.
// ---------------------------------------------------------------------------

pub open spec fn cells_holding(cells: Seq<Field>, i: int, f: Field) -> Set<int> {
    Set::new(|q: int| 0 <= q < i && cells[q] == f)
}

proof fn lemma_count_as_set(cells: Seq<Field>, i: int, f: Field)
    requires
        0 <= i <= cells.len(),
    ensures
        cells_holding(cells, i, f).finite(),
        cells_holding(cells, i, f).len() == count_upto(cells, i, f),
    decreases i,
{
    if i == 0 {
        assert(cells_holding(cells, 0, f) =~= Set::empty());
    } else {
        lemma_count_as_set(cells, i - 1, f);
        let prev = cells_holding(cells, i - 1, f);
        if cells[i - 1] == f {
            assert(cells_holding(cells, i, f) =~= prev.insert(i - 1));
            assert(!prev.contains(i - 1));
        } else {
            assert(cells_holding(cells, i, f) =~= prev);
        }
    }
}

/// Turning the board keeps the number of cells of each kind.
pub proof fn lemma_rotated_count(cells: Seq<Field>, n: int, f: Field)
    requires
        MIN_SIZE <= n <= MAX_SIZE,
        cells.len() == n * n,
    ensures
        count_of(rotated(cells, n), f) == count_of(cells, f),
{
    let r = rotated(cells, n);
    let len = cells.len() as int;
    lemma_count_as_set(cells, len, f);
    lemma_count_as_set(r, len, f);
    let x = cells_holding(r, len, f);
    let y = cells_holding(cells, len, f);
    let g = |q: int| rot_source(n, q);
    assert forall|a: int, b: int| x.contains(a) && x.contains(b) && #[trigger] g(a) == #[trigger] g(b) implies a == b by {
        lemma_rot_source_dest(n, a);
        lemma_rot_source_dest(n, b);
    }
    assert(x.map(g) =~= y) by {
        assert forall|p: int| y.contains(p) implies x.map(g).contains(p) by {
            lemma_rot_dest(n, p);
            let d = rot_dest(n, p);
            assert(x.contains(d));
            assert(g(d) == p);
        }
        assert forall|p: int| x.map(g).contains(p) implies y.contains(p) by {
            let q = choose|q: int| x.contains(q) && g(q) == p;
            lemma_rot_source(n, q);
        }
    }
    lemma_map_size(x, y, g);
}

/// Turning the board keeps whether a cell is free.
pub proof fn lemma_rotated_has_free(cells: Seq<Field>, n: int)
    requires
        MIN_SIZE <= n <= MAX_SIZE,
        cells.len() == n * n,
    ensures
        has_free(rotated(cells, n)) == has_free(cells),
{
    let r = rotated(cells, n);
    if has_free(cells) {
        let p = choose|p: int| 0 <= p < cells.len() && cells[p] is Free;
        lemma_rot_dest(n, p);
        assert(r[rot_dest(n, p)] is Free);
    }
    if has_free(r) {
        let q = choose|q: int| 0 <= q < r.len() && r[q] is Free;
        lemma_rot_source(n, q);
        assert(cells[rot_source(n, q)] is Free);
    }
}


// ---------------------------------------------------------------------------
// Lines go to lines under a turn.
// ---------------------------------------------------------------------------

/// The line of the unturned board that line `k` of the turned board reads:
/// rows read columns, columns read rows from the bottom, and the diagonals
/// swap.
pub open spec fn rot_line(n: int, k: int) -> int {
    if k < n {
        n + k
    } else if k < 2 * n {
        n - 1 - (k - n)
    } else if k == 2 * n {
        2 * n + 1
    } else {
        2 * n
    }
}

pub proof fn lemma_rotated_line(cells: Seq<Field>, n: int, k: int, p: Player)
    requires
        MIN_SIZE <= n <= MAX_SIZE,
        cells.len() == n * n,
        0 <= k < num_lines(n),
    ensures
        0 <= rot_line(n, k) < num_lines(n),
        line_full(rotated(cells, n), n, k, p) == line_full(cells, n, rot_line(n, k), p),
{
    let r = rotated(cells, n);
    let g = rot_line(n, k);
    let f = Field::Player(p);
    // Cell j of line k of the turned board is cell m(j) of line g of the board.
    if k < n {
        assert forall|j: int| 0 <= j < n implies r[line_cell(n, k, j)] == cells[line_cell(n, g, n - 1 - j)] by {
            lemma_rotated_cell(cells, n, k, j);
        }
    } else if k < 2 * n {
        assert forall|j: int| 0 <= j < n implies r[line_cell(n, k, j)] == cells[line_cell(n, g, j)] by {
            lemma_rotated_cell(cells, n, j, k - n);
        }
    } else if k == 2 * n {
        assert forall|j: int| 0 <= j < n implies r[line_cell(n, k, j)] == cells[line_cell(n, g, n - 1 - j)] by {
            lemma_rotated_cell(cells, n, j, j);
        }
    } else {
        assert forall|j: int| 0 <= j < n implies r[line_cell(n, k, j)] == cells[line_cell(n, g, j)] by {
            lemma_rotated_cell(cells, n, j, n - 1 - j);
        }
    }
    if k < n || k == 2 * n {
        if line_full(r, n, k, p) {
            assert forall|j: int| 0 <= j < n implies #[trigger] cells[line_cell(n, g, j)] == f by {
                assert(r[line_cell(n, k, n - 1 - j)] == f);
            }
        }
        if line_full(cells, n, g, p) {
            assert forall|j: int| 0 <= j < n implies #[trigger] r[line_cell(n, k, j)] == f by {
                assert(cells[line_cell(n, g, n - 1 - j)] == f);
            }
        }
    } else {
        if line_full(r, n, k, p) {
            assert forall|j: int| 0 <= j < n implies #[trigger] cells[line_cell(n, g, j)] == f by {
                assert(r[line_cell(n, k, j)] == f);
            }
        }
        if line_full(cells, n, g, p) {
            assert forall|j: int| 0 <= j < n implies #[trigger] r[line_cell(n, k, j)] == f by {
                assert(cells[line_cell(n, g, j)] == f);
            }
        }
    }
}

/// Turning the board keeps whether a side holds a full line.
pub proof fn lemma_rotated_has_line(cells: Seq<Field>, n: int, p: Player)
    requires
        MIN_SIZE <= n <= MAX_SIZE,
        cells.len() == n * n,
    ensures
        has_line(rotated(cells, n), n, p) == has_line(cells, n, p),
{
    let r = rotated(cells, n);
    if has_line(r, n, p) {
        let k = choose|k: int| 0 <= k < num_lines(n) && line_full(r, n, k, p);
        lemma_rotated_line(cells, n, k, p);
    }
    if has_line(cells, n, p) {
        let g = choose|g: int| 0 <= g < num_lines(n) && line_full(cells, n, g, p);
        // The line of the turned board that reads line g.
        let k = if g < n {
            2 * n - 1 - g
        } else if g < 2 * n {
            g - n
        } else if g == 2 * n {
            2 * n + 1
        } else {
            2 * n
        };
        lemma_rotated_line(cells, n, k, p);
        assert(rot_line(n, k) == g);
    }
}


// ---------------------------------------------------------------------------
// The game value does not change under a turn.
// ---------------------------------------------------------------------------

/// Not both sides hold a full line: true of every position of a game that
/// stops at its first win.
pub open spec fn not_both_won(cells: Seq<Field>, n: int) -> bool {
    !(has_line(cells, n, Player::X) && has_line(cells, n, Player::O))
}

pub proof fn lemma_lines_decide(cells: Seq<Field>, n: int)
    requires
        MIN_SIZE <= n <= MAX_SIZE,
    ensures
        has_line(cells, n, Player::X) && !has_line(cells, n, Player::O) ==> classify(cells, n) == GameResult::Player(Player::X),
        has_line(cells, n, Player::O) && !has_line(cells, n, Player::X) ==> classify(cells, n) == GameResult::Player(Player::O),
        !has_line(cells, n, Player::X) && !has_line(cells, n, Player::O) ==> classify(cells, n) == if has_free(cells) {
            GameResult::InProgress
        } else {
            GameResult::Draw
        },
        classify(cells, n) is InProgress ==> !has_line(cells, n, Player::X) && !has_line(cells, n, Player::O),
{
    lemma_classify_from(cells, n, 0);
    assert(has_line(cells, n, Player::X) == has_line_from(cells, n, Player::X, 0));
    assert(has_line(cells, n, Player::O) == has_line_from(cells, n, Player::O, 0));
    assert(Player::X.opp() == Player::O);
    assert(Player::O.opp() == Player::X);
}

/// A turned position of a game that stops at its first win is classified alike.
pub proof fn lemma_rotated_classify(cells: Seq<Field>, n: int)
    requires
        MIN_SIZE <= n <= MAX_SIZE,
        cells.len() == n * n,
        not_both_won(cells, n),
    ensures
        classify(rotated(cells, n), n) == classify(cells, n),
        not_both_won(rotated(cells, n), n),
{
    let r = rotated(cells, n);
    lemma_rotated_has_line(cells, n, Player::X);
    lemma_rotated_has_line(cells, n, Player::O);
    lemma_rotated_has_free(cells, n);
    lemma_lines_decide(cells, n);
    lemma_lines_decide(r, n);
}

/// Taking cell `j` and turning is turning and taking the cell that `j` goes to.
pub proof fn lemma_rotated_child(cells: Seq<Field>, n: int, turn: Player, j: int)
    requires
        MIN_SIZE <= n <= MAX_SIZE,
        cells.len() == n * n,
        0 <= j < n * n,
    ensures
        0 <= rot_dest(n, j) < n * n,
        rotated(cells, n)[rot_dest(n, j)] == cells[j],
        child_cells(rotated(cells, n), turn, rot_dest(n, j)) == rotated(child_cells(cells, turn, j), n),
{
    lemma_rot_dest(n, j);
    let d = rot_dest(n, j);
    let a = child_cells(rotated(cells, n), turn, d);
    let b = rotated(child_cells(cells, turn, j), n);
    assert forall|q: int| 0 <= q < n * n implies a[q] == b[q] by {
        lemma_rot_source(n, q);
        lemma_rot_source_dest(n, q);
    }
    assert(a =~= b);
}

/// The child of a position still in progress is not won by both sides.
pub proof fn lemma_child_not_both_won(cells: Seq<Field>, n: int, turn: Player, j: int)
    requires
        MIN_SIZE <= n <= MAX_SIZE,
        cells.len() == n * n,
        classify(cells, n) is InProgress,
        0 <= j < cells.len(),
        cells[j] is Free,
    ensures
        not_both_won(child_cells(cells, turn, j), n),
{
    lemma_lines_decide(cells, n);
    let c = child_cells(cells, turn, j);
    let o = turn.opp();
    if has_line(c, n, o) {
        let k = choose|k: int| 0 <= k < num_lines(n) && line_full(c, n, k, o);
        assert forall|q: int| 0 <= q < n implies #[trigger] cells[line_cell(n, k, q)] == Field::Player(o) by {
            lemma_line_cell_bounds(n, k, q);
            assert(c[line_cell(n, k, q)] == Field::Player(o));
            assert(c[j] == Field::Player(turn));
        }
        assert(line_full(cells, n, k, o));
        assert(has_line(cells, n, o));
    }
}

/// Turning a position that is not won by both sides keeps its minimax value.
pub proof fn lemma_rotation_keeps_value(cells: Seq<Field>, n: int, turn: Player, maxp: Player)
    requires
        MIN_SIZE <= n <= MAX_SIZE,
        cells.len() == n * n,
        not_both_won(cells, n),
    ensures
        minimax(rotated(cells, n), n, turn, maxp) == minimax(cells, n, turn, maxp),
    decreases count_of(cells, Field::Free),
{
    let r = rotated(cells, n);
    lemma_rotated_classify(cells, n);
    lemma_minimax_final(cells, n, turn, maxp);
    lemma_minimax_final(r, n, turn, maxp);
    if classify(cells, n) is InProgress {
        let w = worst_for(maxp);
        lemma_fold(cells, n, turn, maxp, 0, w);
        lemma_fold(r, n, turn, maxp, 0, w);
        let a = minimax(cells, n, turn, maxp);
        let b = minimax(r, n, turn, maxp);
        assert(a == minimax_fold(cells, n, turn, maxp, 0, w));
        assert(b == minimax_fold(r, n, turn, maxp, 0, w));
        // Every child of one position has a child of equal value in the other.
        assert forall|j: int| 0 <= j < cells.len() && cells[j] is Free implies child_value(r, n, turn, rot_dest(n, j))
            == child_value(cells, n, turn, j) && 0 <= rot_dest(n, j) < r.len() && r[rot_dest(n, j)] is Free by {
            lemma_rotated_child(cells, n, turn, j);
            lemma_child_not_both_won(cells, n, turn, j);
            lemma_count_update(cells, cells.len() as int, j, Field::Player(turn), Field::Free);
            lemma_rotation_keeps_value(child_cells(cells, turn, j), n, turn.opp(), turn.opp());
        }
        if b != w {
            let d = choose|d: int| 0 <= d < r.len() && r[d] is Free && b == #[trigger] child_value(r, n, turn, d);
            lemma_rot_source(n, d);
            lemma_rot_source_dest(n, d);
            let j = rot_source(n, d);
            assert(child_value(r, n, turn, d) == child_value(cells, n, turn, j));
            assert(at_least(maxp, a, b));
        }
        if a != w {
            let j = choose|j: int| 0 <= j < cells.len() && cells[j] is Free && a == #[trigger] child_value(cells, n, turn, j);
            assert(at_least(maxp, b, child_value(r, n, turn, rot_dest(n, j))));
        }
    }
}

/// The value that a table stores for a position is the same for each of its
/// quarter turns, for positions not won by both sides.
pub proof fn lemma_rotation_keeps_position_value(cells: Seq<Field>, n: int)
    requires
        MIN_SIZE <= n <= MAX_SIZE,
        cells.len() == n * n,
        not_both_won(cells, n),
    ensures
        position_value(rotated(cells, n), n) == position_value(cells, n),
        not_both_won(rotated(cells, n), n),
        rotated(cells, n).len() == n * n,
{
    lemma_rotated_count(cells, n, Field::Player(Player::X));
    lemma_rotated_count(cells, n, Field::Player(Player::O));
    assert(turn_of(rotated(cells, n)) == turn_of(cells));
    let t = turn_of(cells);
    lemma_rotation_keeps_value(cells, n, t, t);
    lemma_rotated_classify(cells, n);
}


/// An entry of a table whose entries all hold exact values holds the value
/// of its own position.
pub proof fn lemma_entry_value(t: TranspositionTable, cells: Seq<Field>)
    requires
        t.valid(),
        MIN_SIZE <= t.size <= MAX_SIZE,
        cells.len() == (t.size as int) * (t.size as int),
        t.holds(cells),
    ensures
        t.entries@[encode(cells) as u64] == position_value(cells, t.size as int),
{
    lemma_cells_bound(t.size as int);
    lemma_encode_fits(cells);
    let key = encode(cells) as u64;
    assert(entry_ok(t.entries@, t.size as int, key));
    let c = choose|c: Seq<Field>|
        c.len() == (t.size as int) * (t.size as int) && #[trigger] encode(c) == key as nat
            && t.entries@[key] == position_value(c, t.size as int);
    lemma_same_key_same_cells(c, cells);
}

/// In a table whose entries all hold exact values, an entry for any quarter
/// turn of a position not won by both sides holds the value of the position.
pub proof fn lemma_turned_entry_value(t: TranspositionTable, cells: Seq<Field>, k: nat)
    requires
        t.valid(),
        MIN_SIZE <= t.size <= MAX_SIZE,
        cells.len() == (t.size as int) * (t.size as int),
        not_both_won(cells, t.size as int),
        t.holds(rotated_times(cells, t.size as int, k)),
    ensures
        t.entries@[encode(rotated_times(cells, t.size as int, k)) as u64] == position_value(cells, t.size as int),
{
    let n = t.size as int;
    lemma_turns_keep_value(cells, n, k);
    lemma_entry_value(t, rotated_times(cells, n, k));
}

proof fn lemma_turns_keep_value(cells: Seq<Field>, n: int, k: nat)
    requires
        MIN_SIZE <= n <= MAX_SIZE,
        cells.len() == n * n,
        not_both_won(cells, n),
    ensures
        rotated_times(cells, n, k).len() == n * n,
        not_both_won(rotated_times(cells, n, k), n),
        position_value(rotated_times(cells, n, k), n) == position_value(cells, n),
    decreases k,
{
    if k > 0 {
        lemma_turns_keep_value(cells, n, (k - 1) as nat);
        lemma_rotation_keeps_position_value(rotated_times(cells, n, (k - 1) as nat), n);
    }
}

} // verus!
