use vstd::prelude::*;
use crate::board::{
    classify, count_of, free_cells, is_move_list, lemma_cells_bound, lemma_count_update, moved,
    turn_of, Board, MAX_SIZE, MIN_SIZE,
};
use crate::heuristics::{move_list, ordered_moves};
use crate::player::{Field, GameResult, Player};
use crate::symmetry::{lemma_child_not_both_won, lemma_lines_decide, lemma_turned_entry_value, not_both_won};
use crate::table::{
    check_for_rotation, encode, lemma_encode_fits, position_value,
    rotated_times, TranspositionTable,
};

verus! {

// ---------------------------------------------------------------------------
// The game value.
// ---------------------------------------------------------------------------

/// The worst outcome for the side that `maxp` names; a search starts from it.
pub open spec fn worst_for(maxp: Player) -> GameResult {
    GameResult::Player(maxp.opp())
}

/// Whether `c` is strictly better than `best` for the side `maxp`.
pub open spec fn improves(maxp: Player, c: GameResult, best: GameResult) -> bool {
    if maxp == Player::X {
        c.score() > best.score()
    } else {
        c.score() < best.score()
    }
}

/// Whether `a` is at least as good as `b` for the side `maxp`.
pub open spec fn at_least(maxp: Player, a: GameResult, b: GameResult) -> bool {
    !improves(maxp, b, a)
}

/// The cells after `turn` takes cell `i`.
pub open spec fn child_cells(cells: Seq<Field>, turn: Player, i: int) -> Seq<Field> {
    cells.update(i, Field::Player(turn))
}

/// The minimax value of a position with `turn` to move, searched for the
/// side `maxp`: the result itself when the game is over, else the best
/// child value for `maxp`, children taken in index order, the first of equal
/// ones kept. Below the root each child is searched for the side to move in it.
pub open spec fn minimax(cells: Seq<Field>, n: int, turn: Player, maxp: Player) -> GameResult
    decreases count_of(cells, Field::Free), 1int, 0int,
{
    let r = classify(cells, n);
    if r is InProgress {
        minimax_fold(cells, n, turn, maxp, 0, worst_for(maxp))
    } else {
        r
    }
}

/// The value of child `i`: the position after `turn` takes it, searched for
/// the side to move there.
pub open spec fn child_value(cells: Seq<Field>, n: int, turn: Player, i: int) -> GameResult
    decreases count_of(cells, Field::Free), 0int, 1int,
{
    if 0 <= i < cells.len() && cells[i] is Free {
        proof {
            lemma_count_update(cells, cells.len() as int, i, Field::Player(turn), Field::Free);
        }
        minimax(child_cells(cells, turn, i), n, turn.opp(), turn.opp())
    } else {
        GameResult::Draw
    }
}

/// The best of `best` and the values of the free cells from `i` on.
pub open spec fn minimax_fold(
    cells: Seq<Field>,
    n: int,
    turn: Player,
    maxp: Player,
    i: int,
    best: GameResult,
) -> GameResult
    decreases count_of(cells, Field::Free), 0int, 2 + cells.len() - i,
{
    if i < 0 || i >= cells.len() {
        best
    } else if cells[i] is Free {
        let c = child_value(cells, n, turn, i);
        minimax_fold(cells, n, turn, maxp, i + 1, if improves(maxp, c, best) { c } else { best })
    } else {
        minimax_fold(cells, n, turn, maxp, i + 1, best)
    }
}


/// The minimax value is a final result: a win or a draw.
pub proof fn lemma_minimax_final(cells: Seq<Field>, n: int, turn: Player, maxp: Player)
    ensures
        minimax(cells, n, turn, maxp).is_final(),
    decreases count_of(cells, Field::Free), 1int, 0int,
{
    if classify(cells, n) is InProgress {
        lemma_fold(cells, n, turn, maxp, 0, worst_for(maxp));
    }
}

/// The fold keeps the best value for `maxp`: it is at least as good as its
/// start and as every child it passes, and it is its start or one of them.
pub proof fn lemma_fold(
    cells: Seq<Field>,
    n: int,
    turn: Player,
    maxp: Player,
    i: int,
    best: GameResult,
)
    requires
        best.is_final(),
        0 <= i <= cells.len(),
    ensures
        ({
            let f = minimax_fold(cells, n, turn, maxp, i, best);
            &&& f.is_final()
            &&& at_least(maxp, f, best)
            &&& forall|j: int|
                i <= j < cells.len() && cells[j] is Free ==> at_least(
                    maxp,
                    f,
                    #[trigger] child_value(cells, n, turn, j),
                )
            &&& f == best || exists|j: int|
                i <= j < cells.len() && cells[j] is Free && f == #[trigger] child_value(
                    cells,
                    n,
                    turn,
                    j,
                )
        }),
    decreases count_of(cells, Field::Free), 0int, 2 + cells.len() - i,
{
    if i < 0 || i >= cells.len() {
    } else if cells[i] is Free {
        let c = child_value(cells, n, turn, i);
        lemma_count_update(cells, cells.len() as int, i, Field::Player(turn), Field::Free);
        lemma_minimax_final(child_cells(cells, turn, i), n, turn.opp(), turn.opp());
        let nb = if improves(maxp, c, best) {
            c
        } else {
            best
        };
        lemma_fold(cells, n, turn, maxp, i + 1, nb);
        let f = minimax_fold(cells, n, turn, maxp, i, best);
        assert(f == minimax_fold(cells, n, turn, maxp, i + 1, nb));
        assert(at_least(maxp, nb, c));
        assert forall|j: int|
            i <= j < cells.len() && cells[j] is Free implies at_least(
                maxp,
                f,
                #[trigger] child_value(cells, n, turn, j),
            ) by {
            if j > i {
            }
        }
        if f != best {
            if f == nb {
                assert(f == child_value(cells, n, turn, i));
            } else {
                let j = choose|j: int|
                    i + 1 <= j < cells.len() && cells[j] is Free && f == #[trigger] child_value(
                        cells,
                        n,
                        turn,
                        j,
                    );
                assert(i <= j);
            }
        }
    } else {
        lemma_fold(cells, n, turn, maxp, i + 1, best);
        let f = minimax_fold(cells, n, turn, maxp, i, best);
        if f != best {
            let j = choose|j: int|
                i + 1 <= j < cells.len() && cells[j] is Free && f == #[trigger] child_value(
                    cells,
                    n,
                    turn,
                    j,
                );
            assert(i <= j);
        }
    }
}


// ---------------------------------------------------------------------------
// Size of the game tree.
// ---------------------------------------------------------------------------

/// Number of positions in the game tree below and including this one.
pub open spec fn tree_size(cells: Seq<Field>, n: int, turn: Player) -> nat
    decreases count_of(cells, Field::Free), 1int, 0int,
{
    if classify(cells, n) is InProgress {
        size_fold(cells, n, turn, 0, 1)
    } else {
        1
    }
}

/// Size of the subtree under child `i`.
pub open spec fn child_size(cells: Seq<Field>, n: int, turn: Player, i: int) -> nat
    decreases count_of(cells, Field::Free), 0int, 1int,
{
    if 0 <= i < cells.len() && cells[i] is Free {
        proof {
            lemma_count_update(cells, cells.len() as int, i, Field::Player(turn), Field::Free);
        }
        tree_size(child_cells(cells, turn, i), n, turn.opp())
    } else {
        0
    }
}

/// `acc` plus the sizes of the subtrees under the free cells from `i` on.
pub open spec fn size_fold(cells: Seq<Field>, n: int, turn: Player, i: int, acc: nat) -> nat
    decreases count_of(cells, Field::Free), 0int, 2 + cells.len() - i,
{
    if i < 0 || i >= cells.len() {
        acc
    } else {
        size_fold(cells, n, turn, i + 1, acc + child_size(cells, n, turn, i))
    }
}

/// The sizes of the subtrees under the cells of `chosen` from `i` on.
pub open spec fn size_sum(cells: Seq<Field>, n: int, turn: Player, i: int, chosen: Set<int>) -> nat
    decreases cells.len() - i,
{
    if i < 0 || i >= cells.len() {
        0
    } else {
        (if chosen.contains(i) {
            child_size(cells, n, turn, i)
        } else {
            0
        }) + size_sum(cells, n, turn, i + 1, chosen)
    }
}

proof fn lemma_size_sum_insert(cells: Seq<Field>, n: int, turn: Player, i: int, chosen: Set<int>, x: int)
    requires
        0 <= i,
        !chosen.contains(x),
        0 <= x < cells.len(),
    ensures
        size_sum(cells, n, turn, i, chosen.insert(x)) == size_sum(cells, n, turn, i, chosen) + if i <= x {
            child_size(cells, n, turn, x)
        } else {
            0
        },
    decreases cells.len() - i,
{
    if i < cells.len() {
        lemma_size_sum_insert(cells, n, turn, i + 1, chosen, x);
    }
}

proof fn lemma_size_sum_subset(cells: Seq<Field>, n: int, turn: Player, i: int, a: Set<int>, b: Set<int>)
    requires
        a.subset_of(b),
    ensures
        size_sum(cells, n, turn, i, a) <= size_sum(cells, n, turn, i, b),
    decreases cells.len() - i,
{
    if 0 <= i < cells.len() {
        lemma_size_sum_subset(cells, n, turn, i + 1, a, b);
    }
}

proof fn lemma_size_fold_sum(cells: Seq<Field>, n: int, turn: Player, i: int, acc: nat)
    requires
        0 <= i,
    ensures
        size_fold(cells, n, turn, i, acc) == acc + size_sum(cells, n, turn, i, Set::new(|j: int| true)),
    decreases cells.len() - i,
{
    if i < cells.len() {
        lemma_size_fold_sum(cells, n, turn, i + 1, acc + child_size(cells, n, turn, i));
    }
}

/// A count held in a `u64`, which stops at its largest value.
pub open spec fn capped(x: nat) -> nat {
    if x > u64::MAX {
        u64::MAX as nat
    } else {
        x
    }
}

/// The result of a search and the number of positions it examined.
pub struct SearchStats {
    pub result: GameResult,
    pub visited: u64,
}

/// `after` holds the same position and history as `before`.
pub open spec fn same_board(before: Board, after: Board) -> bool {
    &&& after.fields@ == before.fields@
    &&& after.moves@ == before.moves@
    &&& after.player_turn == before.player_turn
    &&& after.size == before.size
}

fn worst_result(maxp: Player) -> (r: GameResult)
    ensures
        r == worst_for(maxp),
{
    GameResult::Player(maxp.opponent())
}

pub(crate) fn improves_exec(maxp: Player, c: GameResult, best: GameResult) -> (r: bool)
    ensures
        r == improves(maxp, c, best),
{
    match maxp {
        Player::X => c.beats(&best),
        Player::O => best.beats(&c),
    }
}

/// Plays cell `i`, which is free, for the side to move.
fn play(board: &mut Board, i: usize)
    requires
        old(board).wf(),
        i < old(board).fields@.len(),
        old(board).fields@[i as int] is Free,
    ensures
        final(board).wf(),
        moved(*old(board), *final(board), i as int),
        old(board).balanced() ==> final(board).balanced(),
        count_of(final(board).fields@, Field::Free) + 1 == count_of(old(board).fields@, Field::Free),
{
    proof {
        lemma_cells_bound(old(board).size as int);
        lemma_count_update(old(board).fields@, old(board).fields@.len() as int, i as int, Field::Player(old(board).player_turn), Field::Free);
    }
    let _ = board.make_move(i as u32);
}

/// Takes back the move to cell `i` that `play` made on `before`.
fn unplay(board: &mut Board, Ghost(before): Ghost<Board>, i: usize)
    requires
        before.wf(),
        i < before.fields@.len(),
        before.fields@[i as int] is Free,
        old(board).wf(),
        moved(before, *old(board), i as int),
    ensures
        final(board).wf(),
        same_board(before, *final(board)),
{
    proof {
        lemma_cells_bound(before.size as int);
        assert(old(board).moves@.last() as int == i as int);
    }
    let _ = board.undo_last_move();
    proof {
        assert(board.fields@ =~= before.fields@);
        assert(board.moves@ =~= before.moves@);
    }
}

/// Plain minimax: every legal move in index order, no pruning.
pub fn min_max(board: &mut Board, max_player: Player) -> (r: SearchStats)
    requires
        old(board).wf(),
    ensures
        final(board).wf(),
        same_board(*old(board), *final(board)),
        r.result == minimax(old(board).fields@, old(board).size as int, old(board).player_turn, max_player),
        r.visited == capped(tree_size(old(board).fields@, old(board).size as int, old(board).player_turn)),
    decreases count_of(board.fields@, Field::Free),
{
    let result = board.get_result();
    if !matches!(result, GameResult::InProgress) {
        return SearchStats { result, visited: 1 };
    }
    let ghost start = *board;
    let ghost cells = board.fields@;
    let ghost n = board.size as int;
    let ghost turn = board.player_turn;
    let total = board.fields.len();
    let mut best = worst_result(max_player);
    let mut visited: u64 = 1;
    let ghost mut acc: nat = 1;
    let mut i: usize = 0;
    while i < total
        invariant
            board.wf(),
            same_board(start, *board),
            start.wf(),
            same_board(*old(board), start),
            cells == start.fields@,
            n == start.size as int,
            turn == start.player_turn,
            total == cells.len(),
            i <= total,
            best.is_final(),
            minimax(cells, n, turn, max_player) == minimax_fold(cells, n, turn, max_player, i as int, best),
            tree_size(cells, n, turn) == size_fold(cells, n, turn, i as int, acc),
            visited == capped(acc),
        decreases total - i,
    {
        if let Field::Free = board.fields[i] {
            play(board, i);
            proof {
                assert(board.fields@ == child_cells(cells, turn, i as int));
            }
            let child = min_max(board, board.player_turn);
            unplay(board, Ghost(start), i);
            proof {
                lemma_minimax_final(child_cells(cells, turn, i as int), n, turn.opp(), turn.opp());
                assert(child.result == child_value(cells, n, turn, i as int));
                acc = acc + child_size(cells, n, turn, i as int);
            }
            if improves_exec(max_player, child.result, best) {
                best = child.result;
            }
            visited = visited.saturating_add(child.visited);
        }
        i = i + 1;
    }
    SearchStats { result: best, visited }
}


// ---------------------------------------------------------------------------
// Alpha-beta.
// ---------------------------------------------------------------------------

/// What a search with window `(alpha, beta)` owes on a position of value `v`:
/// for a window that is not empty, a result at or below `alpha` bounds `v`
/// from above, one at or above `beta` bounds it from below, and one inside
/// the window is `v`.
pub open spec fn bounded_by(r: GameResult, alpha: GameResult, beta: GameResult, v: GameResult) -> bool {
    alpha.score() < beta.score() ==> {
        &&& r.score() <= alpha.score() ==> v.score() <= r.score()
        &&& r.score() >= beta.score() ==> v.score() >= r.score()
        &&& alpha.score() < r.score() < beta.score() ==> v.score() == r.score()
    }
}

/// A result of a search with window `(alpha, beta)` that must be the value
/// itself: inside the window, or at the end of the scale on the side it left.
pub open spec fn known_exact(r: GameResult, alpha: GameResult, beta: GameResult) -> bool {
    &&& alpha.score() < beta.score()
    &&& {
        ||| alpha.score() < r.score() < beta.score()
        ||| r.score() <= alpha.score() && r.score() == -1
        ||| r.score() >= beta.score() && r.score() == 1
    }
}

fn is_known_exact(r: GameResult, alpha: GameResult, beta: GameResult) -> (b: bool)
    ensures
        b == known_exact(r, alpha, beta),
{
    let s = r.score_of();
    let a = alpha.score_of();
    let t = beta.score_of();
    a < t && ((a < s && s < t) || (s <= a && s == -1) || (s >= t && s == 1))
}

/// The order in which the engine tries the moves of a position.
#[derive(Debug, Clone, Copy, PartialEq, Eq, Structural)]
pub enum MoveOrder {
    /// Ascending index.
    Index,
    /// Best first by the line-potential score of the child for the mover.
    Lines,
    /// Best first by the near-win score of the child for the mover.
    NearWin,
}

/// Whether and how the engine consults a transposition table.
#[derive(Debug, Clone, Copy, PartialEq, Eq, Structural)]
pub enum CacheMode {
    /// No table.
    Off,
    /// Look a position up by its own cells.
    Exact,
    /// Look a position up in its four quarter turns.
    Turns,
}

/// The engine owes its bounds for these settings: no table, a table for
/// another size, or a table whose entries all hold exact values, searched for
/// the side to move on a position whose counts of marks fit the side to move
/// and, where turns are looked up, that not both sides have won.
pub open spec fn sound_search(mode: CacheMode, table: TranspositionTable, board: Board, maxp: Player) -> bool {
    ||| mode == CacheMode::Off
    ||| table.size != board.size
    ||| {
        &&& table.valid()
        &&& maxp == board.player_turn
        &&& board.balanced()
        &&& mode == CacheMode::Turns ==> not_both_won(board.fields@, board.size as int)
    }
}

/// Playing the cells of `path` in turn from `cells`, `turn` to move first,
/// leads to `c`; each move takes a free cell of a game still in progress.
pub open spec fn follows_path(cells: Seq<Field>, n: int, turn: Player, path: Seq<int>, c: Seq<Field>) -> bool
    decreases path.len(),
{
    if path.len() == 0 {
        c == cells
    } else {
        let i = path[0];
        &&& classify(cells, n) is InProgress
        &&& 0 <= i < cells.len()
        &&& cells[i] is Free
        &&& follows_path(child_cells(cells, turn, i), n, turn.opp(), path.drop_first(), c)
    }
}

/// `key` is the key of a position, as it stands, reached from `cells`.
pub open spec fn key_reached(cells: Seq<Field>, n: int, turn: Player, key: u64) -> bool {
    exists|c: Seq<Field>, path: Seq<int>| #[trigger] follows_path(cells, n, turn, path, c) && encode(c) == key as nat
}

proof fn lemma_key_reached_child(cells: Seq<Field>, n: int, turn: Player, i: int, key: u64)
    requires
        classify(cells, n) is InProgress,
        0 <= i < cells.len(),
        cells[i] is Free,
        key_reached(child_cells(cells, turn, i), n, turn.opp(), key),
    ensures
        key_reached(cells, n, turn, key),
{
    let (c, path) = choose|c: Seq<Field>, path: Seq<int>|
        #[trigger] follows_path(child_cells(cells, turn, i), n, turn.opp(), path, c) && encode(c) == key as nat;
    let longer = seq![i] + path;
    assert(longer.drop_first() =~= path);
    assert(follows_path(cells, n, turn, longer, c));
}

proof fn lemma_key_reached_here(cells: Seq<Field>, n: int, turn: Player)
    requires
        cells.len() <= 25,
    ensures
        key_reached(cells, n, turn, encode(cells) as u64),
{
    lemma_encode_fits(cells);
    assert(follows_path(cells, n, turn, Seq::<int>::empty(), cells));
}

/// The engine reads the table at this position: a table mode and a table
/// for the board's size.
pub open spec fn reads_table(mode: CacheMode, table: TranspositionTable, board: Board) -> bool {
    &&& mode != CacheMode::Off
    &&& table.size == board.size
}

/// The engine stores results of this position: it reads the table, the side
/// searched for is the side to move, and the counts of marks fit that side.
pub open spec fn stores_here(mode: CacheMode, table: TranspositionTable, board: Board, maxp: Player) -> bool {
    &&& reads_table(mode, table, board)
    &&& maxp == board.player_turn
    &&& board.balanced()
}

/// What the table answers for the cells under `mode`: the entry for the cells
/// themselves, or the first of their four turns found.
pub open spec fn table_answer(mode: CacheMode, table: TranspositionTable, cells: Seq<Field>, n: int) -> Option<GameResult> {
    if mode == CacheMode::Exact {
        table.answer(cells)
    } else {
        table.turned_answer(cells, n)
    }
}

/// `after` keeps every key of `before` with its value, and its other keys are
/// those of positions reached from the board, stored as they stand.
pub open spec fn table_grown(before: TranspositionTable, after: TranspositionTable, board: Board) -> bool {
    &&& forall|k: u64| before.entries@.contains_key(k) ==> #[trigger] after.entries@.contains_key(k)
    &&& forall|k: u64| #[trigger] before.entries@.contains_key(k) ==> after.entries@[k] == before.entries@[k]
    &&& forall|k: u64|
        #[trigger] after.entries@.contains_key(k) && !before.entries@.contains_key(k) ==> key_reached(
            board.fields@,
            board.size as int,
            board.player_turn,
            k,
        )
}

/// The search that the engine runs without a table, from the window
/// `(alpha, beta)`: its result and the number of positions it examines.
pub open spec fn ab_run(
    cells: Seq<Field>,
    n: int,
    turn: Player,
    maxp: Player,
    alpha: GameResult,
    beta: GameResult,
    order: MoveOrder,
) -> (GameResult, nat)
    decreases count_of(cells, Field::Free), 1int, 0int,
{
    if classify(cells, n) is InProgress {
        ab_loop(cells, n, turn, maxp, order, move_list(cells, n, turn, order), 0, alpha, beta, worst_for(maxp), 1)
    } else {
        (classify(cells, n), 1)
    }
}

/// The move loop of `ab_run` from move `t` on, with the current window,
/// best result and count.
pub open spec fn ab_loop(
    cells: Seq<Field>,
    n: int,
    turn: Player,
    maxp: Player,
    order: MoveOrder,
    moves: Seq<usize>,
    t: int,
    a: GameResult,
    b: GameResult,
    best: GameResult,
    count: nat,
) -> (GameResult, nat)
    decreases count_of(cells, Field::Free), 0int, moves.len() - t,
{
    if t < 0 || t >= moves.len() {
        (best, count)
    } else if !(moves[t] < cells.len() && cells[moves[t] as int] is Free) {
        (best, count)
    } else {
        let i = moves[t] as int;
        proof {
            lemma_count_update(cells, cells.len() as int, i, Field::Player(turn), Field::Free);
        }
        let child = ab_run(child_cells(cells, turn, i), n, turn.opp(), turn.opp(), a, b, order);
        let best2 = if improves(maxp, child.0, best) {
            child.0
        } else {
            best
        };
        let count2 = count + child.1;
        if maxp == Player::X {
            let a2 = if a.score() < best2.score() {
                best2
            } else {
                a
            };
            if best2.score() >= b.score() {
                (best2, count2)
            } else {
                ab_loop(cells, n, turn, maxp, order, moves, t + 1, a2, b, best2, count2)
            }
        } else {
            let b2 = if b.score() > best2.score() {
                best2
            } else {
                b
            };
            if best2.score() <= a.score() {
                (best2, count2)
            } else {
                ab_loop(cells, n, turn, maxp, order, moves, t + 1, a, b2, best2, count2)
            }
        }
    }
}

/// What the engine knows of the position it searches once the table has
/// been read and the game found in progress.
#[verifier::opaque]
pub open spec fn node_facts(
    mode: CacheMode,
    table0: TranspositionTable,
    start: Board,
    maxp: Player,
    reads: bool,
    stores: bool,
    sound: bool,
) -> bool {
    &&& sound == sound_search(mode, table0, start, maxp)
    &&& sound && mode != CacheMode::Off && table0.size == start.size ==> maxp == start.player_turn
        && start.balanced()
    &&& not_both_won(start.fields@, start.size as int)
    &&& reads == reads_table(mode, table0, start)
    &&& stores == stores_here(mode, table0, start, maxp)
    &&& reads ==> table_answer(mode, table0, start.fields@, start.size as int) is None
    &&& reads ==> !table0.entries@.contains_key(encode(start.fields@) as u64)
}

/// A table grown by the search of a child, after growing from `start`'s own
/// search, has grown from `start`.
proof fn lemma_grown_through_child(
    t0: TranspositionTable,
    t1: TranspositionTable,
    t2: TranspositionTable,
    start: Board,
    child: Board,
    i: int,
)
    requires
        table_grown(t0, t1, start),
        table_grown(t1, t2, child),
        classify(start.fields@, start.size as int) is InProgress,
        0 <= i < start.fields@.len(),
        start.fields@[i] is Free,
        child.fields@ == child_cells(start.fields@, start.player_turn, i),
        child.size == start.size,
        child.player_turn == start.player_turn.opp(),
    ensures
        table_grown(t0, t2, start),
{
    let cells = start.fields@;
    let n = start.size as int;
    let turn = start.player_turn;
    assert forall|k: u64| #[trigger] t2.entries@.contains_key(k) && !t0.entries@.contains_key(k) implies key_reached(
        cells,
        n,
        turn,
        k,
    ) by {
        if !t1.entries@.contains_key(k) {
            assert(key_reached(child.fields@, n, turn.opp(), k));
            lemma_key_reached_child(cells, n, turn, i, k);
        }
    }
    assert forall|k: u64| #[trigger] t0.entries@.contains_key(k) implies t2.entries@[k] == t0.entries@[k] by {
        assert(t1.entries@.contains_key(k));
    }
}

/// The search of a child of a sound search in progress is sound.
proof fn lemma_child_sound(mode: CacheMode, table: TranspositionTable, start: Board, child: Board, maxp: Player, i: int)
    requires
        sound_search(mode, table, start, maxp) || (mode != CacheMode::Off && table.size == start.size && table.valid()
            && maxp == start.player_turn && start.balanced() && (mode == CacheMode::Turns ==> not_both_won(start.fields@, start.size as int))),
        mode == CacheMode::Off || table.size != start.size || table.valid(),
        MIN_SIZE <= start.size <= MAX_SIZE,
        start.fields@.len() == (start.size as int) * (start.size as int),
        classify(start.fields@, start.size as int) is InProgress,
        0 <= i < start.fields@.len(),
        start.fields@[i] is Free,
        child.fields@ == child_cells(start.fields@, start.player_turn, i),
        child.size == start.size,
        child.player_turn == start.player_turn.opp(),
        start.balanced() ==> child.balanced(),
    ensures
        sound_search(mode, table, child, child.player_turn),
{
    if mode != CacheMode::Off && table.size == start.size {
        lemma_child_not_both_won(start.fields@, start.size as int, start.player_turn, i);
    }
}

/// When every move has been searched, the best child value seen is the value.
proof fn lemma_all_children(
    cells: Seq<Field>,
    n: int,
    turn: Player,
    maxp: Player,
    moves: Seq<usize>,
    v: GameResult,
)
    requires
        classify(cells, n) is InProgress,
        cells.len() <= 25,
        is_move_list(cells, moves),
        forall|u: int| 0 <= u < moves.len() ==> at_least(maxp, v, #[trigger] child_value(cells, n, turn, moves[u] as int)),
        v == worst_for(maxp) || exists|u: int| 0 <= u < moves.len() && v == #[trigger] child_value(cells, n, turn, moves[u] as int),
    ensures
        minimax(cells, n, turn, maxp).score() == v.score(),
{
    lemma_fold(cells, n, turn, maxp, 0, worst_for(maxp));
    let m = minimax(cells, n, turn, maxp);
    assert(m == minimax_fold(cells, n, turn, maxp, 0, worst_for(maxp)));
    if m != worst_for(maxp) {
        let j = choose|j: int| 0 <= j < cells.len() && cells[j] is Free && m == #[trigger] child_value(cells, n, turn, j);
        assert(moves.contains(j as usize));
        let u = choose|u: int| 0 <= u < moves.len() && moves[u] == j as usize;
        assert(at_least(maxp, v, child_value(cells, n, turn, moves[u] as int)));
    }
    if v != worst_for(maxp) {
        let u = choose|u: int| 0 <= u < moves.len() && v == #[trigger] child_value(cells, n, turn, moves[u] as int);
        let j = moves[u] as int;
        assert(cells[j] is Free);
    }
}

/// The moves of the position in the order that `order` asks for.
fn search_moves(board: &Board, order: MoveOrder) -> (r: Vec<usize>)
    requires
        board.wf(),
    ensures
        is_move_list(board.fields@, r@),
        order == MoveOrder::Index ==> r@ == free_cells(board.fields@),
        r@ == move_list(board.fields@, board.size as int, board.player_turn, order),
{
    ordered_moves(board, order)
}

/// The search engine: alpha-beta over the moves in the order `order` asks
/// for, with the table read and filled as `mode` says. A table of the
/// board's size is read first, for every position: an entry found (for the
/// position itself, or for `Turns` in one of its quarter turns) is returned
/// without search and the table is left as it was. The position's own result
/// is stored, under its cells as they stand, where the side searched for is
/// the side to move and the counts of marks fit that side, when the position
/// is over or the window shows the result to be exact. No entry already in
/// the table is overwritten.
#[verifier::rlimit(100)]
#[verifier::spinoff_prover]
pub fn search_engine(
    board: &mut Board,
    alfa: GameResult,
    beta: GameResult,
    max_player: Player,
    order: MoveOrder,
    mode: CacheMode,
    table: &mut TranspositionTable,
) -> (r: SearchStats)
    requires
        old(board).wf(),
    ensures
        final(board).wf(),
        same_board(*old(board), *final(board)),
        final(table).size == old(table).size,
        mode == CacheMode::Off ==> final(table).entries@ == old(table).entries@,
        mode != CacheMode::Off && old(table).valid() ==> final(table).valid(),
        table_grown(*old(table), *final(table), *old(board)),
        reads_table(mode, *old(table), *old(board)) && table_answer(
            mode,
            *old(table),
            old(board).fields@,
            old(board).size as int,
        ) is Some ==> table_answer(mode, *old(table), old(board).fields@, old(board).size as int)
            == Some(r.result) && final(table).entries@ == old(table).entries@ && r.visited == 0,
        stores_here(mode, *old(table), *old(board), max_player) && table_answer(
            mode,
            *old(table),
            old(board).fields@,
            old(board).size as int,
        ) is None && (!(classify(old(board).fields@, old(board).size as int) is InProgress) || known_exact(
            r.result,
            alfa,
            beta,
        )) ==> final(table).entries@.contains_key(encode(old(board).fields@) as u64)
            && final(table).entries@[encode(old(board).fields@) as u64] == r.result,
        r.visited <= capped(tree_size(old(board).fields@, old(board).size as int, old(board).player_turn)),
        mode == CacheMode::Off ==> r.result == ab_run(old(board).fields@, old(board).size as int, old(board).player_turn, max_player, alfa, beta, order).0
            && r.visited == capped(ab_run(old(board).fields@, old(board).size as int, old(board).player_turn, max_player, alfa, beta, order).1),
        sound_search(mode, *old(table), *old(board), max_player) ==> r.result.is_final() && bounded_by(
            r.result,
            alfa,
            beta,
            minimax(old(board).fields@, old(board).size as int, old(board).player_turn, max_player),
        ),
    decreases count_of(board.fields@, Field::Free),
{
    let ghost start = *board;
    let ghost cells = board.fields@;
    let ghost n = board.size as int;
    let ghost turn = board.player_turn;
    let ghost sound = sound_search(mode, *table, *board, max_player);
    let ghost mm = minimax(cells, n, turn, max_player);
    let ghost table0 = *table;
    proof {
        lemma_minimax_final(cells, n, turn, max_player);
        lemma_cells_bound(n);
        lemma_encode_fits(cells);
    }
    let reads = !matches!(mode, CacheMode::Off) && table.size == board.size;
    let stores = reads && max_player == board.player_turn && board.is_balanced();
    if reads {
        let hit = if matches!(mode, CacheMode::Exact) {
            table.lookup(board)
        } else {
            check_for_rotation(board, table)
        };
        if let Some(v) = hit {
            proof {
                if sound {
                    reveal_with_fuel(rotated_times, 1);
                    if mode == CacheMode::Turns {
                        if table.holds(cells) {
                            lemma_turned_entry_value(*table, cells, 0);
                        } else if table.holds(rotated_times(cells, n, 1)) {
                            lemma_turned_entry_value(*table, cells, 1);
                        } else if table.holds(rotated_times(cells, n, 2)) {
                            lemma_turned_entry_value(*table, cells, 2);
                        } else {
                            lemma_turned_entry_value(*table, cells, 3);
                        }
                    }
                    assert(v == position_value(cells, n));
                }
            }
            return SearchStats { result: v, visited: 0 };
        }
    }
    proof {
        if reads {
            assert(!table0.entries@.contains_key(encode(cells) as u64));
        }
    }
    let result = board.get_result();
    if !matches!(result, GameResult::InProgress) {
        if stores {
            table.store(board, result);
            proof {
                lemma_key_reached_here(cells, n, turn);
                assert(result == position_value(cells, n));
            }
        }
        return SearchStats { result, visited: 1 };
    }
    proof {
        lemma_lines_decide(cells, n);
    }
    let moves = search_moves(board, order);
    let mut visited: u64 = 1;
    let ghost mut explored: Set<int> = Set::empty();
    let mut best = worst_result(max_player);
    let ghost mut vbest = worst_for(max_player);
    let ghost alfa0 = alfa;
    let ghost beta0 = beta;
    let mut a = alfa;
    let mut b = beta;
    let mut cut = false;
    let mut t: usize = 0;
    let ghost mut acc: nat = 1;
    let ghost run = ab_run(cells, n, turn, max_player, alfa, beta, order);
    proof {
        reveal(node_facts);
        assert(node_facts(mode, table0, start, max_player, reads, stores, sound));
        assert(explored =~= Set::new(|j: int| exists|u: int| 0 <= u < 0 && j == moves@[u] as int));
        lemma_fold(cells, n, turn, max_player, 0, worst_for(max_player));
        assert(mm == minimax_fold(cells, n, turn, max_player, 0, worst_for(max_player)));
    }
    while t < moves.len() && !cut
        invariant
            board.wf(),
            start.wf(),
            same_board(start, *board),
            same_board(*old(board), start),
            cells == start.fields@,
            n == start.size as int,
            turn == start.player_turn,
            classify(cells, n) is InProgress,
            mm == minimax(cells, n, turn, max_player),
            mm.is_final(),
            forall|j: int| 0 <= j < cells.len() && cells[j] is Free ==> at_least(max_player, mm, #[trigger] child_value(cells, n, turn, j)),
            is_move_list(cells, moves@),
            t <= moves@.len(),
            cut ==> t > 0,
            run == ab_run(cells, n, turn, max_player, alfa, beta, order),
            moves@ == move_list(cells, n, turn, order),
            mode == CacheMode::Off ==> visited == capped(acc),
            mode == CacheMode::Off ==> if cut {
                run == (best, acc)
            } else {
                run == ab_loop(cells, n, turn, max_player, order, moves@, t as int, a, b, best, acc)
            },
            cells.len() <= 25,
            explored == Set::new(|j: int| exists|u: int| 0 <= u < t && j == moves@[u] as int),
            visited <= capped(1 + size_sum(cells, n, turn, 0, explored)),
            sound ==> best.is_final(),
            vbest.is_final(),
            forall|u: int| 0 <= u < t ==> at_least(max_player, vbest, #[trigger] child_value(cells, n, turn, moves@[u] as int)),
            vbest == worst_for(max_player) || exists|u: int| 0 <= u < t && vbest == #[trigger] child_value(cells, n, turn, moves@[u] as int),
            table.size == old(table).size,
            mode == CacheMode::Off ==> table.entries@ == old(table).entries@,
            mode != CacheMode::Off && old(table).valid() ==> table.valid(),
            table0 == *old(table),
            table_grown(table0, *table, start),
            sound == sound_search(mode, *old(table), *old(board), max_player),
            sound ==> mode == CacheMode::Off || table.size != start.size || table.valid(),
            node_facts(mode, table0, start, max_player, reads, stores, sound),
            alfa0 == alfa,
            beta0 == beta,
            max_player == Player::X ==> b == beta && a.score() == if alfa.score() > best.score() { alfa.score() } else { best.score() },
            max_player == Player::O ==> a == alfa && b.score() == if beta.score() < best.score() { beta.score() } else { best.score() },
            sound && alfa.score() < beta.score() && max_player == Player::X ==> {
                &&& !cut && t > 0 ==> best.score() < beta.score()
                &&& !cut && best.score() <= alfa.score() ==> vbest.score() <= best.score()
                &&& !cut && best.score() > alfa.score() ==> vbest.score() == best.score()
                &&& cut ==> best.score() >= beta.score() && mm.score() >= best.score()
            },
            sound && alfa.score() < beta.score() && max_player == Player::O ==> {
                &&& !cut && t > 0 ==> best.score() > alfa.score()
                &&& !cut && best.score() >= beta.score() ==> vbest.score() >= best.score()
                &&& !cut && best.score() < beta.score() ==> vbest.score() == best.score()
                &&& cut ==> best.score() <= alfa.score() && mm.score() <= best.score()
            },
        decreases moves@.len() - t,
    {
        let i = moves[t];
        play(board, i);
        proof {
            assert(board.fields@ == child_cells(cells, turn, i as int));
        }
        proof {
            if sound {
                reveal(node_facts);
                lemma_child_sound(mode, *table, start, *board, max_player, i as int);
            }
        }
        let ghost before = *table;
        let ghost at_child = *board;
        let ghost a0 = a;
        let ghost b0 = b;
        let ghost best0 = best;
        let ghost acc0 = acc;
        let ghost visited0 = visited;
        let child = search_engine(board, a, b, board.player_turn, order, mode, table);
        proof {
            lemma_grown_through_child(table0, before, *table, start, at_child, i as int);
        }
        unplay(board, Ghost(start), i);
        visited = visited.saturating_add(child.visited);
        proof {
            assert(!explored.contains(i as int)) by {
                if explored.contains(i as int) {
                    let u = choose|u: int| 0 <= u < t && i as int == moves@[u] as int;
                    assert(moves@[u] != moves@[t as int]);
                }
            }
            lemma_size_sum_insert(cells, n, turn, 0, explored, i as int);
            lemma_count_update(cells, cells.len() as int, i as int, Field::Player(turn), Field::Free);
            assert(child.visited <= capped(child_size(cells, n, turn, i as int)));
            explored = explored.insert(i as int);
            assert(explored =~= Set::new(|j: int| exists|u: int| 0 <= u < t + 1 && j == moves@[u] as int)) by {
                assert forall|j: int| explored.contains(j) implies exists|u: int| 0 <= u < t + 1 && j == moves@[u] as int by {
                    if j == i as int {
                        assert(j == moves@[t as int] as int);
                    } else {
                        let u = choose|u: int| 0 <= u < t && j == moves@[u] as int;
                    }
                }
            }
        }
        let ghost cv = child_value(cells, n, turn, i as int);
        proof {
            lemma_minimax_final(child_cells(cells, turn, i as int), n, turn.opp(), turn.opp());
            assert(cv == minimax(child_cells(cells, turn, i as int), n, turn.opp(), turn.opp()));
            if improves(max_player, cv, vbest) {
                vbest = cv;
            }
        }
        if improves_exec(max_player, child.result, best) {
            best = child.result;
        }
        match max_player {
            Player::X => {
                if a.score_of() < best.score_of() {
                    a = best;
                }
                if best.score_of() >= b.score_of() {
                    cut = true;
                }
            },
            Player::O => {
                if b.score_of() > best.score_of() {
                    b = best;
                }
                if best.score_of() <= a.score_of() {
                    cut = true;
                }
            },
        }
        proof {
            let cr = ab_run(child_cells(cells, turn, i as int), n, turn.opp(), turn.opp(), a0, b0, order);
            acc = acc0 + cr.1;
            if mode == CacheMode::Off {
                assert(ab_loop(cells, n, turn, max_player, order, moves@, t as int, a0, b0, best0, acc0) == if cut {
                    (best, acc)
                } else {
                    ab_loop(cells, n, turn, max_player, order, moves@, t + 1, a, b, best, acc)
                });
                assert(visited == capped(acc));
            }
        }
        t = t + 1;
    }
    proof {
        if !cut {
            lemma_all_children(cells, n, turn, max_player, moves@, vbest);
        }
        lemma_size_sum_subset(cells, n, turn, 0, explored, Set::new(|j: int| true));
        lemma_size_fold_sum(cells, n, turn, 0, 1);
    }
    if stores && is_known_exact(best, alfa, beta) {
        let ghost before = *table;
        table.store(board, best);
        proof {
            reveal(node_facts);
            lemma_key_reached_here(cells, n, turn);
            if table0.valid() {
                assert(sound);
                assert(best == position_value(cells, n));
            }
        }
    }
    SearchStats { result: best, visited }
}


// ---------------------------------------------------------------------------
// The named searches.
// ---------------------------------------------------------------------------

/// The window that covers every result: from a win of `O` to a win of `X`.
pub open spec fn full_window(alfa: GameResult, beta: GameResult) -> bool {
    alfa == GameResult::Player(Player::O) && beta == GameResult::Player(Player::X)
}

/// Pruning does not change the outcome: an alpha-beta result over the full
/// window is the minimax value of the position.
pub proof fn law_pruning_keeps_value(cells: Seq<Field>, n: int, turn: Player, maxp: Player, r: GameResult)
    requires
        r.is_final(),
        bounded_by(r, GameResult::Player(Player::O), GameResult::Player(Player::X), minimax(cells, n, turn, maxp)),
    ensures
        r == minimax(cells, n, turn, maxp),
{
    lemma_minimax_final(cells, n, turn, maxp);
}

/// A search through a table and one without it, both over the full window on
/// the same position, return the same result.
pub proof fn law_table_keeps_value(
    cells: Seq<Field>,
    n: int,
    turn: Player,
    maxp: Player,
    with_table: GameResult,
    without_table: GameResult,
)
    requires
        with_table.is_final(),
        without_table.is_final(),
        bounded_by(with_table, GameResult::Player(Player::O), GameResult::Player(Player::X), minimax(cells, n, turn, maxp)),
        bounded_by(without_table, GameResult::Player(Player::O), GameResult::Player(Player::X), minimax(cells, n, turn, maxp)),
    ensures
        with_table == without_table,
{
    lemma_minimax_final(cells, n, turn, maxp);
}

fn run_without_table(
    board: &mut Board,
    alfa: GameResult,
    beta: GameResult,
    max_player: Player,
    order: MoveOrder,
) -> (r: SearchStats)
    requires
        old(board).wf(),
    ensures
        final(board).wf(),
        same_board(*old(board), *final(board)),
        r.result.is_final(),
        bounded_by(r.result, alfa, beta, minimax(old(board).fields@, old(board).size as int, old(board).player_turn, max_player)),
        r.visited <= capped(tree_size(old(board).fields@, old(board).size as int, old(board).player_turn)),
        r.result == ab_run(old(board).fields@, old(board).size as int, old(board).player_turn, max_player, alfa, beta, order).0,
        r.visited == capped(ab_run(old(board).fields@, old(board).size as int, old(board).player_turn, max_player, alfa, beta, order).1),
        full_window(alfa, beta) ==> r.result == minimax(old(board).fields@, old(board).size as int, old(board).player_turn, max_player),
{
    let mut unused = TranspositionTable::new(board.size);
    let r = search_engine(board, alfa, beta, max_player, order, CacheMode::Off, &mut unused);
    proof {
        lemma_minimax_final(old(board).fields@, old(board).size as int, old(board).player_turn, max_player);
    }
    r
}

/// Pruning examines no more positions than plain minimax: a count bounded by
/// the size of the game tree does not exceed the count of the whole tree.
pub proof fn law_pruning_visits_no_more(cells: Seq<Field>, n: int, turn: Player, pruned: nat, plain: nat)
    requires
        pruned <= capped(tree_size(cells, n, turn)),
        plain == capped(tree_size(cells, n, turn)),
    ensures
        pruned <= plain,
{
}

/// Alpha-beta with the moves in index order.
pub fn alpha_beta(board: &mut Board, alfa: GameResult, beta: GameResult, max_player: Player) -> (r: SearchStats)
    requires
        old(board).wf(),
    ensures
        final(board).wf(),
        same_board(*old(board), *final(board)),
        r.result.is_final(),
        bounded_by(r.result, alfa, beta, minimax(old(board).fields@, old(board).size as int, old(board).player_turn, max_player)),
        r.visited <= capped(tree_size(old(board).fields@, old(board).size as int, old(board).player_turn)),
        r.result == ab_run(old(board).fields@, old(board).size as int, old(board).player_turn, max_player, alfa, beta, MoveOrder::Index).0,
        r.visited == capped(ab_run(old(board).fields@, old(board).size as int, old(board).player_turn, max_player, alfa, beta, MoveOrder::Index).1),
        full_window(alfa, beta) ==> r.result == minimax(old(board).fields@, old(board).size as int, old(board).player_turn, max_player),
{
    run_without_table(board, alfa, beta, max_player, MoveOrder::Index)
}

/// Alpha-beta with the moves ordered by line-potential score.
pub fn alpha_beta_h1(board: &mut Board, alfa: GameResult, beta: GameResult, max_player: Player) -> (r: SearchStats)
    requires
        old(board).wf(),
    ensures
        final(board).wf(),
        same_board(*old(board), *final(board)),
        r.result.is_final(),
        bounded_by(r.result, alfa, beta, minimax(old(board).fields@, old(board).size as int, old(board).player_turn, max_player)),
        r.visited <= capped(tree_size(old(board).fields@, old(board).size as int, old(board).player_turn)),
        r.result == ab_run(old(board).fields@, old(board).size as int, old(board).player_turn, max_player, alfa, beta, MoveOrder::Lines).0,
        r.visited == capped(ab_run(old(board).fields@, old(board).size as int, old(board).player_turn, max_player, alfa, beta, MoveOrder::Lines).1),
        full_window(alfa, beta) ==> r.result == minimax(old(board).fields@, old(board).size as int, old(board).player_turn, max_player),
{
    run_without_table(board, alfa, beta, max_player, MoveOrder::Lines)
}

/// Alpha-beta with the moves ordered by near-win score.
pub fn alpha_beta_h2(board: &mut Board, alfa: GameResult, beta: GameResult, max_player: Player) -> (r: SearchStats)
    requires
        old(board).wf(),
    ensures
        final(board).wf(),
        same_board(*old(board), *final(board)),
        r.result.is_final(),
        bounded_by(r.result, alfa, beta, minimax(old(board).fields@, old(board).size as int, old(board).player_turn, max_player)),
        r.visited <= capped(tree_size(old(board).fields@, old(board).size as int, old(board).player_turn)),
        r.result == ab_run(old(board).fields@, old(board).size as int, old(board).player_turn, max_player, alfa, beta, MoveOrder::NearWin).0,
        r.visited == capped(ab_run(old(board).fields@, old(board).size as int, old(board).player_turn, max_player, alfa, beta, MoveOrder::NearWin).1),
        full_window(alfa, beta) ==> r.result == minimax(old(board).fields@, old(board).size as int, old(board).player_turn, max_player),
{
    run_without_table(board, alfa, beta, max_player, MoveOrder::NearWin)
}

fn run_with_table(
    board: &mut Board,
    alfa: GameResult,
    beta: GameResult,
    max_player: Player,
    order: MoveOrder,
    mode: CacheMode,
    look_up: &mut TranspositionTable,
) -> (r: SearchStats)
    requires
        mode != CacheMode::Off,
        old(board).wf(),
    ensures
        final(board).wf(),
        same_board(*old(board), *final(board)),
        final(look_up).size == old(look_up).size,
        old(look_up).valid() ==> final(look_up).valid(),
        table_grown(*old(look_up), *final(look_up), *old(board)),
        reads_table(mode, *old(look_up), *old(board)) && table_answer(
            mode,
            *old(look_up),
            old(board).fields@,
            old(board).size as int,
        ) is Some ==> table_answer(mode, *old(look_up), old(board).fields@, old(board).size as int)
            == Some(r.result) && final(look_up).entries@ == old(look_up).entries@ && r.visited == 0,
        stores_here(mode, *old(look_up), *old(board), max_player) && table_answer(
            mode,
            *old(look_up),
            old(board).fields@,
            old(board).size as int,
        ) is None && (!(classify(old(board).fields@, old(board).size as int) is InProgress) || known_exact(
            r.result,
            alfa,
            beta,
        )) ==> final(look_up).entries@.contains_key(encode(old(board).fields@) as u64)
            && final(look_up).entries@[encode(old(board).fields@) as u64] == r.result,
        r.visited <= capped(tree_size(old(board).fields@, old(board).size as int, old(board).player_turn)),
        sound_search(mode, *old(look_up), *old(board), max_player) ==> r.result.is_final() && bounded_by(
            r.result,
            alfa,
            beta,
            minimax(old(board).fields@, old(board).size as int, old(board).player_turn, max_player),
        ),
        sound_search(mode, *old(look_up), *old(board), max_player) && full_window(alfa, beta) ==> r.result == minimax(
            old(board).fields@,
            old(board).size as int,
            old(board).player_turn,
            max_player,
        ),
{
    let r = search_engine(board, alfa, beta, max_player, order, mode, look_up);
    proof {
        lemma_minimax_final(old(board).fields@, old(board).size as int, old(board).player_turn, max_player);
    }
    r
}

/// Alpha-beta in index order through a transposition table keyed by the
/// exact cells. Where a table of the board's size holds the position, its
/// entry is returned without search and the table is left as it was. The
/// table keeps its entries and values and gains only positions reached from
/// the board, stored as they stand. With a table whose entries all hold exact
/// values, searched for the side to move on a position whose counts of marks
/// fit it, the result is what `alpha_beta` owes, and the table stays so.
pub fn alpha_beta_lookup(
    board: &mut Board,
    alfa: GameResult,
    beta: GameResult,
    max_player: Player,
    look_up: &mut TranspositionTable,
) -> (r: SearchStats)
    requires
        old(board).wf(),
    ensures
        final(board).wf(),
        same_board(*old(board), *final(board)),
        final(look_up).size == old(look_up).size,
        old(look_up).valid() ==> final(look_up).valid(),
        table_grown(*old(look_up), *final(look_up), *old(board)),
        reads_table(CacheMode::Exact, *old(look_up), *old(board)) && table_answer(
            CacheMode::Exact,
            *old(look_up),
            old(board).fields@,
            old(board).size as int,
        ) is Some ==> table_answer(CacheMode::Exact, *old(look_up), old(board).fields@, old(board).size as int)
            == Some(r.result) && final(look_up).entries@ == old(look_up).entries@ && r.visited == 0,
        stores_here(CacheMode::Exact, *old(look_up), *old(board), max_player) && table_answer(
            CacheMode::Exact,
            *old(look_up),
            old(board).fields@,
            old(board).size as int,
        ) is None && (!(classify(old(board).fields@, old(board).size as int) is InProgress) || known_exact(
            r.result,
            alfa,
            beta,
        )) ==> final(look_up).entries@.contains_key(encode(old(board).fields@) as u64)
            && final(look_up).entries@[encode(old(board).fields@) as u64] == r.result,
        r.visited <= capped(tree_size(old(board).fields@, old(board).size as int, old(board).player_turn)),
        sound_search(CacheMode::Exact, *old(look_up), *old(board), max_player) ==> r.result.is_final() && bounded_by(
            r.result,
            alfa,
            beta,
            minimax(old(board).fields@, old(board).size as int, old(board).player_turn, max_player),
        ),
        sound_search(CacheMode::Exact, *old(look_up), *old(board), max_player) && full_window(alfa, beta) ==> r.result == minimax(
            old(board).fields@,
            old(board).size as int,
            old(board).player_turn,
            max_player,
        ),
{
    run_with_table(board, alfa, beta, max_player, MoveOrder::Index, CacheMode::Exact, look_up)
}

/// Alpha-beta in index order through a table that recognises a position in
/// any of its four quarter turns: where a table of the board's size holds the
/// position in one of them, the first entry found for the position as it
/// stands, turned a quarter, a half or three quarters, is returned without
/// search. Entries are stored under the position as it
/// stands. Otherwise it owes what `alpha_beta_lookup` owes.
pub fn alpha_beta_lookup_sym(
    board: &mut Board,
    alfa: GameResult,
    beta: GameResult,
    max_player: Player,
    look_up: &mut TranspositionTable,
) -> (r: SearchStats)
    requires
        old(board).wf(),
    ensures
        final(board).wf(),
        same_board(*old(board), *final(board)),
        final(look_up).size == old(look_up).size,
        old(look_up).valid() ==> final(look_up).valid(),
        table_grown(*old(look_up), *final(look_up), *old(board)),
        reads_table(CacheMode::Turns, *old(look_up), *old(board)) && table_answer(
            CacheMode::Turns,
            *old(look_up),
            old(board).fields@,
            old(board).size as int,
        ) is Some ==> table_answer(CacheMode::Turns, *old(look_up), old(board).fields@, old(board).size as int)
            == Some(r.result) && final(look_up).entries@ == old(look_up).entries@ && r.visited == 0,
        stores_here(CacheMode::Turns, *old(look_up), *old(board), max_player) && table_answer(
            CacheMode::Turns,
            *old(look_up),
            old(board).fields@,
            old(board).size as int,
        ) is None && (!(classify(old(board).fields@, old(board).size as int) is InProgress) || known_exact(
            r.result,
            alfa,
            beta,
        )) ==> final(look_up).entries@.contains_key(encode(old(board).fields@) as u64)
            && final(look_up).entries@[encode(old(board).fields@) as u64] == r.result,
        r.visited <= capped(tree_size(old(board).fields@, old(board).size as int, old(board).player_turn)),
        sound_search(CacheMode::Turns, *old(look_up), *old(board), max_player) ==> r.result.is_final() && bounded_by(
            r.result,
            alfa,
            beta,
            minimax(old(board).fields@, old(board).size as int, old(board).player_turn, max_player),
        ),
        sound_search(CacheMode::Turns, *old(look_up), *old(board), max_player) && full_window(alfa, beta) ==> r.result == minimax(
            old(board).fields@,
            old(board).size as int,
            old(board).player_turn,
            max_player,
        ),
{
    run_with_table(board, alfa, beta, max_player, MoveOrder::Index, CacheMode::Turns, look_up)
}

/// As `alpha_beta_lookup_sym`, with the moves ordered by line-potential score.
pub fn alpha_beta_lookup_sym_h1(
    board: &mut Board,
    alfa: GameResult,
    beta: GameResult,
    max_player: Player,
    look_up: &mut TranspositionTable,
) -> (r: SearchStats)
    requires
        old(board).wf(),
    ensures
        final(board).wf(),
        same_board(*old(board), *final(board)),
        final(look_up).size == old(look_up).size,
        old(look_up).valid() ==> final(look_up).valid(),
        table_grown(*old(look_up), *final(look_up), *old(board)),
        reads_table(CacheMode::Turns, *old(look_up), *old(board)) && table_answer(
            CacheMode::Turns,
            *old(look_up),
            old(board).fields@,
            old(board).size as int,
        ) is Some ==> table_answer(CacheMode::Turns, *old(look_up), old(board).fields@, old(board).size as int)
            == Some(r.result) && final(look_up).entries@ == old(look_up).entries@ && r.visited == 0,
        stores_here(CacheMode::Turns, *old(look_up), *old(board), max_player) && table_answer(
            CacheMode::Turns,
            *old(look_up),
            old(board).fields@,
            old(board).size as int,
        ) is None && (!(classify(old(board).fields@, old(board).size as int) is InProgress) || known_exact(
            r.result,
            alfa,
            beta,
        )) ==> final(look_up).entries@.contains_key(encode(old(board).fields@) as u64)
            && final(look_up).entries@[encode(old(board).fields@) as u64] == r.result,
        r.visited <= capped(tree_size(old(board).fields@, old(board).size as int, old(board).player_turn)),
        sound_search(CacheMode::Turns, *old(look_up), *old(board), max_player) ==> r.result.is_final() && bounded_by(
            r.result,
            alfa,
            beta,
            minimax(old(board).fields@, old(board).size as int, old(board).player_turn, max_player),
        ),
        sound_search(CacheMode::Turns, *old(look_up), *old(board), max_player) && full_window(alfa, beta) ==> r.result == minimax(
            old(board).fields@,
            old(board).size as int,
            old(board).player_turn,
            max_player,
        ),
{
    run_with_table(board, alfa, beta, max_player, MoveOrder::Lines, CacheMode::Turns, look_up)
}

/// As `alpha_beta_lookup_sym`, with the moves ordered by near-win score.
pub fn alpha_beta_lookup_sym_h2(
    board: &mut Board,
    alfa: GameResult,
    beta: GameResult,
    max_player: Player,
    look_up: &mut TranspositionTable,
) -> (r: SearchStats)
    requires
        old(board).wf(),
    ensures
        final(board).wf(),
        same_board(*old(board), *final(board)),
        final(look_up).size == old(look_up).size,
        old(look_up).valid() ==> final(look_up).valid(),
        table_grown(*old(look_up), *final(look_up), *old(board)),
        reads_table(CacheMode::Turns, *old(look_up), *old(board)) && table_answer(
            CacheMode::Turns,
            *old(look_up),
            old(board).fields@,
            old(board).size as int,
        ) is Some ==> table_answer(CacheMode::Turns, *old(look_up), old(board).fields@, old(board).size as int)
            == Some(r.result) && final(look_up).entries@ == old(look_up).entries@ && r.visited == 0,
        stores_here(CacheMode::Turns, *old(look_up), *old(board), max_player) && table_answer(
            CacheMode::Turns,
            *old(look_up),
            old(board).fields@,
            old(board).size as int,
        ) is None && (!(classify(old(board).fields@, old(board).size as int) is InProgress) || known_exact(
            r.result,
            alfa,
            beta,
        )) ==> final(look_up).entries@.contains_key(encode(old(board).fields@) as u64)
            && final(look_up).entries@[encode(old(board).fields@) as u64] == r.result,
        r.visited <= capped(tree_size(old(board).fields@, old(board).size as int, old(board).player_turn)),
        sound_search(CacheMode::Turns, *old(look_up), *old(board), max_player) ==> r.result.is_final() && bounded_by(
            r.result,
            alfa,
            beta,
            minimax(old(board).fields@, old(board).size as int, old(board).player_turn, max_player),
        ),
        sound_search(CacheMode::Turns, *old(look_up), *old(board), max_player) && full_window(alfa, beta) ==> r.result == minimax(
            old(board).fields@,
            old(board).size as int,
            old(board).player_turn,
            max_player,
        ),
{
    run_with_table(board, alfa, beta, max_player, MoveOrder::NearWin, CacheMode::Turns, look_up)
}

/// Minimax through a transposition table keyed by the exact cells: every
/// position searched is stored. With a table whose entries all hold exact
/// values the result is the minimax value, and the table stays so.
pub fn min_max_lookup(board: &mut Board, max_player: Player, look_up: &mut TranspositionTable) -> (r: SearchStats)
    requires
        old(board).wf(),
    ensures
        final(board).wf(),
        same_board(*old(board), *final(board)),
        final(look_up).size == old(look_up).size,
        old(look_up).valid() ==> final(look_up).valid(),
        table_grown(*old(look_up), *final(look_up), *old(board)),
        old(look_up).size == old(board).size && max_player == old(board).player_turn && turn_of(
            old(board).fields@,
        ) == old(board).player_turn && old(look_up).answer(old(board).fields@) is Some
            ==> old(look_up).answer(old(board).fields@) == Some(r.result) && final(look_up).entries@
            == old(look_up).entries@ && r.visited == 0,
        old(look_up).size == old(board).size && max_player == old(board).player_turn && turn_of(
            old(board).fields@,
        ) == old(board).player_turn && old(look_up).answer(old(board).fields@) is None
            ==> final(look_up).entries@.contains_key(encode(old(board).fields@) as u64)
            && final(look_up).entries@[encode(old(board).fields@) as u64] == r.result,
        r.visited <= capped(tree_size(old(board).fields@, old(board).size as int, old(board).player_turn)),
        old(look_up).valid() ==> r.result == minimax(
            old(board).fields@,
            old(board).size as int,
            old(board).player_turn,
            max_player,
        ),
    decreases count_of(board.fields@, Field::Free),
{
    let ghost table0 = *look_up;
    proof {
        lemma_cells_bound(board.size as int);
    }
    let use_table = look_up.size == board.size && max_player == board.player_turn
        && board.side_by_counts() == board.player_turn;
    if use_table {
        if let Some(v) = look_up.lookup(board) {
            return SearchStats { result: v, visited: 0 };
        }
    }
    proof {
        lemma_encode_fits(board.fields@);
    }
    let result = board.get_result();
    if !matches!(result, GameResult::InProgress) {
        if use_table {
            look_up.store(board, result);
            proof {
                lemma_key_reached_here(board.fields@, board.size as int, board.player_turn);
                assert(result == position_value(board.fields@, board.size as int));
            }
        }
        return SearchStats { result, visited: 1 };
    }
    let ghost start = *board;
    let ghost cells = board.fields@;
    let ghost n = board.size as int;
    let ghost turn = board.player_turn;
    let ghost valid0 = look_up.valid();
    let total = board.fields.len();
    let mut best = worst_result(max_player);
    let mut visited: u64 = 1;
    let ghost mut acc: nat = 1;
    let mut i: usize = 0;
    while i < total
        invariant
            board.wf(),
            same_board(start, *board),
            start.wf(),
            same_board(*old(board), start),
            cells == start.fields@,
            n == start.size as int,
            turn == start.player_turn,
            total == cells.len(),
            i <= total,
            look_up.size == old(look_up).size,
            valid0 == old(look_up).valid(),
            table0 == *old(look_up),
            use_table ==> !table0.entries@.contains_key(encode(cells) as u64),
            use_table == (look_up.size == start.size && max_player == turn && turn_of(cells) == turn),
            table_grown(table0, *look_up, start),
            classify(cells, n) is InProgress,
            cells.len() <= 25,
            valid0 ==> look_up.valid(),
            valid0 ==> best.is_final(),
            valid0 ==> minimax(cells, n, turn, max_player) == minimax_fold(cells, n, turn, max_player, i as int, best),
            tree_size(cells, n, turn) == size_fold(cells, n, turn, i as int, acc),
            visited <= capped(acc),
        decreases total - i,
    {
        if let Field::Free = board.fields[i] {
            play(board, i);
            proof {
                assert(board.fields@ == child_cells(cells, turn, i as int));
            }
            let ghost before = *look_up;
            let ghost at_child = *board;
            let child = min_max_lookup(board, board.player_turn, look_up);
            proof {
                assert forall|k: u64| #[trigger] look_up.entries@.contains_key(k) && !table0.entries@.contains_key(k) implies key_reached(
                    cells,
                    n,
                    turn,
                    k,
                ) by {
                    if !before.entries@.contains_key(k) {
                        assert(key_reached(at_child.fields@, n, turn.opp(), k));
                        lemma_key_reached_child(cells, n, turn, i as int, k);
                    }
                }
                assert forall|k: u64| #[trigger] table0.entries@.contains_key(k) implies look_up.entries@[k] == table0.entries@[k] by {
                    assert(before.entries@.contains_key(k));
                }
            }
            unplay(board, Ghost(start), i);
            proof {
                lemma_minimax_final(child_cells(cells, turn, i as int), n, turn.opp(), turn.opp());
                if valid0 {
                    assert(child.result == child_value(cells, n, turn, i as int));
                }
                acc = acc + child_size(cells, n, turn, i as int);
            }
            if improves_exec(max_player, child.result, best) {
                best = child.result;
            }
            visited = visited.saturating_add(child.visited);
        }
        i = i + 1;
    }
    if use_table {
        let ghost before = *look_up;
        look_up.store(board, best);
        proof {
            lemma_key_reached_here(cells, n, turn);
            if table0.valid() {
                assert(best == position_value(cells, n));
            }
        }
    }
    SearchStats { result: best, visited }
}

/// The searches that `search` offers.
#[derive(Debug, Clone, Copy, PartialEq, Eq, Structural)]
pub enum Strategy {
    Minimax,
    AlphaBeta,
    AlphaBetaCached,
    AlphaBetaCachedSymmetric,
}

/// Searches the position for `max_player` with the given strategy, over the
/// full window and with a fresh table where the strategy uses one.
pub fn search(board: &mut Board, strategy: Strategy, max_player: Player) -> (r: SearchStats)
    requires
        old(board).wf(),
    ensures
        final(board).wf(),
        same_board(*old(board), *final(board)),
        strategy == Strategy::Minimax || strategy == Strategy::AlphaBeta || (max_player
            == old(board).player_turn && old(board).balanced() && (strategy
            == Strategy::AlphaBetaCachedSymmetric ==> not_both_won(old(board).fields@, old(board).size as int)))
            ==> r.result == minimax(
            old(board).fields@,
            old(board).size as int,
            old(board).player_turn,
            max_player,
        ),
{
    let alfa = GameResult::Player(Player::O);
    let beta = GameResult::Player(Player::X);
    let mut table = TranspositionTable::new(board.size);
    match strategy {
        Strategy::Minimax => min_max(board, max_player),
        Strategy::AlphaBeta => alpha_beta(board, alfa, beta, max_player),
        Strategy::AlphaBetaCached => alpha_beta_lookup(board, alfa, beta, max_player, &mut table),
        Strategy::AlphaBetaCachedSymmetric => alpha_beta_lookup_sym(board, alfa, beta, max_player, &mut table),
    }
}

} // verus!
