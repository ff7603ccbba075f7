use vstd::prelude::*;
use std::collections::HashMap;
use crate::board::{lemma_cells_bound, lemma_rot_source, rot_source, rotated, turn_of, Board};
use crate::player::{Field, GameResult, Player};
use crate::search::minimax;

verus! {

broadcast use vstd::std_specs::hash::group_hash_axioms;

// ---------------------------------------------------------------------------
// Keys: the cells read as a number in base three, first cell lowest.
// ---------------------------------------------------------------------------

pub open spec fn digit(f: Field) -> nat {
    match f {
        Field::Free => 0,
        Field::Player(Player::X) => 1,
        Field::Player(Player::O) => 2,
    }
}

/// The cells from `i` on, read in base three.
pub open spec fn encode_from(cells: Seq<Field>, i: int) -> nat
    decreases cells.len() - i,
{
    if i < 0 || i >= cells.len() {
        0
    } else {
        digit(cells[i]) + 3 * encode_from(cells, i + 1)
    }
}

/// The key of a position: its cells only, never its history or side to move.
pub open spec fn encode(cells: Seq<Field>) -> nat {
    encode_from(cells, 0)
}

pub open spec fn pow3(k: nat) -> nat
    decreases k,
{
    if k == 0 {
        1
    } else {
        3 * pow3((k - 1) as nat)
    }
}

proof fn lemma_pow3_small(k: nat)
    requires
        k <= 25,
    ensures
        pow3(k) <= 847288609443,
    decreases 25 - k,
{
    if k < 25 {
        lemma_pow3_small(k + 1);
        assert(pow3(k + 1) == 3 * pow3(k));
    } else {
        reveal_with_fuel(pow3, 26);
    }
}

proof fn lemma_encode_bound(cells: Seq<Field>, i: int)
    requires
        0 <= i <= cells.len(),
    ensures
        encode_from(cells, i) < pow3((cells.len() - i) as nat),
    decreases cells.len() - i,
{
    if i < cells.len() {
        lemma_encode_bound(cells, i + 1);
    }
}

/// Two positions of one size with the same key are the same position.
pub proof fn lemma_encode_injective(s: Seq<Field>, t: Seq<Field>, i: int)
    requires
        s.len() == t.len(),
        0 <= i <= s.len(),
        encode_from(s, i) == encode_from(t, i),
    ensures
        s.subrange(i, s.len() as int) == t.subrange(i, t.len() as int),
    decreases s.len() - i,
{
    if i < s.len() {
        assert(digit(s[i]) == digit(t[i]));
        lemma_encode_injective(s, t, i + 1);
        assert(s[i] == t[i]);
        assert(s.subrange(i, s.len() as int) =~= t.subrange(i, t.len() as int)) by {
            assert forall|q: int| 0 <= q < s.len() - i implies s.subrange(i, s.len() as int)[q]
                == t.subrange(i, t.len() as int)[q] by {
                if q > 0 {
                    assert(s.subrange(i, s.len() as int)[q] == s.subrange(i + 1, s.len() as int)[q - 1]);
                    assert(t.subrange(i, t.len() as int)[q] == t.subrange(i + 1, t.len() as int)[q - 1]);
                }
            }
        }
    } else {
        assert(s.subrange(i, s.len() as int) =~= t.subrange(i, t.len() as int));
    }
}

/// The key of a position with at most 25 cells fits in a `u64`.
pub proof fn lemma_encode_fits(cells: Seq<Field>)
    requires
        cells.len() <= 25,
    ensures
        encode(cells) < 847288609443,
{
    lemma_encode_bound(cells, 0);
    lemma_pow3_small(cells.len());
}

pub proof fn lemma_same_key_same_cells(s: Seq<Field>, t: Seq<Field>)
    requires
        s.len() == t.len(),
        encode(s) == encode(t),
    ensures
        s == t,
{
    lemma_encode_injective(s, t, 0);
    assert(s =~= s.subrange(0, s.len() as int));
    assert(t =~= t.subrange(0, t.len() as int));
}

/// The key of the board's cells.
pub fn board_key(board: &Board) -> (r: u64)
    requires
        board.shaped(),
    ensures
        r == encode(board.fields@),
{
    let cells = &board.fields;
    let total = cells.len();
    proof {
        lemma_cells_bound(board.size as int);
    }
    let mut acc: u64 = 0;
    let mut i: usize = total;
    while i > 0
        invariant
            total == cells@.len() <= 25,
            i <= total,
            acc == encode_from(cells@, i as int),
            acc < pow3((total - i) as nat),
        decreases i,
    {
        proof {
            lemma_pow3_small((total - i + 1) as nat);
            assert(pow3((total - i + 1) as nat) == 3 * pow3((total - i) as nat));
        }
        let d: u64 = match cells[i - 1] {
            Field::Free => 0,
            Field::Player(Player::X) => 1,
            Field::Player(Player::O) => 2,
        };
        acc = d + 3 * acc;
        i = i - 1;
    }
    acc
}

// ---------------------------------------------------------------------------
// The transposition table.
// ---------------------------------------------------------------------------

/// The value of a position searched for the side that its counts of marks
/// put to move: the value that the table stores for it.
pub open spec fn position_value(cells: Seq<Field>, n: int) -> GameResult {
    minimax(cells, n, turn_of(cells), turn_of(cells))
}

/// Results of positions already searched, keyed by their cells alone.
pub struct TranspositionTable {
    pub entries: HashMap<u64, GameResult>,
    pub size: u32,
}

/// Entry `k` of `m` holds the value of the position of side `n` whose key is `k`.
pub open spec fn entry_ok(m: Map<u64, GameResult>, n: int, k: u64) -> bool {
    exists|c: Seq<Field>|
        c.len() == n * n && #[trigger] encode(c) == k as nat && m[k] == position_value(c, n)
}

impl TranspositionTable {
    /// Every entry holds the exact value of its position.
    pub open spec fn valid(&self) -> bool {
        forall|k: u64| #[trigger] self.entries@.contains_key(k) ==> entry_ok(self.entries@, self.size as int, k)
    }

    /// An empty table for boards of side `size`.
    pub fn new(size: u32) -> (r: TranspositionTable)
        ensures
            r.valid(),
            r.size == size,
            r.entries@ == Map::<u64, GameResult>::empty(),
    {
        TranspositionTable { entries: HashMap::new(), size }
    }

    /// Whether the table holds an entry for exactly these cells.
    pub open spec fn holds(&self, cells: Seq<Field>) -> bool {
        self.entries@.contains_key(encode(cells) as u64)
    }

    /// The stored result for the board's cells, if any.
    pub fn lookup(&self, board: &Board) -> (r: Option<GameResult>)
        requires
            board.shaped(),
        ensures
            r == self.answer(board.fields@),
            self.valid() && self.size == board.size && r is Some ==> r == Some(
                position_value(board.fields@, board.size as int),
            ),
    {
        let key = board_key(board);
        let r = match self.entries.get(&key) {
            Some(v) => Some(*v),
            None => None,
        };
        proof {
            if self.valid() && self.size == board.size && r is Some {
                assert(entry_ok(self.entries@, self.size as int, key));
                let c = choose|c: Seq<Field>|
                    c.len() == (self.size as int) * (self.size as int) && #[trigger] encode(c) == key as nat
                        && self.entries@[key] == position_value(c, self.size as int);
                lemma_same_key_same_cells(c, board.fields@);
            }
        }
        r
    }

    /// Stores the value of the board's position.
    pub fn store(&mut self, board: &Board, value: GameResult)
        requires
            board.shaped(),
        ensures
            final(self).size == old(self).size,
            final(self).entries@ == old(self).entries@.insert(encode(board.fields@) as u64, value),
            old(self).valid() && old(self).size == board.size && value == position_value(
                board.fields@,
                board.size as int,
            ) ==> final(self).valid(),
    {
        let key = board_key(board);
        self.entries.insert(key, value);
        proof {
            if old(self).valid() && old(self).size == board.size && value == position_value(
                board.fields@,
                board.size as int,
            ) {
                assert forall|k: u64| #[trigger] self.entries@.contains_key(k) implies entry_ok(
                    self.entries@,
                    self.size as int,
                    k,
                ) by {
                    if k == key {
                        assert(encode(board.fields@) == k as nat);
                    } else {
                        assert(entry_ok(old(self).entries@, self.size as int, k));
                        let c = choose|c: Seq<Field>|
                            c.len() == (self.size as int) * (self.size as int) && #[trigger] encode(c)
                                == k as nat && old(self).entries@[k] == position_value(c, self.size as int);
                        assert(encode(c) == k as nat);
                    }
                }
            }
        }
    }
}


/// The cells turned a quarter `k` times.
pub open spec fn rotated_times(cells: Seq<Field>, n: int, k: nat) -> Seq<Field>
    decreases k,
{
    if k == 0 {
        cells
    } else {
        rotated(rotated_times(cells, n, (k - 1) as nat), n)
    }
}

/// Four quarter turns give the board back.
pub proof fn lemma_four_turns(cells: Seq<Field>, n: int)
    requires
        2 <= n <= 5,
        cells.len() == n * n,
    ensures
        rotated_times(cells, n, 4) == cells,
{
    reveal_with_fuel(rotated_times, 5);
    let r4 = rotated_times(cells, n, 4);
    assert forall|q: int| 0 <= q < cells.len() implies r4[q] == cells[q] by {
        let a = q / n;
        let b = q % n;
        vstd::arithmetic::div_mod::lemma_fundamental_div_mod(q, n);
        lemma_rot_source(n, q);
        let s1 = rot_source(n, q);
        lemma_rot_source(n, s1);
        let s2 = rot_source(n, s1);
        lemma_rot_source(n, s2);
        let s3 = rot_source(n, s2);
        lemma_rot_source(n, s3);
        let s4 = rot_source(n, s3);
        assert(s4 == (n - 1 - (n - 1 - a)) * n + b);
        assert(s4 == q) by (nonlinear_arith)
            requires
                s4 == (n - 1 - (n - 1 - a)) * n + b,
                q == n * a + b,
        ;
    }
    assert(r4 =~= cells);
}

impl TranspositionTable {
    /// The entry stored for exactly these cells, if any.
    pub open spec fn answer(&self, cells: Seq<Field>) -> Option<GameResult> {
        if self.holds(cells) {
            Some(self.entries@[encode(cells) as u64])
        } else {
            None
        }
    }

    /// The first entry found for the cells as they stand, turned a quarter,
    /// a half and three quarters, in that order.
    pub open spec fn turned_answer(&self, cells: Seq<Field>, n: int) -> Option<GameResult> {
        if self.holds(cells) {
            self.answer(cells)
        } else if self.holds(rotated_times(cells, n, 1)) {
            self.answer(rotated_times(cells, n, 1))
        } else if self.holds(rotated_times(cells, n, 2)) {
            self.answer(rotated_times(cells, n, 2))
        } else {
            self.answer(rotated_times(cells, n, 3))
        }
    }

    /// Whether the table holds the cells in one of their four turns.
    pub open spec fn holds_turned(&self, cells: Seq<Field>, n: int) -> bool {
        ||| self.holds(cells)
        ||| self.holds(rotated_times(cells, n, 1))
        ||| self.holds(rotated_times(cells, n, 2))
        ||| self.holds(rotated_times(cells, n, 3))
    }
}

/// Looks the board up in the table as it stands and turned a quarter, a half
/// and three quarters, in that order; the first entry found is returned.
pub fn check_for_rotation(board: &Board, lookup: &TranspositionTable) -> (r: Option<GameResult>)
    requires
        board.shaped(),
    ensures
        r == lookup.turned_answer(board.fields@, board.size as int),
        r is Some <==> lookup.holds_turned(board.fields@, board.size as int),
{
    reveal_with_fuel(rotated_times, 4);
    let found = lookup.lookup(board);
    if found.is_some() {
        return found;
    }
    let b1 = board.rot90board();
    let found = lookup.lookup(&b1);
    if found.is_some() {
        return found;
    }
    let b2 = b1.rot90board();
    let found = lookup.lookup(&b2);
    if found.is_some() {
        return found;
    }
    let b3 = b2.rot90board();
    lookup.lookup(&b3)
}

/// A table that holds a position recognises every turn of it: looked up in
/// its four turns, the position turned `m` quarters is found.
pub proof fn law_turned_position_found(t: TranspositionTable, cells: Seq<Field>, n: int, m: nat)
    requires
        2 <= n <= 5,
        cells.len() == n * n,
        t.holds(cells),
    ensures
        t.holds_turned(rotated_times(cells, n, m), n),
    decreases m,
{
    if m >= 4 {
        lemma_four_turns(cells, n);
        lemma_turns_add(cells, n, 4, (m - 4) as nat);
        law_turned_position_found(t, cells, n, (m - 4) as nat);
    } else {
        let q = rotated_times(cells, n, m);
        lemma_turns_add(cells, n, m, (4 - m) as nat);
        lemma_four_turns(cells, n);
        assert(rotated_times(q, n, (4 - m) as nat) == cells);
    }
}

/// Turning `a` quarters and then `b` more is turning `a + b` quarters.
pub proof fn lemma_turns_add(cells: Seq<Field>, n: int, a: nat, b: nat)
    ensures
        rotated_times(rotated_times(cells, n, a), n, b) == rotated_times(cells, n, a + b),
    decreases b,
{
    if b > 0 {
        lemma_turns_add(cells, n, a, (b - 1) as nat);
    }
}

} // verus!
