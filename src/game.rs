use vstd::prelude::*;
use rand::Rng;
use crate::board::{free_cells, has_free, is_move_list, lemma_cells_bound, lemma_free_cells_is_move_list, moved, Board, MAX_SIZE, MIN_SIZE};
use crate::player::{Field, GameResult, Player};
use crate::search::{
    alpha_beta, at_least, child_value, improves, improves_exec, min_max, min_max_lookup, SearchStats,
};
use crate::table::TranspositionTable;

verus! {

/// Cell `i` is a best move for the side to move: free, with a child value at
/// least as good as every other move's, and strictly better than that of
/// every lower free index.
pub open spec fn is_best_move(cells: Seq<Field>, n: int, turn: Player, i: int) -> bool {
    &&& 0 <= i < cells.len()
    &&& cells[i] is Free
    &&& forall|j: int|
        0 <= j < cells.len() && cells[j] is Free ==> at_least(turn, child_value(cells, n, turn, i), #[trigger] child_value(cells, n, turn, j))
    &&& forall|j: int|
        0 <= j < i && cells[j] is Free ==> improves(turn, child_value(cells, n, turn, i), #[trigger] child_value(cells, n, turn, j))
}

/// How the move selection values each child.
#[derive(Debug, Clone, Copy, PartialEq, Eq, Structural)]
enum Evaluator {
    Minimax,
    AlphaBeta,
    Table,
}

/// The value of a child position searched for the side to move in it.
fn child_result(child: &mut Board, how: Evaluator) -> (r: GameResult)
    requires
        old(child).wf(),
    ensures
        final(child).wf(),
        r == crate::search::minimax(old(child).fields@, old(child).size as int, old(child).player_turn, old(child).player_turn),
{
    let side = child.player_turn;
    let stats: SearchStats = match how {
        Evaluator::Minimax => min_max(child, side),
        Evaluator::AlphaBeta => alpha_beta(child, GameResult::Player(Player::O), GameResult::Player(Player::X), side),
        Evaluator::Table => {
            let mut table = TranspositionTable::new(child.size);
            min_max_lookup(child, side, &mut table)
        },
    };
    stats.result
}

impl Board {
    fn best_move_by(&self, how: Evaluator) -> (r: u32)
        requires
            self.wf(),
            has_free(self.fields@),
        ensures
            is_best_move(self.fields@, self.size as int, self.player_turn, r as int),
    {
        let ghost cells = self.fields@;
        let ghost n = self.size as int;
        let ghost turn = self.player_turn;
        let free = self.legal_moves();
        let mut children = self.generate_moves();
        proof {
            lemma_cells_bound(n);
            lemma_free_cells_is_move_list(cells);
            let w = choose|w: int| 0 <= w < cells.len() && cells[w] is Free;
            assert(free@.contains(w as usize));
        }
        let ghost kids = children@;
        let mut best_k: usize = 0;
        let mut best = GameResult::Draw;
        let mut k: usize = 0;
        while k < free.len()
            invariant
                free@ == free_cells(cells),
                is_move_list(cells, free@),
                cells.len() <= 25,
                forall|a: int, b: int| 0 <= a < b < free@.len() ==> free@[a] < free@[b],
                free@.len() > 0,
                children@.len() == free@.len(),
                kids.len() == free@.len(),
                forall|q: int| k <= q < kids.len() ==> #[trigger] children@[q] == kids[q],
                forall|q: int| 0 <= q < kids.len() ==> (#[trigger] kids[q]).wf() && moved(*self, kids[q], free@[q] as int),
                cells == self.fields@,
                n == self.size as int,
                turn == self.player_turn,
                k <= free@.len(),
                k > 0 ==> best_k < k,
                k > 0 ==> best == child_value(cells, n, turn, free@[best_k as int] as int),
                forall|q: int| 0 <= q < k ==> at_least(turn, best, #[trigger] child_value(cells, n, turn, free@[q] as int)),
                forall|q: int| 0 <= q < best_k ==> improves(turn, best, #[trigger] child_value(cells, n, turn, free@[q] as int)),
            decreases free@.len() - k,
        {
            let value = child_result(&mut children[k], how);
            proof {
                let i = free@[k as int] as int;
                assert(kids[k as int].fields@ == crate::search::child_cells(cells, turn, i));
                assert(value == child_value(cells, n, turn, i));
            }
            if k == 0 || improves_exec(self.player_turn, value, best) {
                best = value;
                best_k = k;
            }
            k = k + 1;
        }
        proof {
            let i = free@[best_k as int] as int;
            assert forall|j: int| 0 <= j < cells.len() && cells[j] is Free implies at_least(turn, child_value(cells, n, turn, i), #[trigger] child_value(cells, n, turn, j)) by {
                assert(free@.contains(j as usize));
                let q = choose|q: int| 0 <= q < free@.len() && free@[q] == j as usize;
                assert(at_least(turn, best, child_value(cells, n, turn, free@[q] as int)));
            }
            assert forall|j: int| 0 <= j < i && cells[j] is Free implies improves(turn, child_value(cells, n, turn, i), #[trigger] child_value(cells, n, turn, j)) by {
                assert(free@.contains(j as usize));
                let q = choose|q: int| 0 <= q < free@.len() && free@[q] == j as usize;
                if q >= best_k {
                    if q > best_k {
                        assert(free@[best_k as int] < free@[q]);
                    }
                }
                assert(q < best_k);
            }
        }
        free[best_k] as u32
    }

    /// The best move for the side to move, each child valued by plain minimax;
    /// among equally good moves the lowest index.
    pub fn find_best_move(&self) -> (r: u32)
        requires
            self.wf(),
            has_free(self.fields@),
        ensures
            is_best_move(self.fields@, self.size as int, self.player_turn, r as int),
    {
        self.best_move_by(Evaluator::Minimax)
    }

    /// The best move for the side to move, each child valued by alpha-beta
    /// over the full window; among equally good moves the lowest index.
    pub fn find_best_move_alfa_beta(&self) -> (r: u32)
        requires
            self.wf(),
            has_free(self.fields@),
        ensures
            is_best_move(self.fields@, self.size as int, self.player_turn, r as int),
    {
        self.best_move_by(Evaluator::AlphaBeta)
    }

    /// The best move for the side to move, each child valued by minimax
    /// through a fresh transposition table; among equally good moves the
    /// lowest index.
    pub fn find_best_move_lookup(&self) -> (r: u32)
        requires
            self.wf(),
            has_free(self.fields@),
        ensures
            is_best_move(self.fields@, self.size as int, self.player_turn, r as int),
    {
        self.best_move_by(Evaluator::Table)
    }
}

/// A board in play and its outcome so far.
pub struct Game {
    pub board: Board,
    pub winner: GameResult,
}

/// Relies on rand's `thread_rng().gen_range(0..n)`: a number drawn from
/// `0..n`, which must not be empty.
#[verifier::external_body]
fn random_below(n: usize) -> (r: usize)
    requires
        n > 0,
    ensures
        r < n,
{
    rand::thread_rng().gen_range(0..n)
}

/// `after` is `before` with a best move for the side to move played.
pub open spec fn best_move_played(before: Board, after: Board) -> bool {
    let i = after.moves@.last() as int;
    &&& is_best_move(before.fields@, before.size as int, before.player_turn, i)
    &&& moved(before, after, i)
}

impl Game {
    /// A new game on an empty board of side `n`, `X` to move.
    pub fn new(n: u32) -> (r: Game)
        requires
            MIN_SIZE <= n <= MAX_SIZE,
        ensures
            r.board.wf(),
            r.board.size == n,
            r.board.player_turn == Player::X,
            r.board.moves@.len() == 0,
            r.board.fields@ == Seq::new((n * n) as nat, |i: int| Field::Free),
            r.winner == GameResult::InProgress,
    {
        Game { board: Board::create_board(n), winner: GameResult::InProgress }
    }

    /// Records the result of the position as the winner so far, and says
    /// whether the game is over: won by a side or drawn.
    pub fn check_winner(&mut self) -> (over: bool)
        requires
            old(self).board.shaped(),
        ensures
            final(self).winner == old(self).board.result(),
            over == !(final(self).winner is InProgress),
            final(self).board == old(self).board,
    {
        self.winner = self.board.get_result();
        !matches!(self.winner, GameResult::InProgress)
    }

    /// Hands the turn to the other side without a move.
    pub fn next_player(&mut self)
        ensures
            final(self).board.player_turn == old(self).board.player_turn.opp(),
            final(self).board.fields@ == old(self).board.fields@,
            final(self).board.moves@ == old(self).board.moves@,
            final(self).board.size == old(self).board.size,
            final(self).winner == old(self).winner,
    {
        match self.board.player_turn {
            Player::X => self.board.player_turn = Player::O,
            Player::O => self.board.player_turn = Player::X,
        }
    }

    /// Plays a best move found by plain minimax.
    pub fn make_best_move(&mut self)
        requires
            old(self).board.wf(),
            has_free(old(self).board.fields@),
        ensures
            final(self).board.wf(),
            best_move_played(old(self).board, final(self).board),
            final(self).winner == old(self).winner,
    {
        let i = self.board.find_best_move();
        self.play_chosen(i);
    }

    /// Plays a best move found by alpha-beta.
    pub fn make_best_move_a_b(&mut self)
        requires
            old(self).board.wf(),
            has_free(old(self).board.fields@),
        ensures
            final(self).board.wf(),
            best_move_played(old(self).board, final(self).board),
            final(self).winner == old(self).winner,
    {
        let i = self.board.find_best_move_alfa_beta();
        self.play_chosen(i);
    }

    /// Plays a best move found by minimax through a transposition table.
    pub fn make_best_move_lookup(&mut self)
        requires
            old(self).board.wf(),
            has_free(old(self).board.fields@),
        ensures
            final(self).board.wf(),
            best_move_played(old(self).board, final(self).board),
            final(self).winner == old(self).winner,
    {
        let i = self.board.find_best_move_lookup();
        self.play_chosen(i);
    }

    fn play_chosen(&mut self, i: u32)
        requires
            old(self).board.wf(),
            is_best_move(old(self).board.fields@, old(self).board.size as int, old(self).board.player_turn, i as int),
        ensures
            final(self).board.wf(),
            best_move_played(old(self).board, final(self).board),
            final(self).winner == old(self).winner,
    {
        let _ = self.board.make_move(i);
    }

    /// Plays a free cell drawn at random.
    pub fn make_rand_move(&mut self)
        requires
            old(self).board.wf(),
            has_free(old(self).board.fields@),
        ensures
            final(self).board.wf(),
            old(self).board.fields@[final(self).board.moves@.last() as int] is Free,
            moved(old(self).board, final(self).board, final(self).board.moves@.last() as int),
            final(self).winner == old(self).winner,
    {
        let free = self.board.legal_moves();
        proof {
            lemma_cells_bound(self.board.size as int);
            lemma_free_cells_is_move_list(self.board.fields@);
            let w = choose|w: int| 0 <= w < self.board.fields@.len() && self.board.fields@[w] is Free;
            assert(free@.contains(w as usize));
        }
        let pick = random_below(free.len());
        let i = free[pick];
        let _ = self.board.make_move(i as u32);
    }
}

} // verus!
