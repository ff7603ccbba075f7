use vstd::prelude::*;
use core::cmp::Ordering;

verus! {

/// One of the two sides. `X` always moves first.
#[derive(Debug, Clone, Copy, PartialEq, Eq, Hash, Structural)]
pub enum Player {
    X,
    O,
}

impl Player {
    pub open spec fn opp(self) -> Player {
        match self {
            Player::X => Player::O,
            Player::O => Player::X,
        }
    }

    /// The canonical rank of a side: `X` sits above `O`.
    pub open spec fn rank(self) -> int {
        match self {
            Player::X => 1,
            Player::O => 0,
        }
    }

    pub fn opponent(&self) -> (r: Player)
        ensures
            r == self.opp(),
    {
        match self {
            Player::X => Player::O,
            Player::O => Player::X,
        }
    }
}

pub open spec fn ordering_of(a: int, b: int) -> Ordering {
    if a < b {
        Ordering::Less
    } else if a > b {
        Ordering::Greater
    } else {
        Ordering::Equal
    }
}

fn compare_ranks(a: i8, b: i8) -> (r: Ordering)
    ensures
        r == ordering_of(a as int, b as int),
{
    if a < b {
        Ordering::Less
    } else if a > b {
        Ordering::Greater
    } else {
        Ordering::Equal
    }
}

impl PartialOrd for Player {
    fn partial_cmp(&self, other: &Player) -> (r: Option<Ordering>)
        ensures
            r == Some(ordering_of(self.rank(), other.rank())),
    {
        let a: i8 = match self {
            Player::X => 1,
            Player::O => 0,
        };
        let b: i8 = match other {
            Player::X => 1,
            Player::O => 0,
        };
        Some(compare_ranks(a, b))
    }
}

impl vstd::std_specs::cmp::PartialOrdSpecImpl for Player {
    open spec fn obeys_partial_cmp_spec() -> bool {
        true
    }

    open spec fn partial_cmp_spec(&self, other: &Player) -> Option<Ordering> {
        Some(ordering_of(self.rank(), other.rank()))
    }
}

/// The outcome of a position. Its order is what the search optimises:
/// `Player(X)` above `Draw` and `InProgress` (which rank alike) above `Player(O)`.
#[derive(Debug, Clone, Copy, PartialEq, Eq, Structural)]
pub enum GameResult {
    Player(Player),
    Draw,
    InProgress,
}

impl GameResult {
    /// Position of the result in the outcome order.
    pub open spec fn score(self) -> int {
        match self {
            GameResult::Player(Player::X) => 1,
            GameResult::Player(Player::O) => -1,
            _ => 0,
        }
    }

    /// A final outcome: a win or a draw.
    pub open spec fn is_final(self) -> bool {
        !(self is InProgress)
    }

    pub fn score_of(&self) -> (r: i8)
        ensures
            r as int == self.score(),
    {
        match self {
            GameResult::Player(Player::X) => 1,
            GameResult::Player(Player::O) => -1,
            _ => 0,
        }
    }

    /// Whether `self` is strictly better for `X` than `other`.
    pub fn beats(&self, other: &GameResult) -> (r: bool)
        ensures
            r == (self.score() > other.score()),
    {
        self.score_of() > other.score_of()
    }
}

impl PartialOrd for GameResult {
    fn partial_cmp(&self, other: &GameResult) -> (r: Option<Ordering>)
        ensures
            r == Some(ordering_of(self.score(), other.score())),
    {
        Some(compare_ranks(self.score_of(), other.score_of()))
    }
}

impl vstd::std_specs::cmp::PartialOrdSpecImpl for GameResult {
    open spec fn obeys_partial_cmp_spec() -> bool {
        true
    }

    open spec fn partial_cmp_spec(&self, other: &GameResult) -> Option<Ordering> {
        Some(ordering_of(self.score(), other.score()))
    }
}

/// A cell of the board.
#[derive(Debug, Clone, Copy, PartialEq, Eq, Hash, Structural)]
pub enum Field {
    Player(Player),
    Free,
}

impl Field {
    /// The character that shows the cell: `X`, `O`, or a space when free.
    pub fn symbol(&self) -> (r: char)
        ensures
            r == (match *self {
                Field::Player(Player::X) => 'X',
                Field::Player(Player::O) => 'O',
                Field::Free => ' ',
            }),
    {
        match self {
            Field::Player(Player::X) => 'X',
            Field::Player(Player::O) => 'O',
            Field::Free => ' ',
        }
    }
}

} // verus!
