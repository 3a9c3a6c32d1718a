use vstd::prelude::*;

verus! {

/// One square of a board.
#[derive(Copy, Clone, Debug, PartialEq, Eq, Hash, Structural)]
pub enum Cell {
    /// Floor the agent cannot currently reach.
    Unreachable,
    /// Floor the agent can currently reach.
    Reachable,
    /// A socket that holds a piece; it never empties again.
    BoulderInHole,
    /// An empty socket.
    Hole,
    /// A wall.
    Block,
    /// A piece that can be pushed.
    Boulder,
}

/// The character that stands for each cell in the text form of a board.
pub open spec fn char_of(c: Cell) -> char {
    match c {
        Cell::Unreachable => ' ',
        Cell::Reachable => '.',
        Cell::BoulderInHole => '@',
        Cell::Hole => 'O',
        Cell::Block => '#',
        Cell::Boulder => '*',
    }
}

/// The cell that a character stands for, if any.
pub open spec fn cell_of(ch: char) -> Option<Cell> {
    if ch == ' ' {
        Some(Cell::Unreachable)
    } else if ch == '.' {
        Some(Cell::Reachable)
    } else if ch == '@' {
        Some(Cell::BoulderInHole)
    } else if ch == 'O' {
        Some(Cell::Hole)
    } else if ch == '#' {
        Some(Cell::Block)
    } else if ch == '*' {
        Some(Cell::Boulder)
    } else {
        None
    }
}

/// Floor cells are the ones the agent may stand on.
pub open spec fn is_floor(c: Cell) -> bool {
    c == Cell::Unreachable || c == Cell::Reachable
}

/// Cells that hold a piece, seated or not.
pub open spec fn is_piece(c: Cell) -> bool {
    c == Cell::Boulder || c == Cell::BoulderInHole
}

impl Cell {
    pub fn try_from_char(c: char) -> (r: Option<Self>)
        ensures
            r == cell_of(c),
    {
        match c {
            ' ' => Some(Cell::Unreachable),
            '.' => Some(Cell::Reachable),
            '@' => Some(Cell::BoulderInHole),
            'O' => Some(Cell::Hole),
            '#' => Some(Cell::Block),
            '*' => Some(Cell::Boulder),
            _ => None,
        }
    }

    pub fn to_char(&self) -> (r: char)
        ensures
            r == char_of(*self),
    {
        match self {
            Cell::Unreachable => ' ',
            Cell::Reachable => '.',
            Cell::BoulderInHole => '@',
            Cell::Hole => 'O',
            Cell::Block => '#',
            Cell::Boulder => '*',
        }
    }

    pub fn is_floor(&self) -> (r: bool)
        ensures
            r == is_floor(*self),
    {
        *self == Cell::Unreachable || *self == Cell::Reachable
    }

    pub fn is_piece(&self) -> (r: bool)
        ensures
            r == is_piece(*self),
    {
        *self == Cell::Boulder || *self == Cell::BoulderInHole
    }
}

/// The character codec is a bijection between the six cells and their
/// six characters.
pub proof fn lemma_char_codec_bijective(c: Cell, ch: char)
    ensures
        cell_of(char_of(c)) == Some(c),
        cell_of(ch) matches Some(d) ==> char_of(d) == ch,
{
}

} // verus!
