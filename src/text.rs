use vstd::prelude::*;
use vstd::arithmetic::div_mod::{lemma_fundamental_div_mod, lemma_mod_bound};

use crate::cell::{Cell, cell_of};

verus! {

/// Why a board text cannot be read.
#[derive(Copy, Clone, Debug, PartialEq, Eq, Structural)]
pub enum GridError {
    /// A character that is neither a cell nor part of the frame.
    UnknownCharacter(char),
    /// No agent marker `.` in the text.
    MissingAgent,
    /// More than one agent marker `.` in the text.
    DuplicateAgent,
}

/// Characters of the frame drawn around a board, and line breaks.
pub open spec fn is_frame_char(c: char) -> bool {
    c == '\n' || c == '+' || c == '-' || c == '|'
}

/// The text from its first `+` on; empty where there is none.
pub open spec fn from_first_plus(s: Seq<char>) -> Seq<char>
    decreases s.len(),
{
    if s.len() == 0 {
        s
    } else if s[0] == '+' {
        s
    } else {
        from_first_plus(s.drop_first())
    }
}

/// The part of a text that holds the board: from the top-left corner of
/// its frame on, or all of it where it has no frame.
pub open spec fn board_body(s: Seq<char>) -> Seq<char> {
    if s.contains('+') {
        from_first_plus(s)
    } else {
        s
    }
}

/// The cells that a text lists, frame characters left out; the agent's
/// cell is floor.
pub open spec fn text_cells(t: Seq<char>) -> Seq<Cell>
    decreases t.len(),
{
    if t.len() == 0 {
        Seq::empty()
    } else {
        let r = text_cells(t.drop_last());
        let c = t.last();
        if is_frame_char(c) {
            r
        } else {
            match cell_of(c) {
                Some(Cell::Reachable) => r.push(Cell::Unreachable),
                Some(x) => r.push(x),
                None => r,
            }
        }
    }
}

/// How many agent markers a text holds.
pub open spec fn agent_count(t: Seq<char>) -> nat
    decreases t.len(),
{
    if t.len() == 0 {
        0
    } else {
        agent_count(t.drop_last()) + if t.last() == '.' {
            1nat
        } else {
            0nat
        }
    }
}

/// The cell index of the last agent marker in a text.
pub open spec fn agent_index(t: Seq<char>) -> int
    decreases t.len(),
{
    if t.len() == 0 {
        -1
    } else if t.last() == '.' {
        text_cells(t.drop_last()).len() as int
    } else {
        agent_index(t.drop_last())
    }
}

/// The first character of a text that is neither a cell nor frame.
pub open spec fn first_unknown(t: Seq<char>) -> Option<char>
    decreases t.len(),
{
    if t.len() == 0 {
        None
    } else {
        match first_unknown(t.drop_last()) {
            Some(c) => Some(c),
            None => if !is_frame_char(t.last()) && cell_of(t.last()) is None {
                Some(t.last())
            } else {
                None
            },
        }
    }
}

proof fn lemma_first_plus_skip(s: Seq<char>, k: int)
    requires
        0 <= k <= s.len(),
        forall|j: int| 0 <= j < k ==> s[j] != '+',
    ensures
        from_first_plus(s) == from_first_plus(s.skip(k)),
    decreases k,
{
    if k > 0 {
        lemma_first_plus_skip(s, k - 1);
        let t = s.skip(k - 1);
        assert(t[0] != '+');
        assert(t.drop_first() =~= s.skip(k));
    } else {
        assert(s.skip(0) =~= s);
    }
}

/// Where the board starts in `s`: at its first `+`, or at 0 where there is
/// none.
fn board_start(s: &Vec<char>) -> (k: usize)
    ensures
        k <= s@.len(),
        s@.skip(k as int) == board_body(s@),
{
    let mut k: usize = 0;
    while k < s.len()
        invariant
            k <= s@.len(),
            forall|j: int| 0 <= j < k ==> s@[j] != '+',
        decreases s.len() - k,
    {
        if s[k] == '+' {
            proof {
                lemma_first_plus_skip(s@, k as int);
                assert(s@.contains('+'));
            }
            return k;
        }
        k = k + 1;
    }
    assert(!s@.contains('+'));
    assert(s@.skip(0) =~= s@);
    0
}

/// Reads a board from its text form: an optional frame of `+`, `-` and `|`
/// and line breaks are left out, each other character is one cell, and the
/// single `.` marks the agent, whose cell becomes floor. Returns the agent's
/// cell index and the cells.
pub fn parse_game_grid(text: &Vec<char>) -> (r: Result<(usize, Vec<Cell>), GridError>)
    ensures
        ({
            let body = board_body(text@);
            match first_unknown(body) {
                Some(c) => r == Err::<(usize, Vec<Cell>), GridError>(GridError::UnknownCharacter(c)),
                None => if agent_count(body) == 0 {
                    r == Err::<(usize, Vec<Cell>), GridError>(GridError::MissingAgent)
                } else if agent_count(body) > 1 {
                    r == Err::<(usize, Vec<Cell>), GridError>(GridError::DuplicateAgent)
                } else {
                    r matches Ok((t, g)) && g@ == text_cells(body) && t == agent_index(body)
                },
            }
        }),
{
    let start = board_start(text);
    let ghost body = board_body(text@);
    let mut grid: Vec<Cell> = Vec::new();
    let mut tractor: usize = 0;
    let mut agents: usize = 0;
    let mut unknown: Option<char> = None;
    let mut i: usize = start;
    while i < text.len()
        invariant
            start <= i <= text@.len(),
            body == text@.skip(start as int),
            grid@ == text_cells(body.take(i - start)),
            agents == agent_count(body.take(i - start)) || (agents == 2 && agent_count(
                body.take(i - start),
            ) >= 2),
            agents <= 2,
            agents >= 1 ==> tractor == agent_index(body.take(i - start)),
            unknown == first_unknown(body.take(i - start)),
            grid@.len() <= i - start,
        decreases text.len() - i,
    {
        let c = text[i];
        let ghost pre = body.take(i - start);
        let ghost next = body.take(i + 1 - start);
        assert(next.drop_last() =~= pre);
        assert(next.last() == c);
        if c == '\n' || c == '+' || c == '-' || c == '|' {
        } else {
            match Cell::try_from_char(c) {
                Some(cell) => {
                    if cell == Cell::Reachable {
                        tractor = grid.len();
                        if agents < 2 {
                            agents = agents + 1;
                        }
                        grid.push(Cell::Unreachable);
                    } else {
                        grid.push(cell);
                    }
                },
                None => {
                    if unknown.is_none() {
                        unknown = Some(c);
                    }
                },
            }
        }
        i = i + 1;
    }
    assert(body.take(i - start) =~= body);
    match unknown {
        Some(c) => Err(GridError::UnknownCharacter(c)),
        None => if agents == 0 {
            Err(GridError::MissingAgent)
        } else if agents > 1 {
            Err(GridError::DuplicateAgent)
        } else {
            Ok((tractor, grid))
        },
    }
}

/// The side of a square board of `n` cells, searched from 3 upward; `None`
/// where `n` is not the square of a side of at least 3.
pub fn guess_size(n: usize) -> (r: Option<usize>)
    ensures
        r matches Some(i) ==> i >= 3 && i * i == n,
        r is None ==> forall|i: int| i >= 3 ==> #[trigger] (i * i) != n,
{
    let mut i: usize = 3;
    while i < n / 2
        invariant
            3 <= i,
            forall|j: int| 3 <= j < i ==> #[trigger] (j * j) != n,
        decreases n / 2 - i,
    {
        proof {
            lemma_fundamental_div_mod(n as int, i as int);
            lemma_mod_bound(n as int, i as int);
        }
        if i > n / i {
            proof {
                let nn = n as int;
                let ii = i as int;
                let q = nn / ii;
                let rr = nn % ii;
                assert(nn < ii * ii) by (nonlinear_arith)
                    requires nn == ii * q + rr, rr < ii, q < ii, q >= 0;
                assert forall|j: int| j >= 3 implies #[trigger] (j * j) != n by {
                    if j >= i {
                        assert(j * j >= i * i) by (nonlinear_arith)
                            requires j >= i, i >= 3;
                    }
                }
            }
            return None;
        }
        proof {
            let nn = n as int;
            let ii = i as int;
            let q = nn / ii;
            let rr = nn % ii;
            assert(ii * ii <= nn) by (nonlinear_arith)
                requires nn == ii * q + rr, rr >= 0, ii <= q, ii >= 0;
        }
        if i * i == n {
            return Some(i);
        }
        i = i + 1;
    }
    proof {
        assert forall|j: int| j >= 3 implies #[trigger] (j * j) != n by {
            if j >= i {
                let h = n as int / 2;
                assert(n <= 2 * h + 1) by {
                    lemma_fundamental_div_mod(n as int, 2);
                    lemma_mod_bound(n as int, 2);
                }
                assert(j * j > n) by (nonlinear_arith)
                    requires j >= h, j >= 3, n <= 2 * h + 1, h >= 0;
            }
        }
    }
    None
}

} // verus!
