//! The move generator of a computer player: a fixed, repeatable sequence
//! of coordinates that does not look at the board.

use vstd::prelude::*;
use crate::nogo::Nogo;
use crate::nogo::NogoError;
use crate::nogo::Player;
use crate::nogo::HUMAN;
use crate::text::{chars_of, numbers_of, parse_numbers};

verus! {

/// The modulus of the step that sends a generator to a new place.
pub const MODULUS: usize = 1_000_003;

/// The state of a generator as a mathematical value. Row and column run on
/// without bound; they are fitted to the board only when a move is read.
pub struct ComputerState {
    pub row: nat,
    pub column: nat,
    pub mult_factor: nat,
    pub height: nat,
    pub width: nat,
    pub counter: nat,
    pub b: nat,
}

/// The row that the generator of a player starts in.
pub open spec fn initial_row(player: Player) -> nat {
    match player {
        Player::O => 1,
        Player::X => 2,
    }
}

/// The column that the generator of a player starts in.
pub open spec fn initial_column(player: Player) -> nat {
    match player {
        Player::O => 4,
        Player::X => 10,
    }
}

/// The multiplier of the generator of a player.
pub open spec fn multiplier(player: Player) -> nat {
    match player {
        Player::O => 29,
        Player::X => 17,
    }
}

/// The base of the generator of a player on a board of the given width.
pub open spec fn base(player: Player, width: nat) -> nat {
    initial_row(player) * width + initial_column(player)
}

/// The state of a generator that has made no move yet.
pub open spec fn initial_state(player: Player, height: nat, width: nat) -> ComputerState {
    ComputerState {
        row: initial_row(player),
        column: initial_column(player),
        mult_factor: multiplier(player),
        height,
        width,
        counter: 0,
        b: base(player, width),
    }
}

/// The move that a generator in state `s` gives: its row and column, fitted
/// to the board.
pub open spec fn current_move(s: ComputerState) -> (nat, nat) {
    (s.row % s.height, s.column % s.width)
}

/// The place that the generator is sent to when its counter reaches `k`, a
/// multiple of five.
pub open spec fn jump(s: ComputerState, k: nat) -> nat {
    (s.b + (k / 5) * s.mult_factor) % (MODULUS as nat)
}

/// The state after `s`. The counter goes up by one; four steps out of five
/// move on by a little, and the fifth sends the generator to a new place.
pub open spec fn next_state(s: ComputerState) -> ComputerState {
    let k = s.counter + 1;
    if k % 5 == 1 {
        ComputerState { row: s.row + 1, column: s.column + 1, counter: k, ..s }
    } else if k % 5 == 2 {
        ComputerState { row: s.row + 2, column: s.column + 1, counter: k, ..s }
    } else if k % 5 == 3 {
        ComputerState { row: s.row + 1, counter: k, ..s }
    } else if k % 5 == 4 {
        ComputerState { column: s.column + 1, counter: k, ..s }
    } else {
        ComputerState {
            row: jump(s, k) / s.width,
            column: jump(s, k) % s.width,
            counter: k,
            ..s
        }
    }
}

/// The state after `n` moves from `s`.
pub open spec fn state_after(s: ComputerState, n: nat) -> ComputerState
    decreases n,
{
    if n == 0 {
        s
    } else {
        next_state(state_after(s, (n - 1) as nat))
    }
}

/// The first `n` moves that a generator gives from state `s`.
pub open spec fn moves(s: ComputerState, n: nat) -> Seq<(nat, nat)> {
    Seq::new(n, |i: int| current_move(state_after(s, i as nat)))
}

/// Whether the machine can hold the state: row, column and counter fit.
pub open spec fn fits(s: ComputerState) -> bool {
    s.row <= usize::MAX && s.column <= usize::MAX && s.counter <= usize::MAX
}

/// Whether a generator in state `s` can give a move: its board has cells,
/// and the machine can hold the state that follows.
pub open spec fn can_step(s: ComputerState) -> bool {
    s.height > 0 && s.width > 0 && fits(next_state(s))
}

/// How far the row has moved on since the counter was last a multiple of
/// five.
pub open spec fn row_drift(counter: nat) -> nat {
    let k = counter % 5;
    if k == 0 {
        0
    } else if k == 1 {
        1
    } else if k == 2 {
        3
    } else {
        4
    }
}

/// How far the column has moved on since the counter was last a multiple
/// of five.
pub open spec fn column_drift(counter: nat) -> nat {
    let k = counter % 5;
    if k == 0 {
        0
    } else if k == 1 {
        1
    } else if k == 4 {
        3
    } else {
        2
    }
}

/// What holds of every state that a generator runs through once it has
/// started: row and column stay close to where the counter last sent them.
pub open spec fn steady(s: ComputerState) -> bool {
    &&& s.height > 0
    &&& s.width > 0
    &&& s.row <= MODULUS + row_drift(s.counter)
    &&& s.column <= MODULUS + column_drift(s.counter)
}

/// A generator that has just started is steady.
pub proof fn lemma_initial_steady(player: Player, height: nat, width: nat)
    requires
        height > 0,
        width > 0,
    ensures
        steady(initial_state(player, height, width)),
{
}

/// A steady generator stays steady, and it can give a move as long as the
/// machine can count it.
pub proof fn lemma_steady_step(s: ComputerState)
    requires
        steady(s),
        s.counter < usize::MAX,
    ensures
        steady(next_state(s)),
        can_step(s),
{
    let k = s.counter + 1;
    let t = next_state(s);
    assert(usize::MAX >= 0xffff_ffff);
    if k % 5 == 0 {
        let n = jump(s, k);
        assert(n < MODULUS);
        assert(n / s.width <= n && n % s.width <= n) by (nonlinear_arith)
            requires
                s.width > 0,
                n >= 0,
        ;
        assert(t.row <= MODULUS);
        assert(t.column <= MODULUS);
    } else if k % 5 == 1 {
        assert(s.counter % 5 == 0);
    } else if k % 5 == 2 {
        assert(s.counter % 5 == 1);
    } else if k % 5 == 3 {
        assert(s.counter % 5 == 2);
    } else {
        assert(s.counter % 5 == 3);
    }
}

/// The place of the first of the three numbers that a saved game holds for
/// the generator of a player. Before them stand the height, the width and
/// the player to move.
pub open spec fn first_field(player: Player) -> int {
    match player {
        Player::O => 3,
        Player::X => 6,
    }
}

/// The state of the generator of a player as the numbers of a saved game
/// give it: row, column and counter as they were, height and width as the
/// game had them, and the base made anew from that width.
pub open spec fn loaded_state(player: Player, fields: Seq<usize>) -> ComputerState {
    let k = first_field(player);
    ComputerState {
        row: fields[k] as nat,
        column: fields[k + 1] as nat,
        mult_factor: multiplier(player),
        height: fields[0] as nat,
        width: fields[1] as nat,
        counter: fields[k + 2] as nat,
        b: base(player, fields[1] as nat),
    }
}

/// What the numbers of the first line of a saved game give for a player.
/// The line is corrupt when a number that the player needs is missing; for
/// a player whose moves are generated also when the base does not fit the
/// machine. A human player has no generator.
pub open spec fn loaded_from(generated: bool, player: Player, fields: Seq<usize>) -> Result<
    Option<ComputerState>,
    NogoError,
> {
    if fields.len() < first_field(player) + 3 {
        Err(NogoError::CorruptFile)
    } else if !generated {
        Ok(None)
    } else if base(player, fields[1] as nat) > usize::MAX {
        Err(NogoError::CorruptFile)
    } else {
        Ok(Some(loaded_state(player, fields)))
    }
}

/// What reading the first line of a saved game gives for a player. The line
/// is corrupt when a word of it is no number; for the rest see
/// `loaded_from`.
pub open spec fn loaded(generated: bool, player: Player, line: Seq<char>) -> Result<
    Option<ComputerState>,
    NogoError,
> {
    match numbers_of(line) {
        None => Err(NogoError::CorruptFile),
        Some(fields) => loaded_from(generated, player, fields),
    }
}

/// Whether a generator is in the state that a reading gave.
pub open spec fn holds(res: Result<Option<Computer>, NogoError>, expected: Result<
    Option<ComputerState>,
    NogoError,
>) -> bool {
    match expected {
        Err(e) => res == Err::<Option<Computer>, NogoError>(e),
        Ok(None) => res == Ok::<Option<Computer>, NogoError>(None),
        Ok(Some(s)) => res is Ok && res->Ok_0 is Some && res->Ok_0->0@ == s,
    }
}

/// The base of the generator of a player on a board of the given width,
/// where the machine can hold it.
fn base_for(player: Player, width: usize) -> (b: Option<usize>)
    ensures
        base(player, width as nat) <= usize::MAX ==> b == Some(base(player, width as nat) as usize),
        base(player, width as nat) > usize::MAX ==> b is None,
{
    match player {
        Player::O => {
            if width > usize::MAX - 4 {
                None
            } else {
                Some(width + 4)
            }
        },
        Player::X => {
            if width > (usize::MAX - 10) / 2 {
                None
            } else {
                Some(2 * width + 10)
            }
        },
    }
}

/// Holds the generator of one computer player.
#[derive(Debug, Copy, Clone)]
pub struct Computer {
    row: usize,
    column: usize,
    mult_factor: usize,
    height: usize,
    width: usize,
    counter: usize,
    b: usize,
}

impl View for Computer {
    type V = ComputerState;

    /// The state of the generator.
    closed spec fn view(&self) -> ComputerState {
        ComputerState {
            row: self.row as nat,
            column: self.column as nat,
            mult_factor: self.mult_factor as nat,
            height: self.height as nat,
            width: self.width as nat,
            counter: self.counter as nat,
            b: self.b as nat,
        }
    }
}

impl Computer {
    /// Creates the generator of a player from the configuration of a game,
    /// or nothing when the player is human.
    pub fn new(nogo: &Nogo, player: Player) -> (res: Option<Computer>)
        requires
            base(player, nogo.cols()) <= usize::MAX,
        ensures
            res is Some <==> nogo.is_generated(player),
            res is Some ==> res->0@ == initial_state(player, nogo.rows(), nogo.cols()),
    {
        let row: usize;
        let column: usize;
        let mult_factor: usize;
        match player {
            Player::O => {
                if nogo.get_p1type() == HUMAN {
                    return None;
                }
                row = 1;
                column = 4;
                mult_factor = 29;
            },
            Player::X => {
                if nogo.get_p2type() == HUMAN {
                    return None;
                }
                row = 2;
                column = 10;
                mult_factor = 17;
            },
        }
        assert(row * nogo.cols() + column == base(player, nogo.cols())) by (nonlinear_arith)
            requires
                row == initial_row(player),
                column == initial_column(player),
        ;
        Some(
            Computer {
                row,
                column,
                mult_factor,
                height: nogo.get_height(),
                width: nogo.get_width(),
                counter: 0,
                b: row * nogo.get_width() + column,
            },
        )
    }

    /// Creates the generator of a player from the first line of a saved
    /// game: see `loaded`.
    pub fn load(nogo: &Nogo, file_line: &str, player: Player) -> (res: Result<
        Option<Computer>,
        NogoError,
    >)
        ensures
            holds(res, loaded(nogo.is_generated(player), player, file_line@)),
    {
        let line = chars_of(file_line);
        match parse_numbers(&line) {
            Some(fields) => Computer::from_numbers(nogo, &fields, player),
            None => Err(NogoError::CorruptFile),
        }
    }

    /// Creates the generator of a player from the numbers of the first line
    /// of a saved game: see `loaded_from`.
    pub fn from_numbers(nogo: &Nogo, fields: &Vec<usize>, player: Player) -> (res: Result<
        Option<Computer>,
        NogoError,
    >)
        ensures
            holds(res, loaded_from(nogo.is_generated(player), player, fields@)),
    {
        let first: usize = match player {
            Player::O => 3,
            Player::X => 6,
        };
        if fields.len() < first + 3 {
            return Err(NogoError::CorruptFile);
        }
        let height = fields[0];
        let width = fields[1];
        let row = fields[first];
        let column = fields[first + 1];
        let counter = fields[first + 2];
        let mult_factor: usize = match player {
            Player::O => {
                if nogo.get_p1type() == HUMAN {
                    return Ok(None);
                }
                29
            },
            Player::X => {
                if nogo.get_p2type() == HUMAN {
                    return Ok(None);
                }
                17
            },
        };
        match base_for(player, width) {
            Some(b) => Ok(Some(Computer { row, column, mult_factor, height, width, counter, b })),
            None => Err(NogoError::CorruptFile),
        }
    }

    /// Makes a generator of the given parts, as it is in the middle of a
    /// game.
    pub fn from_parts(
        row: usize,
        column: usize,
        mult_factor: usize,
        height: usize,
        width: usize,
        counter: usize,
        b: usize,
    ) -> (c: Computer)
        ensures
            c@ == (ComputerState {
                row: row as nat,
                column: column as nat,
                mult_factor: mult_factor as nat,
                height: height as nat,
                width: width as nat,
                counter: counter as nat,
                b: b as nat,
            }),
    {
        Computer { row, column, mult_factor, height, width, counter, b }
    }

    /// Whether the generator can give a move: see `can_step`.
    pub fn can_generate(&self) -> (ok: bool)
        ensures
            ok == can_step(self@),
    {
        if self.height == 0 || self.width == 0 || self.counter == usize::MAX {
            return false;
        }
        let k = (self.counter + 1) % 5;
        if k == 1 {
            self.row < usize::MAX && self.column < usize::MAX
        } else if k == 2 {
            self.row < usize::MAX - 1 && self.column < usize::MAX
        } else if k == 3 {
            self.row < usize::MAX
        } else if k == 4 {
            self.column < usize::MAX
        } else {
            proof {
                let n = jump(self@, (self.counter + 1) as nat);
                assert(n / self@.width <= n && n % self@.width <= n) by (nonlinear_arith)
                    requires
                        self@.width > 0,
                        n >= 0,
                ;
            }
            true
        }
    }

    /// Gets the move of the computer, and generates the next one.
    pub fn get_and_generate_move(&mut self) -> (res: (usize, usize))
        requires
            can_step(old(self)@),
        ensures
            (res.0 as nat, res.1 as nat) == current_move(old(self)@),
            final(self)@ == next_state(old(self)@),
    {
        let r = self.row % self.height;
        let c = self.column % self.width;
        self.generate_next_move();
        (r, c)
    }

    /// The running row, not fitted to the board.
    pub fn get_row(&self) -> (row: usize)
        ensures
            row == self@.row,
    {
        self.row
    }

    /// The running column, not fitted to the board.
    pub fn get_column(&self) -> (column: usize)
        ensures
            column == self@.column,
    {
        self.column
    }

    /// The number of moves generated so far.
    pub fn get_counter(&self) -> (counter: usize)
        ensures
            counter == self@.counter,
    {
        self.counter
    }

    /// Generates the next move from the counter, and stores it.
    pub fn generate_next_move(&mut self)
        requires
            can_step(old(self)@),
        ensures
            final(self)@ == next_state(old(self)@),
    {
        self.counter += 1;
        let k = self.counter % 5;
        if k == 1 {
            self.row += 1;
            self.column += 1;
        } else if k == 2 {
            self.row += 2;
            self.column += 1;
        } else if k == 3 {
            self.row += 1;
        } else if k == 4 {
            self.column += 1;
        } else {
            let steps: u128 = (self.counter / 5) as u128;
            let mult: u128 = self.mult_factor as u128;
            assert(steps * mult <= 0xffff_ffff_ffff_ffff * 0xffff_ffff_ffff_ffff) by (nonlinear_arith)
                requires
                    0 <= steps <= 0xffff_ffff_ffff_ffff,
                    0 <= mult <= 0xffff_ffff_ffff_ffff,
            ;
            let n: u128 = (self.b as u128 + steps * mult) % 1_000_003;
            let w: u128 = self.width as u128;
            proof {
                assert(n / w <= n && n % w <= n) by (nonlinear_arith)
                    requires
                        w > 0,
                        n >= 0,
                ;
            }
            self.row = (n / w) as usize;
            self.column = (n % w) as usize;
        }
    }
}

} // verus!
