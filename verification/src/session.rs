//! A game in progress: the board, the player to move and the generators of
//! the computer players; how a turn changes them, and the text in which a
//! game is saved and taken up again.

use vstd::prelude::*;
use crate::computer::{
    base, can_step, current_move, fits, initial_state, lemma_initial_steady, lemma_steady_step,
    loaded_from, loaded_state, moves, multiplier, next_state, steady, Computer, ComputerState,
};
use crate::game_board::GameBoard;
use crate::game_board::lemma_grid_text_round_trip;
use crate::group::{
    empty_grid, grid_text, in_grid, is_board_grid, is_stone, lemma_no_winner, lemma_winner_at,
    place, valid_dimension, winner_of, Grid,
};
use crate::text::{
    chars_of, decimal_digits, is_digit_or_blank, join_numbers, joined, lemma_joined,
    lemma_words_space, number_of, numbers_of, parse_number, parse_numbers, rows_of, split_words,
    string_of, words,
};
use crate::nogo::Nogo;
use crate::nogo::NogoError;
use crate::nogo::Player;

verus! {

/// A game as a mathematical value.
pub struct GameState {
    /// The grid of the board.
    pub grid: Grid,
    /// The player to move.
    pub next: Player,
    /// The generator of player `O`, if that player is a computer.
    pub computer1: Option<ComputerState>,
    /// The generator of player `X`, if that player is a computer.
    pub computer2: Option<ComputerState>,
}

impl GameState {
    /// The generator of the given player.
    pub open spec fn computer(self, player: Player) -> Option<ComputerState> {
        match player {
            Player::O => self.computer1,
            Player::X => self.computer2,
        }
    }

    /// This game with the generator of the given player in state `c`.
    pub open spec fn with_computer(self, player: Player, c: ComputerState) -> GameState {
        match player {
            Player::O => GameState { computer1: Some(c), ..self },
            Player::X => GameState { computer2: Some(c), ..self },
        }
    }
}

/// Whether each generator of a game is steady: see `steady`.
pub open spec fn steady_game(s: GameState) -> bool {
    &&& s.computer1 is Some ==> steady(s.computer1->0)
    &&& s.computer2 is Some ==> steady(s.computer2->0)
}

/// In a game with steady generators the computer to move has a move as
/// long as the machine can count it, and the generators stay steady.
pub proof fn lemma_steady_turn(s: GameState)
    requires
        steady_game(s),
        s.computer(s.next) is Some,
        s.computer(s.next)->0.counter < usize::MAX,
    ensures
        can_step(s.computer(s.next)->0),
        steady_game(s.with_computer(s.next, next_state(s.computer(s.next)->0))),
{
    lemma_steady_step(s.computer(s.next)->0);
}

/// Holds a game in progress.
#[derive(Debug)]
pub struct Game {
    board: GameBoard,
    current_player: Player,
    computer1: Option<Computer>,
    computer2: Option<Computer>,
}

/// The state of a generator that may be absent.
pub open spec fn state_of(c: Option<Computer>) -> Option<ComputerState> {
    match c {
        Some(c) => Some(c@),
        None => None,
    }
}

impl View for Game {
    type V = GameState;

    /// The game as a mathematical value.
    closed spec fn view(&self) -> GameState {
        GameState {
            grid: self.board@,
            next: self.current_player,
            computer1: state_of(self.computer1),
            computer2: state_of(self.computer2),
        }
    }
}

/// What a game asks for at the start of a turn.
#[derive(Debug, Clone, Copy, PartialEq, Eq, Structural)]
pub enum Turn {
    /// The player to move is a computer, and this is its move: row, column.
    Generated(usize, usize),
    /// The player to move is human: the move has to be asked for.
    Human,
    /// The player to move is a computer whose generator cannot go on.
    Stuck,
}

impl Game {
    /// The invariant of a game: that of its board.
    pub closed spec fn wf(&self) -> bool {
        self.board.wf()
    }

    /// The board of the game.
    pub fn board(&self) -> (b: &GameBoard)
        ensures
            b@ == self@.grid,
            self.wf() ==> b.wf(),
    {
        &self.board
    }

    /// The player to move.
    pub fn current_player(&self) -> (p: Player)
        ensures
            p == self@.next,
    {
        self.current_player
    }

    /// The generator of the given player, if the player is a computer.
    pub fn computer(&self, player: Player) -> (c: Option<Computer>)
        ensures
            state_of(c) == self@.computer(player),
    {
        match player {
            Player::O => self.computer1,
            Player::X => self.computer2,
        }
    }

    /// Starts the turn of the player to move. For a computer this gives
    /// its move and moves its generator on; the rest of the game stays as
    /// it is. For a human player nothing changes, and neither for a
    /// computer whose generator cannot go on.
    pub fn turn(&mut self) -> (t: Turn)
        requires
            old(self).wf(),
        ensures
            final(self).wf(),
            is_game(old(self)@) ==> is_game(final(self)@),
            match old(self)@.computer(old(self)@.next) {
                None => t == Turn::Human && final(self)@ == old(self)@,
                Some(c) => if can_step(c) {
                    &&& t == Turn::Generated(current_move(c).0 as usize, current_move(c).1 as usize)
                    &&& final(self)@ == old(self)@.with_computer(old(self)@.next, next_state(c))
                } else {
                    t == Turn::Stuck && final(self)@ == old(self)@
                },
            },
    {
        match self.current_player {
            Player::O => {
                match self.computer1 {
                    None => Turn::Human,
                    Some(mut c) => {
                        if c.can_generate() {
                            let (h, w) = c.get_and_generate_move();
                            self.computer1 = Some(c);
                            Turn::Generated(h, w)
                        } else {
                            Turn::Stuck
                        }
                    },
                }
            },
            Player::X => {
                match self.computer2 {
                    None => Turn::Human,
                    Some(mut c) => {
                        if c.can_generate() {
                            let (h, w) = c.get_and_generate_move();
                            self.computer2 = Some(c);
                            Turn::Generated(h, w)
                        } else {
                            Turn::Stuck
                        }
                    },
                }
            },
        }
    }

    /// Plays the move of the player to move on the cell at row `h`, column
    /// `w`.
    ///
    /// Fails as `GameBoard::insert_move` does, and then changes nothing.
    /// Else the stone is placed. If a stone on the board is then dead, the
    /// game is over: the result is the winner, the opponent of the owner of
    /// the first dead stone, and the player to move stays. If none is, the
    /// other player is the next to move.
    pub fn play(&mut self, h: usize, w: usize) -> (res: Result<Option<Player>, NogoError>)
        requires
            old(self).wf(),
        ensures
            final(self).wf(),
            is_game(old(self)@) ==> is_game(final(self)@),
            !in_grid(old(self)@.grid, h as int, w as int) ==> res == Err::<
                Option<Player>,
                NogoError,
            >(NogoError::InvalidPosition),
            in_grid(old(self)@.grid, h as int, w as int) && is_stone(
                old(self)@.grid[h as int][w as int],
            ) ==> res == Err::<Option<Player>, NogoError>(NogoError::PositionTaken),
            in_grid(old(self)@.grid, h as int, w as int) && !is_stone(
                old(self)@.grid[h as int][w as int],
            ) ==> res is Ok,
            res is Err ==> final(self)@ == old(self)@,
            res is Ok ==> {
                let g = place(old(self)@.grid, h as int, w as int, old(self)@.next.stone());
                &&& res == Ok::<Option<Player>, NogoError>(winner_of(g))
                &&& final(self)@ == (GameState {
                    grid: g,
                    next: if winner_of(g) is Some {
                        old(self)@.next
                    } else {
                        old(self)@.next.opponent()
                    },
                    ..old(self)@
                })
            },
    {
        let player = self.current_player;
        match self.board.insert_move(h, w, &player) {
            Err(e) => {
                return Err(e);
            },
            Ok(_) => {},
        }
        match self.board.check_win() {
            Some((r, c)) => {
                proof {
                    self.board.lemma_wf();
                    lemma_winner_at(self.board@, r as int, c as int);
                }
                let winner = match self.board.get(r, c) {
                    'X' => Player::O,
                    _ => Player::X,
                };
                Ok(Some(winner))
            },
            None => {
                proof {
                    lemma_no_winner(self.board@);
                }
                Nogo::change_player(&mut self.current_player);
                Ok(None)
            },
        }
    }
}

impl Nogo {
    /// Starts a new game on an empty board of the configured dimensions,
    /// with player `O` to move and a fresh generator for each computer
    /// player.
    ///
    /// Fails with `InvalidDimension` exactly when the height or the width
    /// lies outside the accepted range.
    pub fn start(&self) -> (res: Result<Game, NogoError>)
        ensures
            valid_dimension(self.rows() as int) && valid_dimension(self.cols() as int) <==> res is Ok,
            res is Err ==> res->Err_0 == NogoError::InvalidDimension,
            res is Ok ==> steady_game(res->Ok_0@) && is_game(res->Ok_0@),
            res is Ok ==> res->Ok_0.wf() && res->Ok_0@ == (GameState {
                grid: empty_grid(self.rows() as int, self.cols() as int),
                next: Player::O,
                computer1: if self.is_generated(Player::O) {
                    Some(initial_state(Player::O, self.rows(), self.cols()))
                } else {
                    None
                },
                computer2: if self.is_generated(Player::X) {
                    Some(initial_state(Player::X, self.rows(), self.cols()))
                } else {
                    None
                },
            }),
    {
        let board = match GameBoard::new(self.get_height(), self.get_width()) {
            Ok(b) => b,
            Err(e) => {
                return Err(e);
            },
        };
        let computer1 = Computer::new(self, Player::O);
        let computer2 = Computer::new(self, Player::X);
        proof {
            lemma_initial_steady(Player::O, self.rows(), self.cols());
            lemma_initial_steady(Player::X, self.rows(), self.cols());
        }
        Ok(Game { board, current_player: Player::O, computer1, computer2 })
    }
}

/// The number that a saved game holds for the player to move.
pub open spec fn next_number(p: Player) -> usize {
    match p {
        Player::O => 0,
        Player::X => 1,
    }
}

/// The three numbers that a saved game holds for a generator: row, column
/// and counter, or three zeros for a human player.
pub open spec fn saved_numbers(c: Option<ComputerState>) -> Seq<usize> {
    match c {
        Some(c) => seq![c.row as usize, c.column as usize, c.counter as usize],
        None => seq![0usize, 0usize, 0usize],
    }
}

/// The numbers of the first line of a saved game: height, width, the
/// player to move, and three numbers for each of the two generators.
pub open spec fn header_numbers(s: GameState) -> Seq<usize> {
    seq![s.grid.len() as usize, s.grid[0].len() as usize, next_number(s.next)] + saved_numbers(
        s.computer1,
    ) + saved_numbers(s.computer2)
}

/// The text of a saved game: the line of its numbers, then the rows of the
/// board, one to a line.
pub open spec fn save_text(s: GameState) -> Seq<char> {
    joined(header_numbers(s)).push('\n') + grid_text(s.grid)
}

/// The place of the first line feed of a text, or its length if it has
/// none.
pub open spec fn line_break(s: Seq<char>) -> int
    decreases s.len(),
{
    if s.len() == 0 || s[0] == '\n' {
        0
    } else {
        1 + line_break(s.drop_first())
    }
}

/// The player to move that a word of a saved game names.
pub open spec fn next_player_of(word: Seq<char>) -> Option<Player> {
    if word == seq!['0'] {
        Some(Player::O)
    } else if word == seq!['1'] {
        Some(Player::X)
    } else {
        None
    }
}

/// The game that a text holds, for players of whom `gen1` and `gen2` say
/// whether their moves are generated; or nothing where the text is corrupt.
///
/// The text is good when it has a first line, every word of that line is a
/// number and nine of them are there, the third word is `0` or `1`, the rest
/// of the text makes a board, and the first two numbers are the height and
/// the width of that board.
pub open spec fn saved_game(contents: Seq<char>, gen1: bool, gen2: bool) -> Option<GameState> {
    let k = line_break(contents);
    let head = contents.take(k);
    let grid = words(contents.skip(k));
    if k >= contents.len() {
        None
    } else {
        match numbers_of(head) {
            None => None,
            Some(f) => match (
                loaded_from(gen1, Player::O, f),
                loaded_from(gen2, Player::X, f),
                next_player_of(words(head)[2]),
            ) {
                (Ok(c1), Ok(c2), Some(p)) => if is_board_grid(grid) && grid.len() == f[0]
                    && grid[0].len() == f[1] {
                    Some(GameState { grid, next: p, computer1: c1, computer2: c2 })
                } else {
                    None
                },
                _ => None,
            },
        }
    }
}

/// The first line feed of a text is where a line feed stands with none
/// before it.
pub proof fn lemma_line_break(s: Seq<char>, k: int)
    requires
        0 <= k <= s.len(),
        forall|j: int| 0 <= j < k ==> #[trigger] s[j] != '\n',
        k == s.len() || s[k] == '\n',
    ensures
        line_break(s) == k,
    decreases k,
{
    if k > 0 {
        let t = s.drop_first();
        assert(s[0] != '\n');
        assert forall|j: int| 0 <= j < k - 1 implies #[trigger] t[j] != '\n' by {
            assert(t[j] == s[j + 1]);
        }
        lemma_line_break(t, k - 1);
    }
}

/// Whether a generator is the one of the given player on a board of the
/// given dimensions: its multiplier and its base are those of the player,
/// and it was made for that board.
pub open spec fn belongs(c: ComputerState, player: Player, height: nat, width: nat) -> bool {
    &&& c.mult_factor == multiplier(player)
    &&& c.b == base(player, width)
    &&& c.height == height
    &&& c.width == width
}

/// Whether the generators of a game are those of its players on its board.
pub open spec fn generators_belong(s: GameState) -> bool {
    &&& s.computer1 is Some ==> belongs(
        s.computer1->0,
        Player::O,
        s.grid.len(),
        s.grid[0].len(),
    )
    &&& s.computer2 is Some ==> belongs(s.computer2->0, Player::X, s.grid.len(), s.grid[0].len())
}

/// Whether a game can be held and saved: its grid is that of a board, its
/// generators are those of its players on that board, and the machine can
/// hold their states.
pub open spec fn is_game(s: GameState) -> bool {
    &&& is_board_grid(s.grid)
    &&& generators_belong(s)
    &&& s.computer1 is Some ==> fits(s.computer1->0)
    &&& s.computer2 is Some ==> fits(s.computer2->0)
}

impl Game {
    /// The text in which the game is saved: see `save_text`.
    pub fn save_text(&self) -> (text: String)
        requires
            self.wf(),
        ensures
            text@ == save_text(self@),
    {
        let mut numbers: Vec<usize> = Vec::new();
        numbers.push(self.board.get_height());
        numbers.push(self.board.get_width());
        numbers.push(
            match self.current_player {
                Player::O => 0,
                Player::X => 1,
            },
        );
        match self.computer1 {
            Some(c) => {
                numbers.push(c.get_row());
                numbers.push(c.get_column());
                numbers.push(c.get_counter());
            },
            None => {
                numbers.push(0);
                numbers.push(0);
                numbers.push(0);
            },
        }
        match self.computer2 {
            Some(c) => {
                numbers.push(c.get_row());
                numbers.push(c.get_column());
                numbers.push(c.get_counter());
            },
            None => {
                numbers.push(0);
                numbers.push(0);
                numbers.push(0);
            },
        }
        proof {
            self.board.lemma_wf();
            assert(numbers@ =~= header_numbers(self@));
        }
        let mut out = join_numbers(&numbers);
        out.push('\n');
        let mut rows = self.board.plain_chars();
        out.append(&mut rows);
        string_of(&out)
    }
}

impl Nogo {
    /// Takes up the game that a text holds: see `saved_game`.
    ///
    /// Fails with `CorruptFile` where the text holds no game, and then
    /// changes nothing. Else the configuration takes the height and the
    /// width of the saved board.
    pub fn resume(&mut self, contents: &str) -> (res: Result<Game, NogoError>)
        ensures
            match saved_game(
                contents@,
                old(self).is_generated(Player::O),
                old(self).is_generated(Player::X),
            ) {
                None => {
                    &&& res is Err
                    &&& res->Err_0 == NogoError::CorruptFile
                    &&& *final(self) == *old(self)
                },
                Some(s) => {
                    &&& is_game(s)
                    &&& res is Ok
                    &&& res->Ok_0.wf()
                    &&& res->Ok_0@ == s
                    &&& *final(self) == old(self).resized(
                        s.grid.len() as usize,
                        s.grid[0].len() as usize,
                    )
                },
            },
    {
        let mut head = chars_of(contents);
        let mut k: usize = 0;
        while k < head.len() && head[k] != '\n'
            invariant
                k <= head.len(),
                forall|j: int| 0 <= j < k ==> #[trigger] head@[j] != '\n',
            decreases head.len() - k,
        {
            k += 1;
        }
        proof {
            lemma_line_break(head@, k as int);
        }
        if k == head.len() {
            return Err(NogoError::CorruptFile);
        }
        let rest = head.split_off(k);
        assert(head@ =~= contents@.take(k as int));
        assert(rest@ =~= contents@.skip(k as int));
        let fields = match parse_numbers(&head) {
            Some(f) => f,
            None => {
                return Err(NogoError::CorruptFile);
            },
        };
        let computer1 = match Computer::from_numbers(self, &fields, Player::O) {
            Ok(c) => c,
            Err(_) => {
                return Err(NogoError::CorruptFile);
            },
        };
        let computer2 = match Computer::from_numbers(self, &fields, Player::X) {
            Ok(c) => c,
            Err(_) => {
                return Err(NogoError::CorruptFile);
            },
        };
        let names = split_words(&head);
        assert(rows_of(names)[2] == names@[2]@);
        let current_player = if names[2].len() == 1 && names[2][0] == '0' {
            assert(names@[2]@ =~= seq!['0']);
            Player::O
        } else if names[2].len() == 1 && names[2][0] == '1' {
            assert(names@[2]@ =~= seq!['1']);
            Player::X
        } else {
            assert(names@[2]@ != seq!['0'] && names@[2]@ != seq!['1']) by {
                if names@[2]@.len() == 1 {
                    assert(seq!['0'][0] == '0');
                    assert(seq!['1'][0] == '1');
                }
            }
            return Err(NogoError::CorruptFile);
        };
        let board = match GameBoard::from_rows(split_words(&rest)) {
            Ok(b) => b,
            Err(_) => {
                return Err(NogoError::CorruptFile);
            },
        };
        if board.get_height() != fields[0] || board.get_width() != fields[1] {
            return Err(NogoError::CorruptFile);
        }
        self.set_dimensions(fields[0], fields[1]);
        Ok(Game { board, current_player, computer1, computer2 })
    }
}

/// A saved game, taken up again by players of the same types, is the game
/// that was saved: the same board, the same player to move, and each
/// generator in the state it was in.
pub proof fn lemma_save_resume(s: GameState)
    requires
        is_game(s),
    ensures
        saved_game(save_text(s), s.computer1 is Some, s.computer2 is Some) == Some(s),
{
    let hn = header_numbers(s);
    let line = joined(hn);
    let text = save_text(s);
    let k = line.len() as int;
    let h = s.grid.len() as int;
    let w = s.grid[0].len() as int;
    lemma_joined(hn);
    assert forall|j: int| 0 <= j < k implies #[trigger] text[j] != '\n' by {
        assert(text[j] == line[j]);
        assert(is_digit_or_blank(line[j]));
    }
    assert(text[k] == '\n');
    lemma_line_break(text, k);
    assert(text.take(k) =~= line);
    let pre = Seq::<char>::empty().push('\n');
    assert(text.skip(k) =~= pre + grid_text(s.grid));
    lemma_words_space(Seq::<char>::empty(), '\n');
    lemma_grid_text_round_trip(pre, s.grid, h, w);
    assert(hn.len() == 9);
    assert(hn[0] == h && hn[1] == w);
    assert(words(line)[2] == decimal_digits(hn[2] as nat));
    assert(decimal_digits(0) =~= seq!['0']);
    assert(decimal_digits(1) =~= seq!['1']);
    assert(seq!['1'] != seq!['0']) by {
        assert(seq!['1'][0] == '1');
        assert(seq!['0'][0] == '0');
    }
    assert(next_player_of(words(line)[2]) == Some(s.next));
    assert(base(Player::O, w as nat) <= usize::MAX && base(Player::X, w as nat) <= usize::MAX);
    if s.computer1 is Some {
        assert(loaded_state(Player::O, hn) == s.computer1->0);
    }
    if s.computer2 is Some {
        assert(loaded_state(Player::X, hn) == s.computer2->0);
    }
}

/// A generator that was saved and taken up again gives the moves that it
/// would have given had the game never stopped.
pub proof fn lemma_resumed_moves(s: GameState, player: Player, n: nat)
    requires
        is_game(s),
        s.computer(player) is Some,
    ensures
        saved_game(save_text(s), s.computer1 is Some, s.computer2 is Some) is Some,
        saved_game(save_text(s), s.computer1 is Some, s.computer2 is Some)->0.computer(player)
            is Some,
        moves(
            saved_game(save_text(s), s.computer1 is Some, s.computer2 is Some)->0.computer(
                player,
            )->0,
            n,
        ) == moves(s.computer(player)->0, n),
{
    lemma_save_resume(s);
}

/// What a line of input asks for, as a mathematical value.
pub enum Request {
    /// Save the game to the file of this name.
    Save(Seq<char>),
    /// Place a stone at this row and column.
    Move(usize, usize),
    /// The line holds fewer than two words.
    Incomplete,
    /// A word that should be a number is none.
    Invalid,
}

/// What a line of input asks for.
#[derive(Debug)]
pub enum Input {
    /// Save the game to the file of this name.
    Save(String),
    /// Place a stone at this row and column.
    Move(usize, usize),
    /// The line holds fewer than two words: two numbers are needed.
    Incomplete,
    /// A word that should be a number is none.
    Invalid,
}

impl View for Input {
    type V = Request;

    /// The input as a mathematical value.
    open spec fn view(&self) -> Request {
        match self {
            Input::Save(name) => Request::Save(name@),
            Input::Move(h, w) => Request::Move(*h, *w),
            Input::Incomplete => Request::Incomplete,
            Input::Invalid => Request::Invalid,
        }
    }
}

/// What a line of input asks for. Only its first two words count. The word
/// `w` before the name of a file asks to save the game; two numbers name
/// the row and the column of a move.
pub open spec fn request_of(line: Seq<char>) -> Request {
    let ws = words(line);
    if ws.len() < 2 {
        Request::Incomplete
    } else if ws[0] == seq!['w'] {
        Request::Save(ws[1])
    } else if number_of(ws[0]) is None || number_of(ws[1]) is None {
        Request::Invalid
    } else {
        Request::Move(number_of(ws[0])->0, number_of(ws[1])->0)
    }
}

/// Reads what a line of input asks for: see `request_of`.
pub fn read_input(line: &str) -> (input: Input)
    ensures
        input@ == request_of(line@),
{
    let ws = split_words(&chars_of(line));
    if ws.len() < 2 {
        return Input::Incomplete;
    }
    assert(rows_of(ws)[0] == ws@[0]@ && rows_of(ws)[1] == ws@[1]@);
    if ws[0].len() == 1 && ws[0][0] == 'w' {
        assert(ws@[0]@ =~= seq!['w']);
        return Input::Save(string_of(&ws[1]));
    }
    assert(ws@[0]@ != seq!['w']) by {
        if ws@[0]@.len() == 1 {
            assert(seq!['w'][0] == 'w');
        }
    }
    let h = match parse_number(&ws[0]) {
        Some(h) => h,
        None => {
            return Input::Invalid;
        },
    };
    let w = match parse_number(&ws[1]) {
        Some(w) => w,
        None => {
            return Input::Invalid;
        },
    };
    Input::Move(h, w)
}

} // verus!
