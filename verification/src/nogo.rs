//! The two players, the error kinds, and the configuration of a game.

use vstd::prelude::*;
use crate::text::{chars_of, number_of, parse_number, trim, trimmed};

verus! {

/// The two seats of a game. `O` moves first.
#[derive(Debug, Clone, Copy, PartialEq, Eq, Structural)]
pub enum Player {
    O,
    X,
}

impl Player {
    /// The other seat.
    pub open spec fn opponent(self) -> Player {
        match self {
            Player::O => Player::X,
            Player::X => Player::O,
        }
    }

    /// The character that marks a stone of this player on the board.
    pub open spec fn stone(self) -> char {
        match self {
            Player::O => 'O',
            Player::X => 'X',
        }
    }

    /// The stone character of this player.
    pub fn symbol(&self) -> (c: char)
        ensures
            c == self.stone(),
    {
        match *self {
            Player::O => 'O',
            Player::X => 'X',
        }
    }

    /// The other player.
    pub fn other(&self) -> (p: Player)
        ensures
            p == self.opponent(),
    {
        match *self {
            Player::O => Player::X,
            Player::X => Player::O,
        }
    }
}

/// What can go wrong in a game, from its arguments to a move on the board.
#[derive(Debug, Clone, Copy, PartialEq, Eq, Structural)]
pub enum NogoError {
    /// The wrong number of arguments was given.
    NumArg,
    /// A player type is neither human nor computer.
    IncorrectType,
    /// A board dimension lies outside the accepted range.
    InvalidDimension,
    /// The saved game could not be opened.
    FailedToOpen,
    /// The saved game is malformed or contradicts itself.
    CorruptFile,
    /// A move names a cell outside the board.
    InvalidPosition,
    /// A move names a cell that already holds a stone.
    PositionTaken,
    /// A number among the arguments could not be read.
    Parse,
    /// Reading or writing failed.
    Io,
}

impl NogoError {
    /// The error that is reported when a game ends on this one: a number
    /// that could not be read counts as a bad dimension, and a failure to
    /// read or write as a file that could not be opened.
    pub open spec fn reported(self) -> NogoError {
        match self {
            NogoError::Parse => NogoError::InvalidDimension,
            NogoError::Io => NogoError::FailedToOpen,
            e => e,
        }
    }

    /// The exit code of a game that ends on this error. The two errors of a
    /// move end no game, and have none.
    pub open spec fn code(self) -> Option<i32> {
        match self {
            NogoError::NumArg => Some(1i32),
            NogoError::IncorrectType => Some(2i32),
            NogoError::InvalidDimension => Some(3i32),
            NogoError::FailedToOpen => Some(4i32),
            NogoError::CorruptFile => Some(5i32),
            NogoError::Parse => Some(3i32),
            NogoError::Io => Some(4i32),
            NogoError::InvalidPosition => None,
            NogoError::PositionTaken => None,
        }
    }

    /// What the error says, as contracts speak of it.
    pub open spec fn text(self) -> Seq<char> {
        match self {
            NogoError::NumArg => "Usage: nogors p1type p2type [height width | filename]"@,
            NogoError::IncorrectType => "Invalid type"@,
            NogoError::InvalidDimension => "Invalid board dimension"@,
            NogoError::FailedToOpen => "Unable to open file"@,
            NogoError::CorruptFile => "Incorrect file contents"@,
            NogoError::InvalidPosition => "Invalid position"@,
            NogoError::PositionTaken => "Position already taken"@,
            NogoError::Parse => "Problem parsing"@,
            NogoError::Io => "Io failed"@,
        }
    }

    /// The error that is reported when a game ends on this one.
    pub fn reported_as(&self) -> (e: NogoError)
        ensures
            e == self.reported(),
    {
        match *self {
            NogoError::Parse => NogoError::InvalidDimension,
            NogoError::Io => NogoError::FailedToOpen,
            e => e,
        }
    }

    /// The exit code of a game that ends on this error.
    pub fn exit_code(&self) -> (c: Option<i32>)
        ensures
            c == self.code(),
            self.reported().code() == self.code(),
    {
        match *self {
            NogoError::NumArg => Some(1),
            NogoError::IncorrectType => Some(2),
            NogoError::InvalidDimension => Some(3),
            NogoError::FailedToOpen => Some(4),
            NogoError::CorruptFile => Some(5),
            NogoError::Parse => Some(3),
            NogoError::Io => Some(4),
            NogoError::InvalidPosition => None,
            NogoError::PositionTaken => None,
        }
    }

    /// What the error says.
    pub fn message(&self) -> (m: &'static str)
        ensures
            m@ == self.text(),
    {
        match *self {
            NogoError::NumArg => "Usage: nogors p1type p2type [height width | filename]",
            NogoError::IncorrectType => "Invalid type",
            NogoError::InvalidDimension => "Invalid board dimension",
            NogoError::FailedToOpen => "Unable to open file",
            NogoError::CorruptFile => "Incorrect file contents",
            NogoError::InvalidPosition => "Invalid position",
            NogoError::PositionTaken => "Position already taken",
            NogoError::Parse => "Problem parsing",
            NogoError::Io => "Io failed",
        }
    }
}

/// The type of a player who moves by hand.
pub const HUMAN: char = 'h';

/// The type of a player whose moves are generated.
pub const COMPUTER: char = 'c';

/// A configuration as a mathematical value.
pub struct Config {
    /// The name of the file to read the game from or to save it to.
    pub filename: Seq<char>,
    /// Whether the game is to be read from the file.
    pub is_file: bool,
    /// Whether the game is waiting to be saved.
    pub is_save: bool,
    /// The type of player `O`.
    pub player1_type: char,
    /// The type of player `X`.
    pub player2_type: char,
    /// The height of the board; zero where the game is read from a file.
    pub height: usize,
    /// The width of the board; zero where the game is read from a file.
    pub width: usize,
}

/// The type of player that an argument names.
pub open spec fn player_type_of(word: Seq<char>) -> Option<char> {
    if word == seq![HUMAN] {
        Some(HUMAN)
    } else if word == seq![COMPUTER] {
        Some(COMPUTER)
    } else {
        None
    }
}

/// The configuration that the arguments of a program give. The first is
/// the name of the program. Then come the types of the two players, and
/// either the name of a saved game or the height and the width of a new
/// board.
///
/// The checks come in this order: too few arguments; a width, then a
/// height, that is no number; too many arguments; a type of the first
/// player, then of the second, that is neither human nor computer.
pub open spec fn configured(args: Seq<Seq<char>>) -> Result<Config, NogoError> {
    if args.len() < 4 {
        Err(NogoError::NumArg)
    } else {
        let is_file = args.len() == 4;
        let width = if is_file {
            Some(0usize)
        } else {
            number_of(args[4])
        };
        let height = if is_file {
            Some(0usize)
        } else {
            number_of(trimmed(args[3]))
        };
        if width is None || height is None {
            Err(NogoError::Parse)
        } else if args.len() > 5 {
            Err(NogoError::NumArg)
        } else if player_type_of(args[1]) is None || player_type_of(args[2]) is None {
            Err(NogoError::IncorrectType)
        } else {
            Ok(
                Config {
                    filename: args[3],
                    is_file,
                    is_save: false,
                    player1_type: player_type_of(args[1])->0,
                    player2_type: player_type_of(args[2])->0,
                    height: height->0,
                    width: width->0,
                },
            )
        }
    }
}

/// What a vector of strings stands for: the sequence of their characters.
pub open spec fn texts_of(v: Vec<String>) -> Seq<Seq<char>> {
    Seq::new(v@.len(), |i: int| v@[i]@)
}

/// Reads the type of a player from an argument.
fn read_player_type(word: &str) -> (t: Option<char>)
    ensures
        t == player_type_of(word@),
{
    let w = chars_of(word);
    if w.len() == 1 && w[0] == HUMAN {
        assert(w@ =~= seq![HUMAN]);
        Some(HUMAN)
    } else if w.len() == 1 && w[0] == COMPUTER {
        assert(w@ =~= seq![COMPUTER]);
        assert(seq![COMPUTER][0] != seq![HUMAN][0]);
        Some(COMPUTER)
    } else {
        proof {
            if w@.len() == 1 {
                assert(seq![HUMAN][0] == HUMAN);
                assert(seq![COMPUTER][0] == COMPUTER);
            }
        }
        None
    }
}

/// Holds what a game was started with: the type of each player, the
/// dimensions of the board, and the file that the game is read from or
/// saved to.
#[derive(Debug)]
pub struct Nogo {
    filename: String,
    is_file: bool,
    is_save: bool,
    player1_type: char,
    player2_type: char,
    height: usize,
    width: usize,
}

impl View for Nogo {
    type V = Config;

    /// The configuration as a mathematical value.
    closed spec fn view(&self) -> Config {
        Config {
            filename: self.filename@,
            is_file: self.is_file,
            is_save: self.is_save,
            player1_type: self.player1_type,
            player2_type: self.player2_type,
            height: self.height,
            width: self.width,
        }
    }
}

impl Nogo {
    /// Makes the configuration of a game from the arguments of a program:
    /// see `configured`.
    pub fn new(args: Vec<String>) -> (res: Result<Nogo, NogoError>)
        ensures
            match configured(texts_of(args)) {
                Ok(c) => res is Ok && res->Ok_0@ == c,
                Err(e) => res is Err && res->Err_0 == e,
            },
    {
        let ghost a = texts_of(args);
        if args.len() < 4 {
            return Err(NogoError::NumArg);
        }
        assert(a[1] == args@[1]@ && a[2] == args@[2]@ && a[3] == args@[3]@);
        let is_file = args.len() == 4;
        let width: usize = if is_file {
            0
        } else {
            assert(a[4] == args@[4]@);
            match parse_number(&chars_of(args[4].as_str())) {
                Some(w) => w,
                None => {
                    return Err(NogoError::Parse);
                },
            }
        };
        let height: usize = if is_file {
            0
        } else {
            match parse_number(&trim(&chars_of(args[3].as_str()))) {
                Some(h) => h,
                None => {
                    return Err(NogoError::Parse);
                },
            }
        };
        if args.len() > 5 {
            return Err(NogoError::NumArg);
        }
        let player1_type = match read_player_type(args[1].as_str()) {
            Some(t) => t,
            None => {
                return Err(NogoError::IncorrectType);
            },
        };
        let player2_type = match read_player_type(args[2].as_str()) {
            Some(t) => t,
            None => {
                return Err(NogoError::IncorrectType);
            },
        };
        Ok(
            Nogo {
                filename: args[3].clone(),
                is_file,
                is_save: false,
                player1_type,
                player2_type,
                height,
                width,
            },
        )
    }

    /// What the accessors say of the configuration as a value.
    pub proof fn lemma_view(&self)
        ensures
            self.type_of(Player::O) == self@.player1_type,
            self.type_of(Player::X) == self@.player2_type,
            self.rows() == self@.height,
            self.cols() == self@.width,
            self.file() == self@.filename,
            self.from_file() == self@.is_file,
            self.saving() == self@.is_save,
    {
    }

    /// The name of the file that the game is read from or saved to.
    pub fn get_filename(&self) -> (name: &String)
        ensures
            name@ == self.file(),
    {
        &self.filename
    }

    /// Whether the game is to be read from the file.
    pub fn is_file(&self) -> (b: bool)
        ensures
            b == self.from_file(),
    {
        self.is_file
    }

    /// Whether the game is waiting to be saved.
    pub fn is_save(&self) -> (b: bool)
        ensures
            b == self.saving(),
    {
        self.is_save
    }

    /// Notes that the game is to be saved to the file of the given name.
    pub fn request_save(&mut self, filename: String)
        ensures
            final(self)@ == (Config { filename: filename@, is_save: true, ..old(self)@ }),
    {
        self.filename = filename;
        self.is_save = true;
    }

    /// Notes that the game was saved.
    pub fn save_done(&mut self)
        ensures
            final(self)@ == (Config { is_save: false, ..old(self)@ }),
    {
        self.is_save = false;
    }
}

impl Nogo {
    /// The type of the player in the given seat, as contracts speak of it.
    /// Player `O` is the first player, player `X` the second.
    pub closed spec fn type_of(&self, player: Player) -> char {
        match player {
            Player::O => self.player1_type,
            Player::X => self.player2_type,
        }
    }

    /// Whether the moves of the given player are generated: whether the
    /// player is anything but human.
    pub open spec fn is_generated(&self, player: Player) -> bool {
        self.type_of(player) != HUMAN
    }

    /// The height that the game was configured with, as contracts speak of it.
    pub closed spec fn rows(&self) -> nat {
        self.height as nat
    }

    /// The width that the game was configured with, as contracts speak of it.
    pub closed spec fn cols(&self) -> nat {
        self.width as nat
    }

    /// The name of the file, as contracts speak of it.
    pub closed spec fn file(&self) -> Seq<char> {
        self.filename@
    }

    /// Whether the game is to be read from the file.
    pub closed spec fn from_file(&self) -> bool {
        self.is_file
    }

    /// Whether the game is waiting to be saved to the file.
    pub closed spec fn saving(&self) -> bool {
        self.is_save
    }

    /// A new game between players of the given types on a board of the
    /// given dimensions, with no file to read or to save to.
    pub fn with_players(player1_type: char, player2_type: char, height: usize, width: usize) -> (nogo:
        Nogo)
        ensures
            nogo.type_of(Player::O) == player1_type,
            nogo.type_of(Player::X) == player2_type,
            nogo.rows() == height,
            nogo.cols() == width,
            nogo.file() == Seq::<char>::empty(),
            !nogo.from_file(),
            !nogo.saving(),
    {
        Nogo {
            filename: String::new(),
            is_file: false,
            is_save: false,
            player1_type,
            player2_type,
            height,
            width,
        }
    }

    /// This configuration with the dimensions of the board replaced.
    pub closed spec fn resized(self, height: usize, width: usize) -> Nogo {
        Nogo { height, width, ..self }
    }

    /// What replacing the dimensions changes, and what it keeps.
    pub proof fn lemma_resized(self, height: usize, width: usize)
        ensures
            self.resized(height, width).rows() == height,
            self.resized(height, width).cols() == width,
            self.resized(height, width).type_of(Player::O) == self.type_of(Player::O),
            self.resized(height, width).type_of(Player::X) == self.type_of(Player::X),
            self.resized(height, width).file() == self.file(),
            self.resized(height, width).from_file() == self.from_file(),
            self.resized(height, width).saving() == self.saving(),
    {
    }

    /// Replaces the dimensions of the board, as a saved game gives them.
    pub fn set_dimensions(&mut self, height: usize, width: usize)
        ensures
            *final(self) == old(self).resized(height, width),
    {
        self.height = height;
        self.width = width;
    }

    /// The type of the first player, who plays `O`.
    pub fn get_p1type(&self) -> (t: char)
        ensures
            t == self.type_of(Player::O),
    {
        self.player1_type
    }

    /// The type of the second player, who plays `X`.
    pub fn get_p2type(&self) -> (t: char)
        ensures
            t == self.type_of(Player::X),
    {
        self.player2_type
    }

    /// The configured height of the board.
    pub fn get_height(&self) -> (h: usize)
        ensures
            h == self.rows(),
    {
        self.height
    }

    /// The configured width of the board.
    pub fn get_width(&self) -> (w: usize)
        ensures
            w == self.cols(),
    {
        self.width
    }

    /// Changes the current player to the next player.
    pub fn change_player(current_player: &mut Player)
        ensures
            *final(current_player) == old(current_player).opponent(),
    {
        *current_player = match *current_player {
            Player::O => Player::X,
            Player::X => Player::O,
        }
    }
}

} // verus!
