//! A verified core for the game of NoGo: the board with its liberty search,
//! the deterministic move generator of the computer players, and the text
//! form in which a game is suspended and resumed.

pub mod computer;
pub mod game_board;
pub mod group;
pub mod liberty;
pub mod nogo;
pub mod session;
pub mod text;
