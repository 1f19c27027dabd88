//! Helpers, board rendering and protocol decisions for Bomberman bots that
//! play on a Bombahead game server.

pub mod board;
pub mod bot;
pub mod client;
pub mod danger;
pub mod enums;
pub mod helpers;
pub mod json;
pub mod models;
pub mod search;
pub mod text;
pub mod visualize;

pub use bot::Bot;
pub use enums::{Action, CellType};
pub use helpers::GameHelpers;
pub use models::{Bomb, Field, GameState, Player, Position};
pub use visualize::render_field;
