//! A snake game engine on a bordered 10x10 grid.
//!
//! The snake's body is not kept as a list: every cell of the grid holds a
//! countdown, and a global decay ages the tail out of the grid.

pub mod field;
pub mod snake;
pub mod game;

pub use field::Field;
pub use snake::Direction;
pub use snake::Snake;
pub use snake::START;
pub use game::Game;
pub use game::Outcome;
