//! A single-player Battleship board engine: a rectangular grid, a fixed fleet
//! placed on it at random, and shot resolution with running statistics.

mod direction;
mod engine;
mod game_status;
mod position;
mod ship;
mod ship_status;

pub use direction::Direction;
pub use engine::{BattleshipEngine, DEFAULT_DIMENSION, FLEET_LEN, MAX_DIMENSION, MIN_DIMENSION, MISS_CODE, OPEN_CODE};
pub use game_status::GameStatus;
pub use position::Position;
pub use ship::Ship;
pub use ship_status::ShipStatus;
