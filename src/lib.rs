mod board;
pub mod laws;
mod model;
mod placement;
mod tile;

pub use board::{Board, Coordinate};
pub use model::BoardView;
pub use placement::mine_layout;
pub use tile::Tile;
