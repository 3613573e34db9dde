//! A falling-block puzzle engine and a beam-search player built on it.

pub mod dag;
pub mod eval;
pub mod game;
pub mod game_state;
pub mod input;
pub mod matrix;
pub mod piece;
pub mod places;
pub mod player;
pub mod queue;
pub mod search;
pub mod shortest_path;
pub mod standard_rules;
pub mod state;
pub mod visited;

pub use dag::Alloc;
pub use eval::evaluate;
pub use game_state::GameState;
pub use input::Dir;
pub use input::Input;
pub use input::Rot;
pub use input::Turn;
pub use matrix::Mat;
pub use matrix::MatBuf;
pub use piece::Cells;
pub use piece::Pos;
pub use places::places;
pub use shortest_path::reach;
pub use places::Places;
pub use queue::Queue;
pub use search::bot;
pub use state::State;
