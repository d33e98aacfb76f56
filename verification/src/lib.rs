//! A full-width minimax search engine for a four-by-four stacking board game.
//!
//! Each board cell holds a stack with at most one piece per size; a player
//! wins by showing their color on top of a full row, column, or diagonal.
//! The library provides the position model, the legal-move generator, the
//! static evaluator, a total order over scores, and the recursive
//! expand-and-back-up search tree.

pub mod engine;
pub mod eval;
pub mod game;
pub mod movegen;
pub mod score;

pub use engine::Node;
pub use engine::NodeState;
pub use game::Board;
pub use game::Color;
pub use game::GameMove;
pub use game::GameState;
pub use game::Stack;
pub use score::Score;
