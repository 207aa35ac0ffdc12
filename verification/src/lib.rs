//! A tabular reinforcement-learning engine for grid mazes.
//!
//! A [`Board`] holds a rectangular maze with a start cell, a goal cell and a
//! set of impassable cells, together with one value estimate for every legal
//! move of every cell. Training walks the maze under an epsilon-greedy policy
//! and moves the estimates toward the discounted returns that were observed.
//!
//! Every quantity that is a fraction in the mathematics (rewards, returns,
//! value estimates and the three rates) is held in fixed point, as a count of
//! hundred-thousandths: see [`fixed`].

pub mod action;
pub mod board;
pub mod bounds;
pub mod chance;
pub mod fixed;
pub mod learning;
pub mod maze;
pub mod model;
pub mod render;
pub mod state;
pub mod walk;

pub use action::Action;
pub use fixed::ONE;
pub use board::Board;
pub use state::{index_of, max_index, State};
