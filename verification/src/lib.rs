//! Verified probability and simulation engine for the Mino Dice board game.

pub mod dice;
pub mod trick;
pub mod win_table;
pub mod bag_draws;
pub mod patterns;
pub mod text;
pub mod controls;
pub mod round;
pub mod bidding;
pub mod simulation;
