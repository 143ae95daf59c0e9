pub mod bitmask;
pub mod board;
pub mod card;
pub mod farm;
pub mod game;
pub mod laws;
pub mod random;
pub mod rules;
pub mod shapes;
pub mod skin;
pub mod text;
