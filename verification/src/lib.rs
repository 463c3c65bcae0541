pub mod board;
pub mod location;
