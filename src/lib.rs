//! A two-player, turn-based engine for grid games of the gomoku family:
//! a board of cells that hold one of two markers, and a turn state machine
//! that consults one decision source per marker.

pub mod game;
pub mod table;
