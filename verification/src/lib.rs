pub mod board;
pub mod move_generation;
pub mod text;
pub mod zobrist;
pub mod evaluation;
pub mod fen;
pub mod utils;
pub mod draw_table;
pub mod time_control;
pub mod transposition_table;
pub mod search;
pub mod uci;
pub mod engine;
pub mod mailbox;
