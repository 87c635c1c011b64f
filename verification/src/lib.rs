//! Rules, engine and coaching texts of a Chinese chess coach: the engine decides, a
//! language model only explains.

pub mod xiangqi;
pub mod movegen;
pub mod sort;
pub mod engine;
pub mod text;
pub mod notation;
pub mod fen;
pub mod coach;
pub mod game;
pub mod settings;
