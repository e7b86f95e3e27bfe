//! A chess move-generation and position-validation engine built on 64-bit
//! bitboards with precomputed attack tables for sliding pieces.

pub mod bitboard;
pub mod chess_piece;
pub mod chess_player;
pub mod magic_bitboards;
pub mod position;
