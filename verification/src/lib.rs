//! A chess position engine: an 8x8 board of tagged pieces, per-piece legal
//! move generation with check detection, and conversion to and from the
//! standard text interchange notation (FEN).

pub mod board;
pub mod color;
pub mod error;
pub mod fen;
pub mod model;
pub mod piece;
pub mod square;
mod strutil;
