//! Reconnaissance blind chess: board representation, move rules,
//! information sets and a small search engine.

pub mod game;
pub mod text;
pub mod obs;
pub mod moves;
pub mod bitboard;
pub mod fast;
pub mod eval;
pub mod notation;
pub mod infoset;
pub mod html;
pub mod history;
pub mod api;
pub mod rbc_xf;
pub mod derive_wrapper;
pub mod cfr;
pub mod stats;
pub mod interact;
