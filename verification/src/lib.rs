//! Morpion Solitaire: the game rules, the MSR record format, symmetry handling
//! and the byte-level framing of saves and exported pictures, with contracts.
pub mod cli;
pub mod game;
pub mod record;
pub mod render;
pub mod search;
pub mod text;
