//! Random world-map generator.
//!
//! A rectangular board of terrain cells is generated from a seeded random
//! source at one of three resolutions:
//!
//! - Low: every cell is classified independently from one random altitude.
//! - Middle: mountains are carved by altitude diffusion and towns are placed
//!   on plains.
//! - High: additionally, paths connecting nearby towns are routed with a
//!   weighted shortest-path search.
//!
//! The board exposes, for every coordinate, a terrain kind and an altitude in
//! `0..=99`.

pub mod board;
pub mod error;
pub mod gen;
pub mod land;
pub mod large_gen;
pub mod middle_gen;
mod rng;
pub mod slope;
mod sums;
mod towns;

pub use crate::board::Board;
pub use crate::gen::RandomBoardGen;
pub use crate::land::LandKind;
