//! Procedural generation of a rectangular world: an elevation grid, a sea
//! level calibrated to a wanted share of water, and rivers that drain the
//! inland lakes to the open ocean.
pub mod basics;
pub mod helpers;
pub mod render;
pub mod seed;
pub mod worldgen;
