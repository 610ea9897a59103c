//! What the library is for, in plain arithmetic: laws that relate what goes in to what comes out
//! without following the functions that the contracts are written with.
pub mod blocks;
pub mod sent;
pub mod light;
pub mod ticks;
pub mod game;
pub mod connection;
pub mod entering;
pub mod numbers;
pub mod layout;
pub mod packed;
