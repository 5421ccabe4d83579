//! A printable resume whose settings and minigame live in the link that asks for it.
pub mod board;
mod chance;
pub mod link;
pub mod localization;
pub mod minigame;
pub mod score;
pub mod state;
