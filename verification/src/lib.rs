use vstd::prelude::*;

pub mod grid;
pub mod components;
pub mod ball;
pub mod ball_laws;
pub mod text;
pub mod config;
pub mod config_laws;
pub mod levels;
pub mod paint;
pub mod tutorial;
pub mod game;
pub mod menu;
pub mod explosion;
pub mod rain;

verus! {
}
