pub mod draw_helper;
pub mod entities;
pub mod game;
pub mod scoreboard;
pub mod text;

mod random;
