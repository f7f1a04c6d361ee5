pub mod countdown;
pub mod engine;
pub mod tiktaktoe;
