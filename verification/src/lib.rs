pub mod binary64;
pub mod book;
pub mod clock;
pub mod config;
pub mod decimal;
pub mod depth;
pub mod feed;
pub mod impact;
pub mod json;
pub mod laws;
pub mod levels;
pub mod micro;
pub mod natural;
pub mod picker;
pub mod rounding;
pub mod state;
pub mod sync;
pub mod text;
pub mod ticks;
pub mod trades;
