//! What holds of the library as a whole.

pub mod arithmetic;
pub mod book;
pub mod decimals;
pub mod fills;
pub mod history;
pub mod messages;
pub mod numbers;
pub mod symbols;
pub mod sync;
