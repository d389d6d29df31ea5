//! The stages that the library brings along.

pub mod number;
pub mod stop_word;
