pub mod array;
pub mod cell;
pub mod change_resolution;
pub mod compact;
pub mod error;
pub mod grid;
pub mod index;
pub mod list;
pub mod localij;
pub mod resolution;
pub mod string;
