pub mod chunk;
pub mod elide;
pub mod substitute;
pub mod walker;
