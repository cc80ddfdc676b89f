//! A compact bit-packed array of small fixed-width elements, stored densely in
//! machine words, together with the cell state and grid types built on it.

pub mod bits;
pub mod bitsfield;
pub mod layout;
pub mod state;
pub mod universe;
pub mod word;

pub use bitsfield::{BitFieldCompatible, BitsField, BitsFieldError};
pub use state::State;
pub use universe::Universe;
pub use word::BitFieldRepresentation;
