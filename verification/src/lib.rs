//! Coordination of several cores that fill one shared matrix, section by section.

pub mod console;
pub mod matrix;
pub mod shared_matrix;
