//! Cleaning of column names and the frame operations built on it.

pub mod text;
pub mod unicode;
pub mod names;
pub mod name_laws;
pub mod frame;
pub mod schema;
pub mod binding;
pub mod frame_laws;
