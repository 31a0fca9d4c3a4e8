//! Levels as resident, independently placed instances.
pub mod manager;
pub mod scan;
