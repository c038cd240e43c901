//! Typed source of truth for a Dao44 keyboard layout, with the checks that
//! keep it sound, and the decisions behind flashing the two halves.

pub mod text;
pub mod flash;
pub mod model;
pub mod layout;
pub mod registration;
