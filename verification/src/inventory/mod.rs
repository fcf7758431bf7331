//! The player inventory: stacks, slots and the click and drag rules.
pub mod model;
pub mod input;
