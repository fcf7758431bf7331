//! Small reusable game plugins.
pub mod animation;
