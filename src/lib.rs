//! Resolution of loosely typed path fragments into existing files, and a
//! small seeded generator used to shuffle the resulting list.
pub mod expander;
pub mod fs_view;
pub mod path_names;
pub mod rng;
