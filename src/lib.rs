//! A generic ordered tree and a cursor ("focus") that navigates and grows it.
pub mod focus;
pub mod tree;
