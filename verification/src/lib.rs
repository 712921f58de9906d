//! Delta debugging: a single reduction loop driven by swappable policies
//! (DDMin, WDD, HDD, Perses) over sets of atomic units and parse trees.
pub mod config;
pub mod policy;
pub mod ddmin;
pub mod wdd;
pub mod shape;
pub mod tree;
pub mod hdd;
pub mod perses;
pub mod builder;
pub mod render;
pub mod text;
pub mod flat_grammar;
pub mod mini_c;
