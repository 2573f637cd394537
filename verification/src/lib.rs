//! An index of nixpkgs versions and the store paths they built to: which
//! `/nix/store` path a package is at, how big it is, what it references and
//! what references it, and how to run it.
pub mod db;
pub mod index;
pub mod laws;
pub mod load;
pub mod order;
pub mod output;
pub mod pattern;
pub mod refusal;
pub mod rows;
pub mod run;
pub mod solve;
pub mod store;
pub mod text;
pub mod version;
