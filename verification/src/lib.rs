//! Verified core of the H# wasm32 runtime: the bookkeeping and text logic
//! behind the `hsh_*` and `hweb_*` entry points, written over plain values.

pub mod bridge;
pub mod cstr;
pub mod arena;
pub mod array;
pub mod cbytes;
pub mod text;
pub mod number;
pub mod sort;
pub mod record;
