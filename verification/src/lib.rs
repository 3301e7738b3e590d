//! Reports what happened to the files of a tree between two logs that list them by size, hash and
//! path: which were removed, created, copied, moved or modified.
pub mod account;
pub mod color;
pub mod cursor;
pub mod effects;
pub mod event;
pub mod grammar;
pub mod hash;
pub mod laws;
pub mod line;
pub mod maps;
pub mod matching;
pub mod meaning;
pub mod model;
pub mod node;
pub mod order;
pub mod promises;
pub mod report;
pub mod rkd;
pub mod sort;
pub mod text;
pub mod timer;
pub mod trace;
pub mod tree;
