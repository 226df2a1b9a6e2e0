//! A verified execution engine for a stack-oriented array language.
//!
//! Programs arrive already parsed. The compiler lowers them to a flat
//! assembly, the optimizer fuses known idioms, and the stack machine runs the
//! assembly over rank-polymorphic arrays held in copy-on-write storage.
//!
//! From the leaves up: `cowslice`, `shape` and `value` hold arrays;
//! `scalar`, `pervasive` and `monadic` apply functions cell by cell;
//! `rows`, `arrayops`, `order`, `sorting`, `transpose` and `windows` are the
//! array functions; `primitive` is the catalog of built-ins; `assembly`,
//! `signature` and `compile` make programs; `semantics` says what a program
//! means and `vm` and `machine` run it; `optimize` fuses idioms, with
//! `fusion`, `pairs`, `columns` and `stream` for the fused instructions and
//! `equiv` for why the rewrites change nothing; `soundness`, `wellformed`
//! and `laws` state what holds of the whole; `show` prints values, `error`
//! puts failures in words, and `editor` and `pages` serve the code editor
//! and the pages in front of the engine.

pub mod arrayops;
pub mod assembly;
pub mod columns;
pub mod compile;
pub mod cowslice;
pub mod editor;
pub mod equiv;
pub mod error;
pub mod fusion;
pub mod laws;
pub mod machine;
pub mod monadic;
pub mod optimize;
pub mod order;
pub mod pages;
pub mod pairs;
pub mod pervasive;
pub mod primitive;
pub mod rows;
pub mod scalar;
pub mod semantics;
pub mod shape;
pub mod show;
pub mod signature;
pub mod sorting;
pub mod soundness;
pub mod stream;
pub mod transpose;
pub mod value;
pub mod vm;
pub mod wellformed;
pub mod windows;
