//! Core of a GPU-driven chess evaluator: a bump allocator over fixed-size
//! device slabs, a layered search tree that plans compute dispatches and
//! folds evaluations back up, and the board/score encodings shared with the
//! device kernels.
//!
//! Everything here is host-side bookkeeping and encoding logic; submitting
//! work to a device and awaiting read-backs is left to a thin driver around
//! this crate.

pub mod board;
pub mod chess;
pub mod codec;
pub mod gpu;
pub mod gpu_tree;
pub mod buffers;
pub mod misc;
pub mod piece;
pub mod state;
pub mod uci;
