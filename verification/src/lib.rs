//! Core engine of a 2D skeletal-animation editor.
//!
//! - [`model`]: bones, armatures, textures, animations, keyframes.
//! - [`hierarchy`]: the bone tree kept as a flat pre-order sequence, with
//!   creation, subtree moves, cycle-safe reparenting and subtree deletion.
//! - [`animation`]: sparse per-field keyframe data and its structural
//!   edits (merge, move, re-time), under strictly ascending frames.
//! - [`pose`]: resolving a full pose at any frame by interpolation.
//! - [`session`]: the editing session with its snapshot-based undo/redo.
//! - [`texture_import`]: decoding images into textures.
//! - [`laws`]: the global guarantees, written out and proved.

pub mod animation;
pub mod hierarchy;
pub mod laws;
pub mod model;
pub mod pose;
pub mod session;
pub mod texture_import;
