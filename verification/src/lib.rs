//! Core runtime substrate of an Emacs-Lisp-style interpreter:
//! a tagged-value object model with a tracing garbage collector,
//! and a B-tree-structured text metric index that translates between
//! byte and character coordinates of an edited buffer.

pub mod metric;
pub mod tagged;
pub mod arena;
pub mod gc;
pub mod env;
pub mod display;
