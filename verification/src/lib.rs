//! A toolchain for the Piet esoteric language: an interpreter for stack
//! programs, compilers from higher-level languages down to stack programs,
//! a search for short push sequences, and a layout of stack programs as
//! Piet colour grids.

pub mod advc;
pub mod integer;
pub mod io;
pub mod label_map;
pub mod mid_smpl;
pub mod optimize_stk;
pub mod piet_color;
pub mod piet_interpreter;
pub mod piet_stack;
pub mod text;
pub mod util;
