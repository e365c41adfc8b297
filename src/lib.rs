//! The core of a live process monitor.
//!
//! `process` turns a flat enumeration of the operating system's processes
//! into a forest of records linked under their parents; `view` projects that
//! forest into a sorted, filtered table or an indented tree; `pipeline` holds
//! the one-slot hand-off between the polling task and the display. `arith`
//! and `chars` are small standalone routines on integers and characters.

pub mod arith;
pub mod chars;
pub mod pipeline;
pub mod process;
pub mod view;
