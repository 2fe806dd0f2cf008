//! C-style signatures of the functions that a binary exports.
//!
//! The debugging information of a binary says how each function was
//! declared; its symbol list says under which names the binary exports code.
//! This library reads both, builds the signature of every exported function
//! that was declared with a prototype, and joins the two by address, so that
//! each exported name is shown with the signature of its function.
//!
//! - [`tree`] holds the entries of a compilation unit, [`reader`] reads them
//!   from the debug sections and [`container`] gets the sections from the
//!   binary.
//! - [`types`] follows a type reference to the end of its chain,
//!   [`signature`] declares parameters and functions, and [`dwarf`] walks
//!   the units for the table of signatures.
//! - [`objfile`] reads the symbol list, and [`correlate`] joins it with the
//!   signatures.
//! - [`table`] and [`text`] hold the ordered table and the text functions
//!   that the rest is built on; [`fault`] says what can go wrong.

pub mod container;
pub mod correlate;
pub mod dwarf;
pub mod fault;
pub mod objfile;
pub mod reader;
pub mod signature;
pub mod table;
pub mod text;
pub mod tree;
pub mod types;
