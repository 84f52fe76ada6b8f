//! Circuit synthesis core: one circuit description, several interpreters.
//!
//! A circuit is written once, as a list of instructions over registers
//! ([`driver::Circuit`]), and can then be synthesized on any
//! [`driver::Driver`]: the emulators of [`emulator`], which give wires their
//! values or nothing at all; the [`simulator::Simulator`], which counts and
//! checks; and the evaluator of [`sy`], which computes the wiring
//! polynomial at a fixed point through a table of virtual wires that count
//! the references to them. What that polynomial is, is said in [`trace`],
//! and [`synthesis::eval`] is proved to compute it. [`staging`] splits a
//! witness into stages whose wires are reserved before any value is known.
//!
//! The arithmetic of the field is that of `pasta_curves`, behind the
//! functions of [`field`] that state what each operation is.

pub mod coeff;
pub mod common;
pub mod comparison;
pub mod driver;
pub mod emulator;
pub mod encoder;
pub mod error;
pub mod field;
pub mod fuse;
pub mod internal_circuits;
pub mod maybe_cast;
pub mod mesh;
pub mod nested;
pub mod poly;
pub mod primitives;
pub mod resolution;
pub mod simulator;
pub mod staging;
pub mod step;
pub mod sy;
pub mod synthesis;
pub mod trace;
pub mod wellformed;
pub mod wiring;
