//! Renders a binary image as a colorized, address-annotated hex dump.
//!
//! The crate is organized around three pieces: an annotation sweep
//! ([`sweep`]) that tracks which named address ranges are active as the
//! renderer walks forward through the address space, a line canvas
//! ([`hexprinter`]) that buffers one output line of byte cells and labels at
//! a time and flushes it in a fixed hex/ASCII/label format, and a driver
//! ([`app`]) that feeds content blocks through both.  Output is produced as
//! a sequence of styled text runs ([`style`]); writing those runs to a
//! terminal is left to the caller.

pub mod app;
pub mod blocks;
pub mod hexfmt;
pub mod hexprinter;
pub mod style;
pub mod sweep;
