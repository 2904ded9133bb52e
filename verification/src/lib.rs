//! Validated console input for a personal record-keeping tool.
//!
//! The crate has two layers. The validated input reader obtains one line of
//! text per prompt, trims it, and either parses it into a numeric type or
//! hands it back as a string; malformed input is silently re-asked, and an
//! empty line is the designed "no answer" signal. The hierarchical option
//! navigator sits on top of the reader: it walks a labeled category tree one
//! level per prompt, lists the available choices on demand, and returns the
//! path of chosen keys.
//!
//! The console itself is modeled as data: a [`console::Console`] holds the
//! input lines still to be read and the chunks of text written so far, so
//! every decision the library makes is specified and verified against that
//! model. The host process owns the real standard input and output: it feeds
//! lines in and renders what was written, either through a scripted
//! `Console` or line by line through [`navigator::choose_step`] and the
//! parsers of [`numeric`].

pub mod console;
pub mod digits;
pub mod laws;
pub mod navigator;
pub mod numeric;
pub mod reader;
pub mod text;
pub mod tree;
