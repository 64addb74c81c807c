//! The logic of a language server for `ferron.conf` configuration files.
//!
//! - [`server`] is what the server remembers between requests, and how it answers.
//! - [`hover`], [`completion`], [`diagnostics`] and [`formatting`] make the answers.
//! - [`context`] finds the block that the cursor is in, and [`cursor`] the word.
//! - [`config`] holds parsed files, and [`directives`] what `ferron` tells of itself.
//! - [`ferron_dl`] decides how the `ferron` programs are obtained.
//! - [`text`], [`unicode`] and [`protocol`] are what the others are built on.

pub mod completion;
pub mod config;
pub mod context;
pub mod cursor;
pub mod diagnostics;
pub mod directives;
pub mod ferron_dl;
pub mod formatting;
pub mod hover;
pub mod protocol;
pub mod server;
pub mod text;
pub mod unicode;
