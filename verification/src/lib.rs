//! Compile-time textual substitution of identifier-like tokens.
//!
//! A replacement table maps target strings to replacement strings. The
//! table is compiled into a single alternation pattern with boundary
//! delimiters and longest-target precedence; literal companion rules join
//! the pattern outside the delimiters; the substitution engine applies the
//! pattern to a text buffer and splices the replacements in. A companion
//! expander derives the literal rules that rewrite
//! `typeof <path-segment> <op>` comparisons for dotted-path targets.

pub mod expand;
pub mod matcher;
pub mod pattern;
pub mod plugin;
pub mod source_map_type;
pub mod splice;
