//! A glob expression library: parses glob patterns into a token tree,
//! analyzes the tree (variance, boundedness, invariant prefix), and walks
//! directory trees yielding entries whose paths match the pattern.

pub mod case;
pub mod component;
pub mod encode;
pub mod glob;
pub mod parse;
pub mod partition;
pub mod text;
pub mod token;
pub mod variance;
pub mod walk;
