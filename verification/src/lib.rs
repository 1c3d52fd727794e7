//! Ownership lookup over CODEOWNERS-style rule files.
//!
//! A rule file is an ordered list of lines, each holding a glob-like pattern
//! followed by the owners of the paths it describes. A ruleset is built from
//! the text of such a file and answers, for one path at a time, which rule
//! applies: the last rule in the file whose pattern matches.
//!
//! - `text`: strings as sequences of characters; fields, words, positions.
//! - `pattern`: from a pattern to the source of its regular expression.
//! - `engine`: what is taken on trust from the regular expression crate.
//! - `rule`: one line of a rule file, read and compiled.
//! - `root`: the root of the repository and the normal form of a path.
//! - `ruleset`: a whole rule file and the resolution of a path.

pub mod engine;
pub mod pattern;
pub mod root;
pub mod rule;
pub mod ruleset;
pub mod text;
