//! Keep a Changelog linting and scaffolding: a line-based Markdown
//! structure parser, a semantic-version parser with SemVer precedence,
//! calendar-date validation, the lint rules, and skeleton generation.

pub mod text;
pub mod semver;
pub mod date;
pub mod changelog;
pub mod validate;
pub mod generate;
pub mod git;
pub mod roundtrip;
