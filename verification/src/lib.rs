//! Glob-style wildcard matching, verified.
//!
//! A pattern is a finite sequence of symbols in which two values are
//! reserved: a multi-symbol wildcard (`STAR`, written `*`) that matches zero
//! or more arbitrary text symbols, and a single-symbol wildcard (`QMARK`,
//! written `?`) that matches exactly one. Every other symbol is a literal
//! compared by exact equality. Wildcard values occurring in the text are
//! ordinary literals.
//!
//! The executable matcher is a single forward pass that remembers exactly one
//! fallback alignment at a time; it is proved equivalent to the recursive
//! mathematical definition [`model::wild_matches`].

pub mod laws;
pub mod matcher;
pub mod model;

pub use matcher::fast_wild_compare;
pub use matcher::fast_wild_compare_ascii;
pub use matcher::fast_wild_compare_utf8;
pub use matcher::Symbol;
