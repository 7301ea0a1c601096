//! A finite-automaton engine: it turns a nondeterministic automaton over an alphabet of
//! disjoint symbol intervals into a deterministic one by subset construction, scans input
//! with it, and emits branch-based stepping code that behaves exactly like the transition
//! matrix.
//!
//! Beside the engine stand two small models from the same code base: keyboard shortcut
//! rules with the registry that decides which commands a key action fires, and the header
//! elements that a source formatter groups.

pub mod alphabet;
pub mod matrix;
pub mod nfa;
pub mod closure;
pub mod dfa;
pub mod determinism;
pub mod scanner;
pub mod codegen;
pub mod export;
pub mod text;
pub mod shortcut;
pub mod header;
