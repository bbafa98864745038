//! Plasma: a line-based quantum circuit language with a deterministic simulator core.
//!
//! A source text is cut into tokens ([`lexer`]) and lowered to a flat list of
//! operations ([`parser`], [`ir`]); [`grammar`] says which texts are programs and what
//! they mean. The executor ([`sim`], [`machine`]) runs a program against a quantum
//! backend ([`backend`]). Exact Clifford simulation is in [`stabilizer`], gate fusion in
//! [`fusion`], planning for an accelerator in [`device`]; [`amplitudes`] and [`chain`]
//! serve engines with numeric amplitudes, and [`engine`] chooses among engines.
//!
//! Numbers with a fractional part never enter this crate: angles are carried as source
//! literals, and amplitudes belong to the backends.
pub mod agreement;
pub mod amplitudes;
pub mod backend;
pub mod binding;
pub mod bytes;
pub mod chain;
pub mod clifford_laws;
pub mod control;
pub mod device;
pub mod device_laws;
pub mod diag;
pub mod effects;
pub mod ending;
pub mod engine;
pub mod fused_exec;
pub mod fused_machine;
pub mod fusion;
pub mod fusion_laws;
pub mod grammar;
pub mod ir;
pub mod lexer;
pub mod machine;
pub mod meaning;
pub mod outcomes;
pub mod parser;
pub mod pauli;
pub mod programs;
pub mod reports;
pub mod rng;
pub mod safety;
pub mod sampling;
pub mod sim;
pub mod spelling;
pub mod stabilizer;
pub mod tableau;
pub mod tableau_backend;
pub mod tokens;
pub mod vectors;
pub mod visits;
pub mod wellformed;
pub mod words;
