//! An interpreter for the Aheui esoteric programming language.
//!
//! Aheui programs are two-dimensional grids of Hangul syllables. Each
//! syllable decomposes into three jamo which select an operation, a cursor
//! movement, and a literal parameter. Execution threads a cursor through
//! the grid while operating on a family of value containers (28 stacks and
//! one queue); an operation that fails reverses the cursor's direction.
//!
//! The crate decodes source text into a grid ([`parse::OwnedCode`]),
//! executes it ([`vm::VM`] with [`engines::Interpreter`]), and optionally
//! accelerates straight-line regions with a tracing precompiler
//! ([`engines::AOT`]). The observable behaviour of a run is pinned down by
//! the specification-level step function in [`semantics`], which both
//! engines are proved to follow.

pub mod arith;
pub mod codec;
pub mod engines;
pub mod inst;
pub mod parse;
pub mod precompiler;
pub mod semantics;
pub mod storage;
pub mod text;
pub mod vm;
