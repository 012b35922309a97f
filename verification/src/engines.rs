//! The execution engines: the plain interpreter, and the
//! trace-accelerated engine that consults a precompiled trace table
//! before falling back to single stepping.

pub mod aot;
pub mod interpreter;

pub use aot::AOT;
pub use interpreter::Interpreter;
