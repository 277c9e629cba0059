pub mod common;
pub mod fnv_hasher;
pub mod compiler;
pub mod gc;
pub mod object;
pub mod repl;
pub mod text;
pub mod vm;
