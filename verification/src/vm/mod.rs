pub mod chunk;
pub mod depth;
pub mod heap;
pub mod interner;
pub mod shape;
pub mod vm;

pub use chunk::Chunk;
pub use interner::Interner;
pub use vm::VM;
