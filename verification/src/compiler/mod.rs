pub mod compiler;
pub mod scanner;


