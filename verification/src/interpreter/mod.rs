pub mod builtins;
pub mod compiler;
pub mod env;
pub mod evaluator;
pub mod model;

pub use compiler::{compile, compile_with_prelude, Program};
pub use env::Env;
pub use evaluator::{eval, eval_instructions, EmptyKeywordResolver, KeywordResolver};
pub use model::{Builtin, Instruction, Value};
