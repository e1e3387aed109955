//! A small ahead-of-time compiler for a Lisp-like expression language,
//! targeting a 64-bit register machine. The code generator walks an
//! abstract syntax tree, allocates registers, keeps the stack 16-byte
//! aligned around every call into the runtime support library, and
//! appends to an instruction stream. The lexer and parser that produce
//! the tree, and the writer that packages the stream into an assembly
//! file, are external collaborators.

pub mod ast;
pub mod binding;
pub mod compiler;
pub mod instr;
pub mod reg;
pub mod validity;

pub use ast::Expr;
pub use ast::LambdaExpr;
pub use ast::LetExpr;
pub use ast::Node;
pub use compiler::Compiler;
pub use instr::Instr;
pub use instr::RuntimeFn;
pub use reg::Reg;
pub use validity::CompileError;
