//! A small interactive shell: a stateful lexer for shell command lines, a
//! recursive-descent parser that builds an AST of programs, pipelines,
//! logical chains and subshells, and the decision logic that drives the
//! execution of that AST, with the builtins' and the prompt loop's
//! decisions.  Besides computing, the library only asks the system for the
//! account and device names and whether a path names a file; process
//! spawning, terminals and file contents are handled by the program around it.

pub mod text;
pub mod prompt;
pub mod lexer;
pub mod executor;
pub mod parser;
pub mod builtins;
pub mod repl;
pub mod frontend;
pub mod fscheck;
