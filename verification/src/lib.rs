//! Small verified building blocks: a log-structured key-value store's
//! record format and index, a JSON lexer and parser, and a Brainfuck
//! bracket matcher and machine.

pub mod record;
pub mod keydir;
pub mod kvs;
pub mod simple_kv;
pub mod brainfuck;
pub mod lexer;
pub mod parser;
pub mod server;
pub mod json_laws;
