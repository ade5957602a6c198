//! A verified compiler from an nginx-style configuration language to a
//! listener-indexed routing table, together with the request-time match
//! engine that consults it.

pub mod ast;
pub mod block_names;
pub mod ir;
pub mod lexer;
pub mod matcher;
pub mod parser;
pub mod render;
pub mod resolve;
pub mod router;
pub mod text;
pub mod transform;
