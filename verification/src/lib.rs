use vstd::prelude::*;

pub mod text;
pub mod ast;
pub mod llm_loop;
pub mod llm_eval;
pub mod net_steam;
pub mod net;
pub mod mutator;
pub mod lsp;
pub mod profile;
pub mod module;
pub mod parser;
pub mod net_stun;
pub mod play;
pub mod replay;
pub mod printer;
pub mod expr_printer;
pub mod stmt_printer;
pub mod loader;
pub mod mcp;
pub mod perf_snapshot;
