//! Core engine for labrs reactive notebooks.

use vstd::prelude::*;

pub mod diagnose;
pub mod notebook;
pub mod source_util;
pub mod text;
pub mod graph;
pub mod deps;
pub mod graph_laws;
pub mod edit;
pub mod json;
pub mod session;
pub mod ident;
pub mod session_edit;
pub mod session_run;
pub mod session_laws;
pub mod codegen;
pub mod runner;
pub mod protocol;
pub mod fmt;
pub mod parse;
pub mod cli;
pub mod session_view;
pub mod syntax;
pub mod source_laws;
pub mod browse;
pub mod lsp_frame;
pub mod run_laws;
