//! Verified core of a language server for the Generals: Zero Hour INI format.

pub mod action_laws;
pub mod actions;
pub mod analyzer;
pub mod ast;
pub mod big;
pub mod cachefile;
pub mod check_laws;
pub mod checks;
pub mod completion;
pub mod completion_laws;
pub mod convert;
pub mod cursor;
pub mod diagnose_laws;
pub mod diagnostics;
pub mod distance;
pub mod document;
pub mod facts;
pub mod facts_laws;
pub mod fix_laws;
pub mod format;
pub mod green;
pub mod hover;
pub mod incremental;
pub mod index;
pub mod index_laws;
pub mod ingest;
pub mod kind;
pub mod layout;
pub mod lexer;
pub mod lines;
pub mod lossless;
pub mod model;
pub mod names;
pub mod nav;
pub mod nav_laws;
pub mod numbers;
pub mod order;
pub mod origin;
pub mod outline;
pub mod outline_laws;
pub mod parser;
pub mod position;
pub mod pragma;
pub mod preview;
pub mod preview_laws;
pub mod report;
pub mod rope;
pub mod runner;
pub mod scan;
pub mod scan_laws;
pub mod schema;
pub mod scopes;
pub mod semantic;
pub mod semantic_laws;
pub mod server;
pub mod session;
pub mod set_laws;
pub mod settled;
pub mod sites;
pub mod sorting;
pub mod suggest;
pub mod symbols;
pub mod syntax_laws;
pub mod table;
pub mod text;
pub mod texture;
pub mod thumbnail;
pub mod tree;
pub mod uri;
pub mod w3d;
pub mod w3d_laws;
pub mod wire;
pub mod workspace_laws;
