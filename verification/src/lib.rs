//! Text and position logic of the Tyda language server: LSP position
//! conversion, incremental document edits, Ruby source scanning for
//! signature code lenses, completion contexts and hover display ranking.

pub mod text;
pub mod position;
pub mod lexical;
pub mod source_support;
pub mod completion_context;
pub mod rbs_comment;
pub mod code_lens;
pub mod display;
pub mod jsonc;
pub mod messages;
pub mod workspace;
pub mod settings;
pub mod accessors;
pub mod type_files;
pub mod display_cache;
pub mod hover;
pub mod locations;
pub mod diagnostics;
pub mod signature_edit;
pub mod path_order;
pub mod workspace_scan;
pub mod scan_state;
pub mod epochs;
pub mod document_cache;
pub mod cli;
