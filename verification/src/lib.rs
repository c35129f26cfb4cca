//! Running scripts that call tools.
//!
//! The extension offers a model two tools: one runs a script, which can import the tools of other
//! extensions from modules and call them, and one tells what is in those modules. The library
//! makes all decisions of the extension; the host, the script engine and the channels between
//! them are driven by its caller.

pub mod client;
pub mod content;
pub mod json;
pub mod modules;
pub mod prompts;
pub mod read_module;
pub mod script;
pub mod statement_laws;
pub mod statements;
pub mod text;
pub mod tool_call;
pub mod tool_info;
pub mod wrap;
pub mod wrap_laws;
