//! Command blocks, process chains and document editing for a request
//! gateway: a line-based command language with labels, `&&`/`||`
//! chaining and groups, its parser and executor, environments of named
//! values, host label storage, and path-based editing of JSON, TOML and
//! XML documents.
pub mod process_chain;
pub mod registry;
pub mod text;
pub mod warp;
