//! Process chains: blocks of command lines, their parser and executor,
//! the request context they act on, and document editing by path.
pub mod block;
pub mod chain;
pub mod http;
