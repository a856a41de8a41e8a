pub mod block;
pub mod cmd;
pub mod parser;
