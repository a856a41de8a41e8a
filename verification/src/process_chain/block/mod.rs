pub mod block;
pub mod cmd;
pub mod context;
pub mod exec;
pub mod parser;
pub mod storage;
