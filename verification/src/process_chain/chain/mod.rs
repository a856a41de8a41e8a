pub mod body;
pub mod chain;
pub mod req;
