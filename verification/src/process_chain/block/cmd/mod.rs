pub mod cmd;
pub mod sni;
