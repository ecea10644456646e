pub mod codec;
pub mod manager;
