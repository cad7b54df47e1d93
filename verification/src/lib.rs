//! The verified core of a peer-to-peer terminal chat.
pub mod addr;
pub mod client;
pub mod config_text;
pub mod message;
pub mod peer_config;
pub mod peer_discovery;
pub mod peers;
pub mod reader;
pub mod ui;
pub mod text;
pub mod wire;
