//! Connection logic of a FortiGate IPsec VPN client.

pub mod text;
pub mod xfrm;
pub mod protocol;
pub mod charon;
pub mod session;
pub mod profiles;
pub mod secrets;
pub mod tray;
