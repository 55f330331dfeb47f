//! Building blocks of a Minecraft server scanner: a bounded history buffer,
//! masscan-style target range handling and the server list ping wire format.

pub mod circ;
pub mod slp;
pub mod ipv4;
pub mod range;
pub mod text;
pub mod scanner;
pub mod state;
