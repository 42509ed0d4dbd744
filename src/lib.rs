//! A small tool for sending and receiving UDP datagrams by hand: the decisions
//! it makes and the text it shows, with their contracts.

pub mod command;
pub mod port;
pub mod render;
pub mod text;
