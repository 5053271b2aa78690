//! The channel layer of the Oak runtime, and the rules of the interface that foreign
//! pseudo-Nodes use to reach it.
pub mod abi;
pub mod channel;
pub mod config;
pub mod cpp_main;
pub mod glue;
pub mod proxy;
pub mod sorted;
pub mod text;
