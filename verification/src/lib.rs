//! Verified building blocks for a family of small network-protocol servers.
//!
//! The heart of the crate is a reliable-delivery transport built on
//! unreliable datagrams: a textual wire codec (`parse`), a per-peer session
//! state machine (`session`) and a session table that demultiplexes
//! datagrams by session id (`listener`).  The remaining modules hold the
//! verified message formats and bookkeeping of the sibling servers.

pub mod budget_chat;
pub mod cipher;
pub mod job;
pub mod listener;
pub mod means;
pub mod mob;
pub mod parse;
pub mod session;
pub mod speed;
pub mod pest;
pub mod prime;
pub mod text;
