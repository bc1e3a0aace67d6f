//! Core of a chat-bot backend: a cached registry of named, per-channel
//! entities (chat commands) layered over a backing table, a small template
//! engine, a dispatch router for the fixed administrative vocabulary, and
//! the text utilities the chat front end needs.

pub mod cooldown;
pub mod digits;
pub mod duration;
pub mod key;
pub mod laws;
pub mod offset;
pub mod registry;
pub mod router;
pub mod speedrun;
pub mod store;
pub mod template;
pub mod textfmt;
pub mod urls;
pub mod words;
