//! Pairing engine for a group game in which every member secretly plays as
//! exactly one other member.

pub mod ids;
pub mod cycle;
pub mod game;
pub mod parser;
pub mod shuffler;
pub mod search;
pub mod orchestrator;
pub mod notify;
pub mod text;
