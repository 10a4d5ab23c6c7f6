//! What the chat transport reads from its users.
pub mod command;
