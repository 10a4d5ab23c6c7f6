//! The use cases of the bot: the commands it carries out on a party and
//! the errors they end in.
pub mod commands;
pub mod error;
pub mod restore;
