//! The party: its members, their expenses, its states, and how its
//! expenses are settled.

pub mod laws;
pub mod party;
pub mod settlement;
