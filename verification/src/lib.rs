//! Splitting the expenses of a party between its members: a party collects
//! expenses, is locked, and is settled by transfers that bring every member
//! to exactly the average of what the members spent, counting fractions of
//! a cent where the total does not divide evenly.
pub mod application;
pub mod domain;
pub mod transport;
