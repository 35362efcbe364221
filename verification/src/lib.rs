//! Anonymous gift-exchange pairing.
//!
//! The library shuffles a list of participants, derives a circular
//! giver -> recipient rotation from the shuffled order, conceals the
//! recipient names with a one-way hash, renders the concealed assignment
//! as a pretty-printed JSON document, and prepares one notification
//! message per giver.  File and network transfer stay with the caller.

pub mod errors;
pub mod participant;
pub mod shuffle;
pub mod couples;
pub mod conceal;
pub mod roulette;
pub mod json;
pub mod message;
pub mod laws;
