//! Core logic of the meeting assistant: the debounced meeting detector, the
//! identification of the Microsoft Teams process, the search snippets, and
//! the transaction protocols that the database repositories follow.

pub mod assertions;
pub mod detection;
pub mod ids;
pub mod meetings;
pub mod protocol;
pub mod search;
pub mod tags;
pub mod teams;
pub mod text;
pub mod time;
pub mod transcripts;
