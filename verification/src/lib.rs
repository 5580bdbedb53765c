//! A small in-memory link shortener core: a bidirectional code <-> link
//! store with sliding-window expiry and lazy reaping.
pub mod codes;
pub mod index;
pub mod laws;
pub mod store;
pub mod text;
