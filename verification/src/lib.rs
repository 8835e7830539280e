//! The logic of an account switcher for Codex: profiles with saved
//! authorisations, the session with the KeyCrop service, the import of
//! purchased accounts, and the question for rate limits.
//!
//! Files, the network, the keyring and processes are left to the application
//! around this library, which hands in what it read and does what it is told.

#![allow(unused_imports)]

pub mod auth;
pub mod clock;
pub mod cookie;
pub mod double;
pub mod json;
pub mod keycrop;
pub mod paths;
pub mod probe;
pub mod profiles;
pub mod text;
