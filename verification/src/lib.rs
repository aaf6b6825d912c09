//! A sound-library toolkit: filename rules, peak caches, profiles, packs,
//! search and similarity over an indexed collection of audio files.

pub mod text;
pub mod rename;
pub mod paths;
pub mod cache;
pub mod db;
pub mod profiles;
pub mod pack;
pub mod similar;
pub mod scan;
pub mod ident;
pub mod audio;
pub mod order;
pub mod search;
