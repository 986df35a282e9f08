//! A local cache and index for the events of a decentralised social network:
//! profiles, contact lists and authored posts, kept in named partitions of an
//! ordered key-value engine and served as time-ordered feeds.

pub mod bytes;
pub mod codec;
pub mod contacts;
pub mod engine;
pub mod error;
pub mod home;
pub mod laws;
pub mod login;
pub mod model;
pub mod partition;
pub mod state;
pub mod store;
pub mod table;
