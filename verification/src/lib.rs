//! A pool of public proxy servers: the addresses it holds, how each one is
//! scored from its check history, when it is put aside to cool down or
//! evicted, how lines of published proxy lists are read, and how a pool is
//! rebuilt from a saved snapshot.

pub mod addr;
pub mod checker;
pub mod clock;
pub mod config;
pub mod cooldown;
pub mod pool;
pub mod proxy;
pub mod scorer;
pub mod select;
pub mod sources;
pub mod storage;
pub mod table;
pub mod text;

