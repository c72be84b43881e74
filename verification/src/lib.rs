//! Verified logic of a creators' donation system: a membership group of creator
//! proxies, a proxy per creator that takes donations, and a distribution pool
//! that splits the group's share of donations by weight.

pub mod common;
pub mod cw;
pub mod distribution;
pub mod membership;
pub mod points;
pub mod proxy;
pub mod table;
