//! Keeps a community's role tags and voice channels in step with a membership
//! registry, and tracks the connection state of gateway shards.
pub mod category;
pub mod channels;
pub mod emoji;
pub mod names;
pub mod roles;
pub mod shards;
pub mod snapshots;
pub mod summary;
