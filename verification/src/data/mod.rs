pub mod notification;
pub mod cluster;
pub mod urgency;
pub mod persistence;
