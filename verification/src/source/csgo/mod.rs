//! The protobuf net-message stream of CS:GO demos.
pub mod message;
pub mod stringtables;
pub mod entities;
pub mod events;
pub mod sendtable;
pub mod sent;
