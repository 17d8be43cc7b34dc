//! Source-engine demos.
pub mod csgo;
pub mod stringtable;
pub mod sendprop;
pub mod sent;
pub mod datatable;
pub mod packetentities;
pub mod sent_entities;
pub mod player_tracks;
pub mod events;
pub mod sent_events;
pub mod messages;
pub mod sent_messages;
pub mod sent_tables;
