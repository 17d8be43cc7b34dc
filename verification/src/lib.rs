//! Demo-file decoding: containers, bit streams, entity deltas and map geometry
//! for the Source, GoldSrc and Quake engine families.
use vstd::prelude::*;

pub mod bytes;
pub mod text;
pub mod bits;
pub mod written;
pub mod protobuf;
pub mod constants;
pub mod header;
pub mod packets;
pub mod bsp;
pub mod maps;
pub mod order;
pub mod info;
pub mod ieee;
pub mod goldsrc;
pub mod source;
pub mod multi_player;
pub mod quake;
pub mod check;
pub mod json;
pub mod session;
pub mod report;
pub mod overlay;
pub mod page;
pub mod number;
pub mod html;
pub mod dump;
pub mod export;
pub mod frames;

verus! {

} // verus!
