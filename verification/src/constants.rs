//! Container magics, command numbers and button masks.
use crate::bytes::{spells, starts_with_bytes};
use vstd::prelude::*;

verus! {

pub const HEADER_SIZE: usize = 1072;

/// Bytes of one splitscreen slot's camera block.
pub const SPLIT_SIZE: usize = 76;

pub const DEM_SIGNON: u8 = 1;
pub const DEM_PACKET: u8 = 2;
pub const DEM_SYNCTICK: u8 = 3;
pub const DEM_CONSOLECMD: u8 = 4;
pub const DEM_USERCMD: u8 = 5;
pub const DEM_DATATABLES: u8 = 6;
pub const DEM_STOP: u8 = 7;
pub const DEM_STRINGTABLES: u8 = 8;
pub const DEM_STRINGTABLES_V2: u8 = 9;

pub const MAX_EDICT_BITS: u32 = 11;
pub const WEAPON_SUBTYPE_BITS: u32 = 6;

pub const IN_ATTACK: u32 = 0x1;
pub const IN_JUMP: u32 = 0x2;
pub const IN_DUCK: u32 = 0x4;
pub const IN_FORWARD: u32 = 0x8;
pub const IN_BACK: u32 = 0x10;
pub const IN_USE: u32 = 0x20;
pub const IN_LEFT: u32 = 0x80;
pub const IN_RIGHT: u32 = 0x100;
pub const IN_MOVELEFT: u32 = 0x200;
pub const IN_MOVERIGHT: u32 = 0x400;
pub const IN_ATTACK2: u32 = 0x800;
pub const IN_RELOAD: u32 = 0x2000;
pub const IN_SCORE: u32 = 0x1_0000;
pub const IN_SPEED: u32 = 0x2_0000;
pub const IN_WALK: u32 = 0x4_0000;
pub const IN_ZOOM: u32 = 0x8_0000;

/// `HL2DEMO` and a zero byte.
pub open spec fn demo_magic() -> Seq<u8> {
    seq![0x48, 0x4c, 0x32, 0x44, 0x45, 0x4d, 0x4f, 0x00]
}

/// `GMODEMO` and a zero byte: the same container under Garry's Mod's name.
pub open spec fn gmod_magic() -> Seq<u8> {
    seq![0x47, 0x4d, 0x4f, 0x44, 0x45, 0x4d, 0x4f, 0x00]
}

pub open spec fn source_magic(d: Seq<u8>) -> bool {
    spells(d, 0, demo_magic()) || spells(d, 0, gmod_magic())
}

/// Whether a file starts as the demos of Source do.
pub fn is_source_demo_magic(data: &[u8]) -> (r: bool)
    ensures
        r == source_magic(data@),
{
    let hl2: [u8; 8] = [0x48, 0x4c, 0x32, 0x44, 0x45, 0x4d, 0x4f, 0x00];
    let gmod: [u8; 8] = [0x47, 0x4d, 0x4f, 0x44, 0x45, 0x4d, 0x4f, 0x00];
    assert(hl2@ =~= demo_magic());
    assert(gmod@ =~= gmod_magic());
    starts_with_bytes(data, hl2.as_slice()) || starts_with_bytes(data, gmod.as_slice())
}

} // verus!
