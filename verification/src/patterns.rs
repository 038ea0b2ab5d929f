use vstd::prelude::*;

verus! {

/// Begin Document (BDT).
pub const DOC_START: [u8; 3] = [0xD3, 0xA8, 0xA8];
/// End Document (EDT).
pub const DOC_END: [u8; 3] = [0xD3, 0xA9, 0xA8];
/// Begin Named Page Group (BNG).
pub const PG_START: [u8; 3] = [0xD3, 0xA8, 0xAD];
/// End Named Page Group (ENG).
pub const PG_END: [u8; 3] = [0xD3, 0xA9, 0xAD];
/// Begin Page (BPG).
pub const PAGE_START: [u8; 3] = [0xD3, 0xA8, 0xAF];
/// End Page (EPG).
pub const PAGE_END: [u8; 3] = [0xD3, 0xA9, 0xAF];
/// Begin Print File (BPF).
pub const PF_START: [u8; 3] = [0xD3, 0xA8, 0xA5];
/// End Print File (EPF).
pub const PF_END: [u8; 3] = [0xD3, 0xA9, 0xA5];
/// No Operation (NOP). Type code X'EE' is Data, so NOP sits next to IPD
/// (D3EEFB), PTX (D3EE9B) and OCD (D3EE92): the full three bytes are matched,
/// never just the type.
pub const NOP_SF: [u8; 3] = [0xD3, 0xEE, 0xEE];
/// Tag Logical Element (TLE).
pub const TLE_SF: [u8; 3] = [0xD3, 0xA0, 0x90];

} // verus!
