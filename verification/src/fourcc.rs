//! Four-character codes of ISO base media files.
use vstd::prelude::*;

verus! {

pub const FTYP: [u8; 4] = [0x66, 0x74, 0x79, 0x70];

pub const MOOV: [u8; 4] = [0x6d, 0x6f, 0x6f, 0x76];

pub const MDAT: [u8; 4] = [0x6d, 0x64, 0x61, 0x74];

pub const FREE: [u8; 4] = [0x66, 0x72, 0x65, 0x65];

pub const SKIP: [u8; 4] = [0x73, 0x6b, 0x69, 0x70];

pub const WIDE: [u8; 4] = [0x77, 0x69, 0x64, 0x65];

pub const MOOF: [u8; 4] = [0x6d, 0x6f, 0x6f, 0x66];

pub const MFRA: [u8; 4] = [0x6d, 0x66, 0x72, 0x61];

pub const UDTA: [u8; 4] = [0x75, 0x64, 0x74, 0x61];

pub const UUID: [u8; 4] = [0x75, 0x75, 0x69, 0x64];

pub const PNOT: [u8; 4] = [0x70, 0x6e, 0x6f, 0x74];

pub const SIDX: [u8; 4] = [0x73, 0x69, 0x64, 0x78];

pub const MVHD: [u8; 4] = [0x6d, 0x76, 0x68, 0x64];

pub const TRAK: [u8; 4] = [0x74, 0x72, 0x61, 0x6b];

pub const TKHD: [u8; 4] = [0x74, 0x6b, 0x68, 0x64];

pub const MDIA: [u8; 4] = [0x6d, 0x64, 0x69, 0x61];

pub const MDHD: [u8; 4] = [0x6d, 0x64, 0x68, 0x64];

pub const HDLR: [u8; 4] = [0x68, 0x64, 0x6c, 0x72];

pub const MINF: [u8; 4] = [0x6d, 0x69, 0x6e, 0x66];

pub const VMHD: [u8; 4] = [0x76, 0x6d, 0x68, 0x64];

pub const SMHD: [u8; 4] = [0x73, 0x6d, 0x68, 0x64];

pub const DINF: [u8; 4] = [0x64, 0x69, 0x6e, 0x66];

pub const STBL: [u8; 4] = [0x73, 0x74, 0x62, 0x6c];

pub const STSD: [u8; 4] = [0x73, 0x74, 0x73, 0x64];

pub const AVC1: [u8; 4] = [0x61, 0x76, 0x63, 0x31];

pub const AVC3: [u8; 4] = [0x61, 0x76, 0x63, 0x33];

pub const STTS: [u8; 4] = [0x73, 0x74, 0x74, 0x73];

pub const STSC: [u8; 4] = [0x73, 0x74, 0x73, 0x63];

pub const STSZ: [u8; 4] = [0x73, 0x74, 0x73, 0x7a];

pub const STCO: [u8; 4] = [0x73, 0x74, 0x63, 0x6f];

pub const CO64: [u8; 4] = [0x63, 0x6f, 0x36, 0x34];

pub const STSS: [u8; 4] = [0x73, 0x74, 0x73, 0x73];

pub const CTTS: [u8; 4] = [0x63, 0x74, 0x74, 0x73];

pub const DREF: [u8; 4] = [0x64, 0x72, 0x65, 0x66];

pub const ISOM: [u8; 4] = [0x69, 0x73, 0x6f, 0x6d];

pub const AVCC: [u8; 4] = [0x61, 0x76, 0x63, 0x43];

pub const VIDE: [u8; 4] = [0x76, 0x69, 0x64, 0x65];

pub const SOUN: [u8; 4] = [0x73, 0x6f, 0x75, 0x6e];

pub const URL: [u8; 4] = [0x75, 0x72, 0x6c, 0x20];

} // verus!
