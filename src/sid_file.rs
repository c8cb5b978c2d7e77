//! The SID music container: recognising it and finding where its payload starts.
use vstd::prelude::*;

verus! {

pub const MIN_SID_HEADER_SIZE: usize = 0x76;

pub const DATA_OFFSET_OFFSET: usize = 0x06;

pub const LOAD_ADDRESS_OFFSET: usize = 0x08;

pub const LOAD_ADDRESS_SIZE: usize = 2;

/// The first four bytes are `RSID` or `PSID`.
pub open spec fn sid_magic(s: Seq<u8>) -> bool {
    &&& s.len() >= 4
    &&& s[0] == 0x52 || s[0] == 0x50
    &&& s[1] == 0x53 && s[2] == 0x49 && s[3] == 0x44
}

/// A SID file: long enough for the smallest header, with the SID magic.
pub open spec fn sid_file(s: Seq<u8>) -> bool {
    s.len() >= MIN_SID_HEADER_SIZE && sid_magic(s)
}

/// The big-endian header size at offset 6.
pub open spec fn header_size(s: Seq<u8>) -> int {
    s[6] as int * 256 + s[7] as int
}

/// Where the payload of a SID file starts: past a header of a valid size, and two
/// bytes further when the load address at offset 8 is zero; 0 for an invalid size.
pub open spec fn sid_data_offset(s: Seq<u8>) -> int {
    let h = header_size(s);
    if MIN_SID_HEADER_SIZE <= h <= s.len() {
        if s[8] == 0 && s[9] == 0 {
            h + LOAD_ADDRESS_SIZE
        } else {
            h
        }
    } else {
        0
    }
}

pub fn is_sid_file(source: &[u8]) -> (r: bool)
    ensures
        r == sid_file(source@),
{
    source.len() >= MIN_SID_HEADER_SIZE && (source[0] == 0x52 || source[0] == 0x50) && source[1]
        == 0x53 && source[2] == 0x49 && source[3] == 0x44
}

pub fn get_data_offset(source: &[u8]) -> (r: usize)
    requires
        source@.len() >= LOAD_ADDRESS_OFFSET + LOAD_ADDRESS_SIZE,
    ensures
        r == sid_data_offset(source@),
{
    let data_offset: usize = source[DATA_OFFSET_OFFSET] as usize * 256 + source[DATA_OFFSET_OFFSET
        + 1] as usize;
    if data_offset >= MIN_SID_HEADER_SIZE && data_offset <= source.len() {
        if source[LOAD_ADDRESS_OFFSET] == 0 && source[LOAD_ADDRESS_OFFSET + 1] == 0 {
            return data_offset + LOAD_ADDRESS_SIZE;
        }
        return data_offset;
    }
    0
}

} // verus!
