//! The 16-bit CRC used by FIT activity files.
use vstd::prelude::*;

verus! {

/// One entry of the nibble table of the FIT CRC.
pub open spec fn crc_table_entry(i: u16) -> u16 {
    if i == 0 { 0x0000 }
    else if i == 1 { 0xCC01 }
    else if i == 2 { 0xD801 }
    else if i == 3 { 0x1400 }
    else if i == 4 { 0xF001 }
    else if i == 5 { 0x3C00 }
    else if i == 6 { 0x2800 }
    else if i == 7 { 0xE401 }
    else if i == 8 { 0xA001 }
    else if i == 9 { 0x6C00 }
    else if i == 10 { 0x7800 }
    else if i == 11 { 0xB401 }
    else if i == 12 { 0x5000 }
    else if i == 13 { 0x9C01 }
    else if i == 14 { 0x8801 }
    else { 0x4400 }
}

/// The CRC after feeding one byte, low nibble first, into `crc`.
pub open spec fn crc_step(crc: u16, byte: u8) -> u16 {
    let low = (byte as u16) & 0xF;
    let high = ((byte as u16) >> 4) & 0xF;
    let crc_1 = ((crc >> 4) & 0x0FFF) ^ crc_table_entry(crc & 0xF) ^ crc_table_entry(low);
    ((crc_1 >> 4) & 0x0FFF) ^ crc_table_entry(crc_1 & 0xF) ^ crc_table_entry(high)
}

/// The CRC of a whole byte sequence, starting from zero.
pub open spec fn crc_of(data: Seq<u8>) -> u16
    decreases data.len(),
{
    if data.len() == 0 {
        0
    } else {
        crc_step(crc_of(data.drop_last()), data.last())
    }
}

fn crc_table(i: u16) -> (r: u16)
    ensures
        r == crc_table_entry(i),
{
    if i == 0 { 0x0000 }
    else if i == 1 { 0xCC01 }
    else if i == 2 { 0xD801 }
    else if i == 3 { 0x1400 }
    else if i == 4 { 0xF001 }
    else if i == 5 { 0x3C00 }
    else if i == 6 { 0x2800 }
    else if i == 7 { 0xE401 }
    else if i == 8 { 0xA001 }
    else if i == 9 { 0x6C00 }
    else if i == 10 { 0x7800 }
    else if i == 11 { 0xB401 }
    else if i == 12 { 0x5000 }
    else if i == 13 { 0x9C01 }
    else if i == 14 { 0x8801 }
    else { 0x4400 }
}

/// Namespace of the FIT file helpers.
pub struct Fit {}

impl Fit {
    /// Feeds one byte into a running CRC.
    pub fn crc_get16(crc: u16, byte: u8) -> (r: u16)
        ensures
            r == crc_step(crc, byte),
    {
        let low: u16 = (byte as u16) & 0xF;
        let high: u16 = ((byte as u16) >> 4) & 0xF;
        let crc_0: u16 = (crc >> 4) & 0x0FFF;
        let crc_1: u16 = crc_0 ^ crc_table(crc & 0xF) ^ crc_table(low);
        let crc_2: u16 = (crc_1 >> 4) & 0x0FFF;
        crc_2 ^ crc_table(crc_1 & 0xF) ^ crc_table(high)
    }

    /// The CRC of `data`, as a FIT file stores it.
    pub fn crc_calc16(data: &[u8]) -> (r: u16)
        ensures
            r == crc_of(data@),
    {
        let mut crc: u16 = 0;
        let mut i: usize = 0;
        while i < data.len()
            invariant
                i <= data@.len(),
                crc == crc_of(data@.subrange(0, i as int)),
            decreases data@.len() - i,
        {
            proof {
                assert(data@.subrange(0, i + 1).drop_last() == data@.subrange(0, i as int));
            }
            crc = Self::crc_get16(crc, data[i]);
            i = i + 1;
        }
        proof {
            assert(data@.subrange(0, data@.len() as int) == data@);
        }
        crc
    }
}

} // verus!
