use lib::{Exceptions, Version};

const CODEWORDS: [u32; 34] = [
    0x07C94, 0x085BC, 0x09A99, 0x0A4D3, 0x0BBF6, 0x0C762, 0x0D847, 0x0E60D, 0x0F928, 0x10B78,
    0x1145D, 0x12A17, 0x13532, 0x149A6, 0x15683, 0x168C9, 0x177EC, 0x18EC4, 0x191E1, 0x1AFAB,
    0x1B08E, 0x1CC1A, 0x1D33F, 0x1ED75, 0x1F250, 0x209D5, 0x216F0, 0x228BA, 0x2379F, 0x24B0B,
    0x2542E, 0x26A64, 0x27541, 0x28C69,
];

fn decoded(a: i32, b: i32) -> Result<u32, Exceptions> {
    Version::DecodeVersionInformation(a, b).map(|v| v.getVersionNumber())
}

#[test]
fn dimensions() {
    assert_eq!(Version::DimensionOfVersion(1, false), 21);
    assert_eq!(Version::DimensionOfVersion(40, false), 177);
    assert_eq!(Version::DimensionOfVersion(1, true), 11);
    assert_eq!(Version::DimensionOfVersion(4, true), 17);
    assert_eq!(Version::DimensionOffset(false), 17);
    assert_eq!(Version::DimensionOffset(true), 9);
    assert_eq!(Version::DimensionStep(false), 4);
    assert_eq!(Version::DimensionStep(true), 2);
}

#[test]
fn version_for_number() {
    assert_eq!(Version::getVersionForNumber(7).map(|v| v.getVersionNumber()), Ok(7));
    assert_eq!(Version::getVersionForNumber(1).map(|v| v.getVersionNumber()), Ok(1));
    assert_eq!(Version::getVersionForNumber(40).map(|v| v.getVersionNumber()), Ok(40));
    assert_eq!(Version::getVersionForNumber(0), Err(Exceptions::IllegalArgumentException));
    assert_eq!(Version::getVersionForNumber(41), Err(Exceptions::IllegalArgumentException));
}

#[test]
fn exact_codewords_decode() {
    for (i, &c) in CODEWORDS.iter().enumerate() {
        assert_eq!(decoded(c as i32, 0), Ok(i as u32 + 7));
        assert_eq!(decoded(0, c as i32), Ok(i as u32 + 7));
    }
}

#[test]
fn up_to_three_bit_errors_are_tolerated() {
    for (i, &c) in CODEWORDS.iter().enumerate() {
        let a = (c ^ 0b100_0000_0001_0000_0100) as i32;
        let b = (c ^ 0b1) as i32;
        assert_eq!(decoded(a, b), Ok(i as u32 + 7));
        assert_eq!(decoded(a, a), Ok(i as u32 + 7));
    }
}

#[test]
fn exact_match_wins_over_nearer_earlier_codeword() {
    let near_first = (CODEWORDS[0] ^ 1) as i32;
    assert_eq!(decoded(near_first, CODEWORDS[5] as i32), Ok(12));
}

#[test]
fn far_reads_are_refused() {
    assert_eq!(decoded(0, 0), Err(Exceptions::IllegalStateException));
    assert_eq!(decoded(-1, -1), Err(Exceptions::IllegalStateException));
}

#[test]
fn nearest_read_decides() {
    // 4 bits from version 7 but 2 bits from version 8 through the second read
    let a = (CODEWORDS[0] ^ 0b1111) as i32;
    let b = (CODEWORDS[1] ^ 0b11) as i32;
    assert_eq!(decoded(a, b), Ok(8));
}
