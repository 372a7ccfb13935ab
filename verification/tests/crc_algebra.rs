//! The checksum algebra against known values and its stated laws on
//! concrete inputs.

use xivcrc::XivCrc32;

#[test]
fn crc_matches_known_values() {
    // found with the checksum of the literal bytes
    let crc_g = XivCrc32::new(0xD168B105, 2);
    let crc_emissivecolor = XivCrc32::new(0x900676F0, 13);
    let crc_g_emissivecolor = XivCrc32::new(0x38A64362, 15);

    let test_full = XivCrc32::from_bytes(b"g_EmissiveColor");
    assert_eq!(test_full, crc_g_emissivecolor);

    let test_g = XivCrc32::from_bytes(b"g_");
    assert_eq!(test_g, crc_g);

    let test_emissivecolor = XivCrc32::from_bytes(b"EmissiveColor");
    assert_eq!(test_emissivecolor, crc_emissivecolor);

    let test_full = test_g.combine(test_emissivecolor);
    assert_eq!(test_full, crc_g_emissivecolor);
}

#[test]
fn combine_is_checksum_of_concatenation() {
    let cases: Vec<(&[u8], &[u8])> = vec![
        (b"g_", b"EmissiveColor"),
        (b"abc", b"def"),
        (b"", b"xyz"),
        (b"xyz", b""),
        (b"", b""),
        (b"a", b"bcdefghijklmnopqrstuvwxyz0123456789"),
    ];
    for (a, b) in cases {
        let mut joined = Vec::new();
        joined.extend_from_slice(a);
        joined.extend_from_slice(b);
        let combined = XivCrc32::from_bytes(a).combine(XivCrc32::from_bytes(b));
        assert_eq!(combined, XivCrc32::from_bytes(&joined));
    }
}

#[test]
fn combine_is_not_commutative() {
    let a = XivCrc32::from_bytes(b"g_");
    let b = XivCrc32::from_bytes(b"EmissiveColor");
    assert_ne!(a.combine(b), b.combine(a));

    let c = XivCrc32::from_bytes(b"abc");
    let d = XivCrc32::from_bytes(b"xy");
    assert_ne!(c.combine(d), d.combine(c));
}

#[test]
fn extend_by_zero_bytes_zero_is_identity() {
    let values = vec![
        XivCrc32::from_bytes(b"g_"),
        XivCrc32::from_bytes(b""),
        XivCrc32::new(0xDEADBEEF, 7),
        XivCrc32::zero(3),
    ];
    for x in values {
        assert_eq!(x.extend_by_zero(0), x);
    }
}

#[test]
fn extend_by_zero_is_combine_with_zero_checksum() {
    let x = XivCrc32::from_bytes(b"g_");
    assert_eq!(x.extend_by_zero(5), x.combine(XivCrc32::zero(5)));
    // a run of zero bytes has a zero checksum under this convention, so the
    // extension also equals combining with the hash of real zero bytes
    let zeros = XivCrc32::from_bytes(&[0u8; 5]);
    assert_eq!(zeros.crc, 0);
    assert_eq!(x.extend_by_zero(5), x.combine(zeros));
}

#[test]
fn from_bytes_is_not_the_identity_hash() {
    let v = XivCrc32::from_bytes(b"g_");
    assert_eq!(v.crc, 0xD168B105);
    assert_eq!(v.len, 2);
    assert_ne!(v.crc, 0);
    assert_eq!(XivCrc32::from_bytes(b"").crc, 0);
}

#[test]
fn xor_compose_mixes_checksums() {
    let a = XivCrc32::new(0xF0F0F0F0, 4);
    let b = XivCrc32::new(0x0FF00FF0, 2);
    let c = a.xor_compose(b);
    assert_eq!(c.crc, 0xFF00FF00);
    assert_eq!(c.len, 4);
}

#[test]
fn default_is_empty_checksum() {
    let d = XivCrc32::default();
    assert_eq!(d, XivCrc32::new(0, 0));
    assert_eq!(d, XivCrc32::from_bytes(b""));
}
