use id3edit::synchsafe::{read_u32_be, synchsafe, unsynchsafe, write_u32_be};

#[test]
fn synchsafe_packs_seven_bits_to_a_byte() {
    assert_eq!(synchsafe(0), 0);
    assert_eq!(synchsafe(1), 1);
    assert_eq!(synchsafe(127), 0x7F);
    assert_eq!(synchsafe(128), 0x0100);
    assert_eq!(synchsafe(255), 0x017F);
    assert_eq!(synchsafe(257), 0x0201);
    assert_eq!(synchsafe(0x3FFF), 0x7F7F);
    assert_eq!(synchsafe(0x4000), 0x01_0000);
    assert_eq!(synchsafe(0x0FFF_FFFF), 0x7F7F_7F7F);
}

#[test]
fn unsynchsafe_takes_the_low_seven_bits() {
    assert_eq!(unsynchsafe(0), 0);
    assert_eq!(unsynchsafe(0x7F), 127);
    assert_eq!(unsynchsafe(0x0100), 128);
    assert_eq!(unsynchsafe(0x0201), 257);
    assert_eq!(unsynchsafe(0x7F7F_7F7F), 0x0FFF_FFFF);
    assert_eq!(unsynchsafe(0xFFFF_FFFF), 0x0FFF_FFFF);
    assert_eq!(unsynchsafe(0x8080_8080), 0);
    assert_eq!(unsynchsafe(0x0000_0080), 0);
}

#[test]
fn a_size_is_not_read_as_a_plain_word() {
    let bytes = [0x00u8, 0x00, 0x02, 0x01];
    assert_eq!(read_u32_be(&bytes, 0), 513);
    assert_eq!(unsynchsafe(read_u32_be(&bytes, 0)), 257);
}

#[test]
fn synchsafe_round_trip_on_samples() {
    let mut n: u32 = 0;
    while n < 0x1000_0000 {
        assert_eq!(unsynchsafe(synchsafe(n)), n);
        n += 65_521;
    }
    for n in [0u32, 1, 127, 128, 16_383, 16_384, 2_097_151, 2_097_152, 0x0FFF_FFFF] {
        assert_eq!(unsynchsafe(synchsafe(n)), n);
        assert_eq!(synchsafe(n) & 0x8080_8080, 0);
    }
}

#[test]
fn big_endian_words() {
    let mut out = vec![9u8];
    write_u32_be(&mut out, 0x0102_0304);
    write_u32_be(&mut out, 0xFFEE_DDCC);
    assert_eq!(out, vec![9, 1, 2, 3, 4, 0xFF, 0xEE, 0xDD, 0xCC]);
    assert_eq!(read_u32_be(&out, 1), 0x0102_0304);
    assert_eq!(read_u32_be(&out, 5), 0xFFEE_DDCC);
    assert_eq!(read_u32_be(&out, 2), 0x0203_04FF);
}
