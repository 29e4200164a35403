use iq_pipeline::passthrough::{byte_to_ieee_bits, passthrough_bits, u32_be_bytes, u32_le_bytes};

#[test]
fn ieee_bits_match_hardware_floats_for_every_byte() {
    for b in 0u32..256 {
        let b = b as u8;
        let value = (b as i8) as f32 / 128.0;
        assert_eq!(byte_to_ieee_bits(b), value.to_bits(), "byte {:#04x}", b);
    }
}

#[test]
fn ieee_bits_of_known_values() {
    // 0.0, -1.0, 1/128 and 127/128.
    assert_eq!(byte_to_ieee_bits(0x00), 0x0000_0000);
    assert_eq!(byte_to_ieee_bits(0x80), 0xBF80_0000);
    assert_eq!(byte_to_ieee_bits(0x01), 0x3C00_0000);
    assert_eq!(byte_to_ieee_bits(0x7F), 0x3F7E_0000);
}

#[test]
fn little_endian_bytes_come_low_byte_first() {
    assert_eq!(u32_le_bytes(0x3C00_80FF), vec![0xFF, 0x80, 0x00, 0x3C]);
    assert_eq!(u32_be_bytes(0x3C00_80FF), vec![0x3C, 0x00, 0x80, 0xFF]);
}

#[test]
fn passthrough_drops_a_trailing_unpaired_byte() {
    let bits = passthrough_bits(&vec![0x00u8, 0x80, 0x7F]);
    assert_eq!(bits, vec![0x0000_0000, 0xBF80_0000]);
}
