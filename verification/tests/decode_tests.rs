use iq_pipeline::decode::{decode_all, decode_byte, IqConverter, IqSample, SCALE};

#[test]
fn decode_even_length_gives_half_as_many_samples() {
    let bytes = vec![1u8, 2, 3, 4, 5, 6];
    let samples = decode_all(&bytes);
    assert_eq!(samples.len(), 3);
}

#[test]
fn decode_odd_length_drops_trailing_byte() {
    let bytes = vec![0u8, 0, 0, 0, 0x7F];
    let samples = decode_all(&bytes);
    assert_eq!(samples.len(), 2);
    assert_eq!(samples[1], IqSample { i: 0, q: 0 });
}

#[test]
fn decode_empty_and_single_byte() {
    assert_eq!(decode_all(&vec![]).len(), 0);
    assert_eq!(decode_all(&vec![0x42u8]).len(), 0);
}

#[test]
fn decode_zero_bytes_give_zero_sample() {
    let samples = decode_all(&vec![0x00u8, 0x00]);
    assert_eq!(samples, vec![IqSample { i: 0, q: 0 }]);
}

#[test]
fn decode_0x80_gives_minus_one() {
    let samples = decode_all(&vec![0x80u8, 0x80]);
    assert_eq!(samples, vec![IqSample { i: -SCALE, q: -SCALE }]);
}

#[test]
fn decode_0x7f_gives_127_over_128() {
    let samples = decode_all(&vec![0x7Fu8, 0x7F]);
    // 127/128 in units of 1/32768 is 127 * 256.
    assert_eq!(samples, vec![IqSample { i: 32512, q: 32512 }]);
}

#[test]
fn decode_byte_is_signed_times_256() {
    assert_eq!(decode_byte(0x00), 0);
    assert_eq!(decode_byte(0x01), 256);
    assert_eq!(decode_byte(0x7F), 32512);
    assert_eq!(decode_byte(0x80), -32768);
    assert_eq!(decode_byte(0xFF), -256);
}

#[test]
fn converter_pulls_samples_in_pairs_then_ends() {
    let mut conv = IqConverter::new(vec![0x01u8, 0x02, 0x03, 0x04, 0x05]);
    assert_eq!(conv.next(), Some(IqSample { i: 256, q: 512 }));
    assert_eq!(conv.next(), Some(IqSample { i: 768, q: 1024 }));
    assert_eq!(conv.next(), None);
    assert_eq!(conv.next(), None);
}
