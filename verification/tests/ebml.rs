use basinski::ebml::{
    binary, ebml_string, el, float32, read_element, read_id, read_vint, uint, write_vint, ID_CHANNELS, ID_CODEC_ID, ID_INFO,
    ID_PIXEL_WIDTH, ID_SAMPLING_FREQ, ID_SEGMENT,
};

#[test]
fn vint_reads_one_byte() {
    assert_eq!(read_vint(&[0x81], 0), Some((1, 1)));
    assert_eq!(read_vint(&[0xFE], 0), Some((126, 1)));
}

#[test]
fn vint_reads_two_bytes() {
    // 0x40 marks a 2-byte vint; value bits = 0x007F = 127.
    assert_eq!(read_vint(&[0x40, 0x7F], 0), Some((127, 2)));
    // 0x4001 -> value 1, length 2.
    assert_eq!(read_vint(&[0x40, 0x01], 0), Some((1, 2)));
}

#[test]
fn vint_reads_eight_byte_without_panicking() {
    // Lead byte 0x01 marks an 8-byte vint; value bits are the low 7 bytes.
    assert_eq!(read_vint(&[0x01, 0, 0, 0, 0, 0, 0, 0x05], 0), Some((5, 8)));
}

#[test]
fn vint_rejects_truncated_and_zero() {
    assert_eq!(read_vint(&[0x40], 0), None); // claims 2 bytes, only 1 present
    assert_eq!(read_vint(&[0x00], 0), None); // 0x00 is not a legal vint lead
}

#[test]
fn id_preserves_marker() {
    assert_eq!(read_id(&[0x1A, 0x45, 0xDF, 0xA3], 0), Some((0x1A45DFA3, 4)));
    assert_eq!(read_id(&[0x18, 0x53, 0x80, 0x67], 0), Some((0x18538067, 4)));
    assert_eq!(read_id(&[0xA3], 0), Some((0xA3, 1)));
    assert_eq!(read_id(&[0x4D, 0x80], 0), Some((0x4D80, 2)));
}

#[test]
fn write_vint_is_minimal_length() {
    assert_eq!(write_vint(0), vec![0x80]);
    assert_eq!(write_vint(1), vec![0x81]);
    assert_eq!(write_vint(126), vec![0xFE]);
    // 127 is the 1-byte unknown-size sentinel, so a real 127 needs 2 bytes.
    assert_eq!(write_vint(127), vec![0x40, 0x7F]);
    assert_eq!(write_vint(0x3FFE), vec![0x7F, 0xFE]);
}

#[test]
fn vint_round_trips() {
    for v in [0u64, 1, 5, 126, 127, 300, 16383, 16384, 1_000_000] {
        let bytes = write_vint(v);
        assert_eq!(read_vint(&bytes, 0), Some((v, bytes.len())), "v={v}");
    }
}

#[test]
fn reads_element_header() {
    // Info element (0x1549A966) with a 1-byte size of 5.
    let buf = [0x15, 0x49, 0xA9, 0x66, 0x85, 1, 2, 3, 4, 5];
    let e = read_element(&buf, 0).unwrap();
    assert_eq!(e.id, ID_INFO);
    assert_eq!(e.size, Some(5));
    assert_eq!(e.header_len, 5);
    assert_eq!(e.data_pos, 5);
}

#[test]
fn reads_unknown_size_element() {
    // Segment (0x18538067) with the 1-byte unknown-size sentinel 0xFF.
    let buf = [0x18, 0x53, 0x80, 0x67, 0xFF];
    let e = read_element(&buf, 0).unwrap();
    assert_eq!(e.id, ID_SEGMENT);
    assert_eq!(e.size, None);
    assert_eq!(e.data_pos, 5);
}

#[test]
fn builders_emit_canonical_bytes() {
    // el(): CodecID "V_VP9" -> id 0x86, size 0x85, payload.
    assert_eq!(el(ID_CODEC_ID, b"V_VP9"), vec![0x86, 0x85, b'V', b'_', b'V', b'P', b'9']);
    // uint(): PixelWidth 1920 = 0x0780 -> id 0xB0, size 0x82, big-endian value.
    assert_eq!(uint(ID_PIXEL_WIDTH, 1920), vec![0xB0, 0x82, 0x07, 0x80]);
    // uint() of zero is one zero byte, not empty.
    assert_eq!(uint(ID_CHANNELS, 0), vec![0x9F, 0x81, 0x00]);
    // float32(): 48000.0 -> id 0xB5, size 0x84, IEEE-754 big-endian.
    assert_eq!(
        float32(ID_SAMPLING_FREQ, 48000.0f32.to_bits()),
        {
            let mut v = vec![0xB5, 0x84];
            v.extend_from_slice(&48000.0f32.to_be_bytes());
            v
        }
    );
}

#[test]
fn elements_round_trip() {
    for n in [0usize, 1, 126, 127, 300, 20000] {
        let payload: Vec<u8> = (0..n).map(|i| i as u8).collect();
        for id in [ID_CHANNELS, ID_CODEC_ID, ID_INFO, 0x4282, 0x2AD7B1] {
            let mut d = vec![0xEE; 3];
            d.extend(el(id, &payload));
            let e = read_element(&d, 3).unwrap();
            assert_eq!((e.id, e.size), (id, Some(n as u64)));
            assert_eq!(&d[e.data_pos..], &payload[..]);
            assert_eq!(e.header_len, e.data_pos - 3);
        }
    }
}

#[test]
fn numbers_are_written_as_short_as_can_be() {
    assert_eq!(uint(ID_CHANNELS, 255)[1..], [0x81, 255]);
    assert_eq!(uint(ID_CHANNELS, 256)[1..], [0x82, 1, 0]);
    assert_eq!(uint(ID_CHANNELS, u64::MAX)[1..], [0x88, 255, 255, 255, 255, 255, 255, 255, 255]);
    assert_eq!(ebml_string(ID_CODEC_ID, "é")[1..], [0x82, 0xC3, 0xA9]);
    assert_eq!(binary(ID_CODEC_ID, &[1, 2])[1..], [0x82, 1, 2]);
}
