use basinski::aac::{adts_header, recover};
use basinski::forensics::adts_frame_at;

#[test]
fn adts_header_round_trips_length_and_rate() {
    let h = adts_header(1000, 4, 2); // 44.1k stereo, 1000-byte payload
    assert_eq!(h[0], 0xFF);
    assert_eq!(h[1] & 0xF6, 0xF0); // sync + layer
    // sampling_frequency_index back out of bits
    assert_eq!((h[2] >> 2) & 0x0F, 4);
    // channel_configuration
    assert_eq!(((h[3] >> 6) & 3) | ((h[2] & 1) << 2), 2);
    // aac_frame_length back out of the 13 split bits
    let len = (((h[3] & 3) as u32) << 11) | ((h[4] as u32) << 3) | ((h[5] as u32) >> 5);
    assert_eq!(len, 1007);
}

fn chunk(lead: u8, fill: u8, n: usize) -> Vec<u8> {
    let mut v = vec![lead];
    v.extend(std::iter::repeat_n(fill, n));
    v
}

#[test]
fn carves_aac_gaps_and_skips_garbage() {
    // media: [aac chunk 0x21..][non-aac 0x99..][aac chunk]
    let mut media = Vec::new();
    let aac1 = chunk(0x21, 0x5A, 200);
    let junk = chunk(0x99, 0x00, 200);
    let aac2 = chunk(0x21, 0x3C, 150);
    let g1 = (media.len(), aac1.len());
    media.extend_from_slice(&aac1);
    let g2 = (media.len(), junk.len());
    media.extend_from_slice(&junk);
    let g3 = (media.len(), aac2.len());
    media.extend_from_slice(&aac2);

    let r = recover(&media, &[g1, g2, g3], 44100).unwrap();
    assert_eq!(r.chunks, 2);
    assert_eq!(r.skipped, 1);
    // each kept gap gained a 7-byte ADTS header
    assert_eq!(r.adts.len(), aac1.len() + aac2.len() + 14);
    assert_eq!(r.adts[0], 0xFF);
}

#[test]
fn no_aac_means_none() {
    let media = vec![0u8; 500];
    assert!(recover(&media, &[(0, 500)], 44100).is_none());
}

#[test]
fn unknown_rate_means_none() {
    let media = chunk(0x21, 0x5A, 200);
    assert!(recover(&media, &[(0, media.len())], 12345).is_none());
}

#[test]
fn chunks_are_wrapped_verbatim() {
    let media = chunk(0x21, 0x5A, 200);
    let r = recover(&media, &[(0, media.len())], 48000).unwrap();
    assert_eq!(r.adts[..7], adts_header(201, 3, 2));
    assert_eq!(&r.adts[7..], &media[..]);
    assert_eq!((r.chunks, r.skipped), (1, 0));
}

#[test]
fn headers_read_back_as_frames() {
    assert_eq!(adts_header(1000, 4, 2), [0xFF, 0xF1, 0x50, 0x80, 0x7D, 0xFF, 0xFC]);
    let rates = [96000, 88200, 64000, 48000, 44100, 32000, 24000, 22050, 16000, 12000, 11025, 8000];
    for (idx, rate) in rates.into_iter().enumerate() {
        for n in [0usize, 1, 1000, 8184] {
            let h = adts_header(n, idx as u8, 2);
            assert_eq!(adts_frame_at(&h, 0), Some((n + 7, format!("AAC LC {rate} Hz"))));
        }
    }
}
