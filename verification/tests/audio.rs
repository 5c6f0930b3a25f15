use localasr::audio::{downmix_i16, encode_wav};

#[test]
fn downmix_stereo_to_mono() {
    let stereo = vec![100, -100, 200, -200, 50, 50];
    let mono = downmix_i16(&stereo, 2);
    assert_eq!(mono, vec![0, 0, 50]);
}

#[test]
fn downmix_rounds_toward_zero_and_drops_partial_frame() {
    assert_eq!(downmix_i16(&[1, 2, -1, -2, 9], 2), vec![1, -1]);
    assert_eq!(downmix_i16(&[i16::MIN, i16::MIN, i16::MAX, i16::MAX], 2), vec![i16::MIN, i16::MAX]);
    assert_eq!(downmix_i16(&[1, 1, 1, 5, 5, 6], 3), vec![1, 5]);
}

#[test]
fn downmix_single_channel_passes_through() {
    assert_eq!(downmix_i16(&[3, -4, 5], 1), vec![3, -4, 5]);
}

#[test]
fn encode_wav_writes_riff_header_and_samples() {
    let bytes = encode_wav(&[1, -2], 16000);
    assert_eq!(bytes.len(), 48);
    assert_eq!(&bytes[0..4], b"RIFF");
    assert_eq!(&bytes[4..8], &40u32.to_le_bytes());
    assert_eq!(&bytes[8..16], b"WAVEfmt ");
    assert_eq!(&bytes[16..20], &16u32.to_le_bytes());
    assert_eq!(&bytes[20..22], &1u16.to_le_bytes());
    assert_eq!(&bytes[22..24], &1u16.to_le_bytes());
    assert_eq!(&bytes[24..28], &16000u32.to_le_bytes());
    assert_eq!(&bytes[28..32], &32000u32.to_le_bytes());
    assert_eq!(&bytes[32..34], &2u16.to_le_bytes());
    assert_eq!(&bytes[34..36], &16u16.to_le_bytes());
    assert_eq!(&bytes[36..40], b"data");
    assert_eq!(&bytes[40..44], &4u32.to_le_bytes());
    assert_eq!(&bytes[44..48], &[1, 0, 0xFE, 0xFF]);
}

#[test]
fn encode_wav_empty_is_header_only() {
    let bytes = encode_wav(&[], 8000);
    assert_eq!(bytes.len(), 44);
    assert_eq!(&bytes[40..44], &0u32.to_le_bytes());
}
