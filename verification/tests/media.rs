use speaker_studio::wav::{
    chunk_step, flush_live_pcm, fmt_rate, live_pcm_payload, parse_range, pcm_from_le_bytes,
    pcm_le_bytes, riff_is_wave, wav_header, ChunkStep,
};

#[test]
fn range_parses_open_end() {
    assert_eq!(parse_range("bytes=0-", 100), Some((0, 99)));
    assert_eq!(parse_range("bytes=10-20", 100), Some((10, 20)));
    assert_eq!(parse_range("bytes=-10", 100), Some((90, 99)));
}

#[test]
fn range_rejects_what_lies_outside_the_body() {
    assert_eq!(parse_range("bytes=0-", 0), None);
    assert_eq!(parse_range("bytes=100-", 100), None);
    assert_eq!(parse_range("bytes=20-10", 100), None);
    assert_eq!(parse_range("bytes=10", 100), None);
    assert_eq!(parse_range("items=0-5", 100), None);
    assert_eq!(parse_range("bytes=a-5", 100), None);
    assert_eq!(parse_range("bytes=5-b", 100), None);
    assert_eq!(parse_range("bytes=99999999999999999999-", 100), None);
}

#[test]
fn range_clamps_and_trims() {
    assert_eq!(parse_range("  bytes=10-500 \n", 100), Some((10, 99)));
    assert_eq!(parse_range("bytes=+5-", 100), Some((5, 99)));
    assert_eq!(parse_range("bytes=-0", 100), Some((99, 99)));
    assert_eq!(parse_range("bytes=-500", 100), Some((0, 99)));
}

#[test]
fn header_describes_sixteen_khz_mono() {
    let h = wav_header(4);
    assert_eq!(&h[0..4], b"RIFF");
    assert_eq!(&h[4..8], &44u32.to_le_bytes());
    assert_eq!(&h[8..16], b"WAVEfmt ");
    assert_eq!(&h[16..20], &16u32.to_le_bytes());
    assert_eq!(&h[20..24], &[1, 0, 1, 0]);
    assert_eq!(&h[24..28], &16000u32.to_le_bytes());
    assert_eq!(&h[28..32], &32000u32.to_le_bytes());
    assert_eq!(&h[32..36], &[2, 0, 16, 0]);
    assert_eq!(&h[36..40], b"data");
    assert_eq!(&h[40..44], &8u32.to_le_bytes());
}

#[test]
fn header_sizes_saturate() {
    let h = wav_header(u32::MAX);
    assert_eq!(&h[4..8], &u32::MAX.to_le_bytes());
    assert_eq!(&h[40..44], &u32::MAX.to_le_bytes());
}

#[test]
fn header_reads_back_through_the_chunk_walk() {
    let h = wav_header(16002);
    assert!(riff_is_wave(&h[0..12]));
    assert_eq!(chunk_step(&h[12..20], 20), ChunkStep::Format { size: 16, pad: false });
    assert_eq!(fmt_rate(&h[20..36]), 16000);
    assert_eq!(chunk_step(&h[36..44], 44), ChunkStep::Data { pos: 44, size: 32004 });
}

#[test]
fn chunk_walk_skips_other_chunks_and_pads_odd_sizes() {
    assert_eq!(chunk_step(b"LIST\x05\0\0\0", 60), ChunkStep::Skip { size: 5, pad: true });
    assert_eq!(chunk_step(b"fmt \x0e\0\0\0", 20), ChunkStep::Skip { size: 14, pad: false });
    assert!(!riff_is_wave(b"RIFF\0\0\0\0AVI "));
}

#[test]
fn samples_read_back_as_written() {
    let pcm = [0i16, 16000, -32000, 1000, i16::MIN, i16::MAX];
    let bytes = pcm_le_bytes(&pcm);
    assert_eq!(&bytes[0..4], &[0, 0, 0x80, 0x3e]);
    assert_eq!(pcm_from_le_bytes(&bytes), pcm.to_vec());
    assert_eq!(pcm_from_le_bytes(&[1, 2, 3]), vec![0x0201]);
}

#[test]
fn live_audio_goes_out_as_base64() {
    assert_eq!(live_pcm_payload(&[1000, -1000]), "6AMY/A==");
    let mut desktop = vec![1000i16, -1000];
    let mut mic = vec![7i16];
    let batches = flush_live_pcm(&mut desktop, &mut mic);
    assert!(desktop.is_empty() && mic.is_empty());
    assert_eq!(batches.len(), 2);
    assert_eq!(batches[0].source, "desktop");
    assert_eq!(batches[0].pcm, "6AMY/A==");
    assert_eq!(batches[1].source, "mic");
    assert_eq!(batches[1].pcm, "BwA=");
    assert!(flush_live_pcm(&mut desktop, &mut mic).is_empty());
}
