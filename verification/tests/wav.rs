//! The sound files that takes are kept in.

use net::render::audio::{next_cursor, seal_len, BlockCount, Noise, BLOCK, NOISE_SEED};
use net::render::wav::{parse_mono_44k, replay_sample, wav_bytes, WavError, SAMPLE_RATE};

#[test]
fn round_trips_through_writer() {
    let pcm: Vec<i16> = [0i16, 1, -1, i16::MAX, i16::MIN, 12345].into();
    let parsed = parse_mono_44k(&wav_bytes(&pcm)).unwrap();
    assert_eq!(parsed.len(), pcm.len());
    for (f, i) in parsed.iter().zip(&pcm) {
        assert!((*f as f32 / 32768.0 - *i as f32 / 32768.0).abs() < 1e-6);
    }
}

#[test]
fn rejects_wrong_format() {
    let mut stereo = wav_bytes(&[0i16; 8]);
    stereo[22] = 2; // channels field
    assert!(parse_mono_44k(&stereo).unwrap_err().text().contains("2 ch"));

    let mut wrong_rate = wav_bytes(&[0i16; 8]);
    wrong_rate[24..28].copy_from_slice(&48_000u32.to_le_bytes());
    assert!(parse_mono_44k(&wrong_rate).unwrap_err().text().contains("48000 Hz"));

    assert!(parse_mono_44k(b"not audio at all").is_err());
}

#[test]
fn every_refusal_has_its_input() {
    let good = wav_bytes(&[1i16, 2, 3]);
    assert_eq!(parse_mono_44k(&good[..8]), Err(WavError::NotWave));
    assert_eq!(parse_mono_44k(&good[..good.len() - 1]), Err(WavError::TruncatedChunk));
    assert_eq!(parse_mono_44k(&good[..36]), Err(WavError::NoData));
    let mut short_fmt = b"RIFF\x00\x00\x00\x00WAVEfmt \x02\x00\x00\x00ab".to_vec();
    assert_eq!(parse_mono_44k(&short_fmt), Err(WavError::FmtTooShort));
    short_fmt.clear();
    short_fmt.extend(&good[..12]);
    short_fmt.extend(&good[36..]);
    assert_eq!(parse_mono_44k(&short_fmt), Err(WavError::DataBeforeFmt));
}

#[test]
fn foreign_chunks_are_skipped() {
    let good = wav_bytes(&[7i16, -7]);
    let mut with_list = good[..36].to_vec();
    with_list.extend(b"LIST\x03\x00\x00\x00abc\x00");
    with_list.extend(&good[36..]);
    assert_eq!(parse_mono_44k(&with_list), Ok(vec![7i16, -7]), "an odd chunk is padded");
}

#[test]
fn the_header_says_what_follows() {
    let b = wav_bytes(&[258i16]);
    assert_eq!(&b[..4], b"RIFF");
    assert_eq!(&b[4..8], &38u32.to_le_bytes());
    assert_eq!(&b[24..28], &SAMPLE_RATE.to_le_bytes());
    assert_eq!(&b[40..], &[2, 0, 0, 0, 2, 1]);
}

#[test]
fn a_replay_is_what_the_float_path_plays() {
    for v in i16::MIN..=i16::MAX {
        let heard = v as f32 / 32768.0;
        let again = (heard.clamp(-1.0, 1.0) * 32767.0) as i16;
        assert_eq!(replay_sample(v), again, "sample {v}");
    }
}

#[test]
fn noise_and_blocks_go_round() {
    let mut n = Noise::new();
    assert_eq!(n.state, NOISE_SEED);
    let mut x = NOISE_SEED;
    for _ in 0..100 {
        x ^= x << 13;
        x ^= x >> 17;
        x ^= x << 5;
        assert_eq!(n.white(), x);
    }
    let mut b = BlockCount { left: 0 };
    let starts = (0..3 * BLOCK).filter(|_| b.tick()).count();
    assert_eq!(starts, 3);
    assert_eq!((next_cursor(0, 3), next_cursor(2, 3)), (1, 0));
    assert_eq!(seal_len(2 * SAMPLE_RATE as usize), (SAMPLE_RATE / 2) as usize);
    assert_eq!(seal_len(100), 25);
}
