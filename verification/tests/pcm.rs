use echo::convert::{pcm_frames, wav_pcm_frames};

fn wav_bytes(channels: u16, rate: u32, samples: &[i16]) -> Vec<u8> {
    let data_len = (samples.len() * 2) as u32;
    let mut out = Vec::new();
    out.extend_from_slice(b"RIFF");
    out.extend_from_slice(&(36 + data_len).to_le_bytes());
    out.extend_from_slice(b"WAVEfmt ");
    out.extend_from_slice(&16u32.to_le_bytes());
    out.extend_from_slice(&1u16.to_le_bytes());
    out.extend_from_slice(&channels.to_le_bytes());
    out.extend_from_slice(&rate.to_le_bytes());
    out.extend_from_slice(&(rate * 2 * channels as u32).to_le_bytes());
    out.extend_from_slice(&(2 * channels).to_le_bytes());
    out.extend_from_slice(&16u16.to_le_bytes());
    out.extend_from_slice(b"data");
    out.extend_from_slice(&data_len.to_le_bytes());
    for s in samples {
        out.extend_from_slice(&s.to_le_bytes());
    }
    out
}

#[test]
fn pcm_frames_cuts_by_channel_count() {
    assert_eq!(pcm_frames(&vec![1, 2, 3, 4, 5, 6], 2), vec![vec![1, 2], vec![3, 4], vec![5, 6]]);
    assert_eq!(pcm_frames(&vec![1, 2, 3, 4, 5], 2), vec![vec![1, 2], vec![3, 4], vec![5]]);
    assert_eq!(pcm_frames(&vec![7, 8, 9], 1), vec![vec![7], vec![8], vec![9]]);
    assert_eq!(pcm_frames(&vec![], 3), Vec::<Vec<i16>>::new());
}

#[test]
fn wav_pcm_frames_decodes_a_stereo_file() {
    let bytes = wav_bytes(2, 8000, &[1, -2, 3, 4, 5, -6]);
    let (channels, rate, frames) = wav_pcm_frames(&bytes).unwrap();
    assert_eq!(channels, 2);
    assert_eq!(rate, 8000);
    assert_eq!(frames, vec![vec![1, -2], vec![3, 4], vec![5, -6]]);
}

#[test]
fn wav_pcm_frames_decodes_a_mono_file() {
    let bytes = wav_bytes(1, 44100, &[-32768, 0, 32767]);
    let (channels, rate, frames) = wav_pcm_frames(&bytes).unwrap();
    assert_eq!((channels, rate), (1, 44100));
    assert_eq!(frames, vec![vec![-32768], vec![0], vec![32767]]);
}

#[test]
fn wav_pcm_frames_refuses_garbage() {
    assert!(matches!(wav_pcm_frames(&[0u8; 10]), Err(Some(_))));
    match wav_pcm_frames(b"RIFF0000WAVExxxx") {
        Err(Some(text)) => assert!(!text.is_empty()),
        other => panic!("unexpected {:?}", other),
    }
    // A header claiming more samples than the file holds: the header reads,
    // a sample does not.
    let mut short = wav_bytes(1, 8000, &[1, 2, 3, 4]);
    short.truncate(short.len() - 3);
    assert_eq!(wav_pcm_frames(&short), Err(None));
}
