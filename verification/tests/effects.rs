use echo::compress::{compression, compression2};
use echo::edit::{mute_between_indices, repeat_section_indices, repeat_segment_indices};
use echo::fusion::{ambience, ambience_file, mix_samples};
use echo::inverse::{inverse_sound, reverse_vec};
use echo::noise::{lissage_mobile, lissage_mobile_checked, threshold};
use echo::resonance::{reso_echo, ECHO_DELAY};
use echo::stereo::right_wav;
use echo::wav::WavReader;

#[test]
fn compression_keeps_every_other_sample() {
    let (kept, bytes) = compression(vec![1, 2, 3, 4, 5]);
    assert_eq!(kept, vec![1, 3, 5]);
    assert_eq!(bytes, 6);
}

#[test]
fn compression_of_nothing_is_nothing() {
    let (kept, bytes) = compression(vec![]);
    assert!(kept.is_empty());
    assert_eq!(bytes, 0);
}

#[test]
fn compression_of_even_length() {
    let (kept, bytes) = compression(vec![7, -7, 8, -8]);
    assert_eq!(kept, vec![7, 8]);
    assert_eq!(bytes, 4);
}

#[test]
fn compression2_drops_every_third_sample() {
    assert_eq!(compression2(vec![1, 2, 3, 4, 5, 6, 7]), vec![1, 2, 4, 5, 7]);
    assert_eq!(compression2(vec![1, 2, 3]), vec![1, 2]);
    assert_eq!(compression2(vec![1, 2]), vec![1, 2]);
    assert!(compression2(vec![]).is_empty());
}

#[test]
fn inverse_plays_backwards() {
    assert_eq!(inverse_sound(vec![1, 2, 3]), vec![3, 2, 1]);
    assert_eq!(reverse_vec(&vec![5, -6, 7, -8]), vec![-8, 7, -6, 5]);
    assert!(inverse_sound(vec![]).is_empty());
}

#[test]
fn inverse_twice_gives_the_signal_back() {
    let s = vec![3, -1, 4, -1, 5, -9, 2];
    assert_eq!(inverse_sound(inverse_sound(s.clone())), s);
}

#[test]
fn right_wav_silences_even_positions() {
    assert_eq!(right_wav(vec![1, 2, 3, 4, 5]), vec![0, 2, 0, 4, 0]);
    assert!(right_wav(vec![]).is_empty());
}

#[test]
fn right_wav_twice_changes_nothing_more() {
    let s = vec![9, 8, 7, 6, 5, 4];
    let once = right_wav(s);
    assert_eq!(right_wav(once.clone()), once);
}

#[test]
fn mix_adds_samples_and_pads_the_shorter() {
    assert_eq!(mix_samples(vec![1, 2, 3], vec![10, 20]), vec![11, 22, 3]);
}

#[test]
fn mix_clamps_sums_that_do_not_fit() {
    assert_eq!(mix_samples(vec![30000], vec![10000]), vec![32767]);
    assert_eq!(mix_samples(vec![-30000], vec![-10000]), vec![-32768]);
    assert_eq!(mix_samples(vec![32767, -32768], vec![1, -1]), vec![32767, -32768]);
}

#[test]
fn mix_is_symmetric() {
    let a = vec![100, -20000, 30000, 5];
    let b = vec![-7, -20000, 5000];
    assert_eq!(mix_samples(a.clone(), b.clone()), mix_samples(b, a));
}

#[test]
fn mix_with_silence_changes_nothing() {
    let s = vec![4, -5, 6];
    assert_eq!(mix_samples(s.clone(), vec![]), s);
    assert_eq!(mix_samples(vec![], s.clone()), s);
}

#[test]
fn ambience_files_by_number() {
    assert_eq!(ambience_file(1), Some("../../../src/sounds/Ambiances/Sample_04.wav"));
    assert_eq!(ambience_file(2), Some("../../../src/sounds/Ambiances/cave.wav"));
    assert_eq!(ambience_file(3), Some("../../../src/sounds/Ambiances/rain.wav"));
    assert_eq!(ambience_file(0), None);
    assert_eq!(ambience_file(4), None);
}

#[test]
fn ambience_mixes_the_background_in() {
    assert_eq!(ambience(vec![1, 2], 2, vec![10, 10, 10]), vec![11, 12, 10]);
    assert_eq!(ambience(vec![1, 2], 7, vec![10, 10, 10]), vec![1, 2]);
}

#[test]
fn echo_adds_half_then_quarter_volume() {
    let n = 2 * ECHO_DELAY + 100;
    let out = reso_echo(vec![100; n]);
    assert_eq!(out.len(), n);
    assert_eq!(out[0], 100);
    assert_eq!(out[ECHO_DELAY - 1], 100);
    assert_eq!(out[ECHO_DELAY], 150);
    assert_eq!(out[2 * ECHO_DELAY - 1], 150);
    assert_eq!(out[2 * ECHO_DELAY], 125);
}

#[test]
fn echo_rounds_toward_zero_and_clamps() {
    let mut s = vec![0i16; ECHO_DELAY + 3];
    s[0] = -101;
    s[1] = 32767;
    s[2] = 3;
    s[ECHO_DELAY] = -100;
    s[ECHO_DELAY + 1] = 32000;
    s[ECHO_DELAY + 2] = 0;
    let out = reso_echo(s);
    assert_eq!(out[ECHO_DELAY], -150);
    assert_eq!(out[ECHO_DELAY + 1], 32767);
    assert_eq!(out[ECHO_DELAY + 2], 1);
}

#[test]
fn echo_of_a_short_signal_is_the_signal() {
    let s = vec![1, 2, 3];
    assert_eq!(reso_echo(s.clone()), s);
}

#[test]
fn mute_between_silences_both_ends_included() {
    assert_eq!(mute_between_indices(vec![1, 2, 3, 4, 5], 1, 3), vec![1, 0, 0, 0, 5]);
    assert_eq!(mute_between_indices(vec![1, 2, 3], 2, 1), vec![1, 2, 3]);
}

#[test]
fn mute_twice_changes_nothing_more() {
    let once = mute_between_indices(vec![5, 6, 7, 8], 0, 1);
    assert_eq!(mute_between_indices(once.clone(), 0, 1), once);
}

#[test]
fn repeat_section_repeats_the_inclusive_range() {
    assert_eq!(repeat_section_indices(vec![1, 2, 3, 4, 5], 1, 2, 3), vec![2, 3, 2, 3, 2, 3]);
    assert!(repeat_section_indices(vec![1, 2, 3], 0, 2, 0).is_empty());
}

#[test]
fn repeat_segment_inserts_the_repetitions() {
    assert_eq!(repeat_segment_indices(vec![1, 2, 3, 4, 5], 1, 3, 2), vec![1, 2, 3, 2, 3, 4, 5]);
    assert_eq!(repeat_segment_indices(vec![1, 2, 3, 4, 5], 1, 3, 0), vec![1, 4, 5]);
}

#[test]
fn repeat_segment_once_is_identity() {
    let s = vec![9, 8, 7, 6, 5];
    assert_eq!(repeat_segment_indices(s.clone(), 1, 4, 1), s);
}

#[test]
fn smoothing_by_three() {
    assert_eq!(lissage_mobile(vec![10, 20, 30, 40, 50], 3), vec![10, 19, 29, 39, 50]);
}

#[test]
fn smoothing_by_five_near_the_ends() {
    assert_eq!(lissage_mobile(vec![5, 10, 15, 20, 25, 30, 35], 5), vec![5, 0, 15, 20, 25, 29, 35]);
}

#[test]
fn smoothing_rounds_each_quotient_toward_zero() {
    assert_eq!(lissage_mobile(vec![0, -10, -10, -10, 0], 3), vec![0, -6, -9, -6, 0]);
}

#[test]
fn smoothing_a_single_sample() {
    assert_eq!(lissage_mobile(vec![42], 1), vec![42]);
}

fn reader_with(samples: Vec<i16>) -> WavReader {
    let mut w = WavReader::new("mem.wav");
    w.set_samples(samples);
    w
}

#[test]
fn threshold_silences_loud_samples() {
    let mut w = reader_with(vec![100, -100, 50, -50, 0]);
    threshold(&mut w, 60, true, true);
    assert_eq!(w.samples, vec![0, 0, 50, -50, 0]);
    let mut w = reader_with(vec![100, -100, 50, -50, 0]);
    threshold(&mut w, 60, true, false);
    assert_eq!(w.samples, vec![0, -100, 50, -50, 0]);
    let mut w = reader_with(vec![100, -100, 50, -50, 0]);
    threshold(&mut w, 60, false, true);
    assert_eq!(w.samples, vec![100, 0, 50, -50, 0]);
}

#[test]
fn threshold_reads_large_values_as_negative() {
    let mut w = reader_with(vec![30000, 100, -30000]);
    threshold(&mut w, 40000, false, true);
    assert_eq!(w.samples, vec![30000, 0, 0]);
}

#[test]
fn threshold_twice_changes_nothing_more() {
    let mut w = reader_with(vec![7, -70, 700, -7000]);
    threshold(&mut w, 100, true, true);
    let once = w.samples.clone();
    threshold(&mut w, 100, true, true);
    assert_eq!(w.samples, once);
    assert_eq!(w.path(), "mem.wav".to_string());
}

#[test]
fn smoothing_needs_an_odd_window() {
    assert_eq!(lissage_mobile_checked(vec![1, 2, 3], 2), None);
    assert_eq!(lissage_mobile_checked(vec![], 3), None);
    assert_eq!(lissage_mobile_checked(vec![10, 20, 30, 40, 50], 3), Some(vec![10, 19, 29, 39, 50]));
}
