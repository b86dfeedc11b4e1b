use std::collections::HashMap;

use echo::compose::{adjust_audio_length, build_from, generate_music, merge, merge2, random_melody, PAUSE_LEN};
use echo::melody::Note;
use echo::spectrum::{complete_samples, formated_samples, nextpower};

fn ramp(len: usize) -> Vec<i16> {
    (0..len).map(|i| (i % 30000) as i16).collect()
}

fn bank() -> Vec<Vec<i16>> {
    (0..8).map(|c| vec![(c as i16) * 1000 + 1; 20004]).collect()
}

#[test]
fn merge2_into_nothing_keeps_every_second_sample() {
    let mut music: Vec<i16> = Vec::new();
    let note = ramp(20004);
    merge2(&mut music, &note);
    assert_eq!(music.len(), 5002);
    for q in 0..5002 {
        assert_eq!(music[q], (10000 + 2 * q + 1) as i16);
    }
}

#[test]
fn merge2_overwrites_the_last_hundred_samples() {
    let mut music: Vec<i16> = vec![-1; 200];
    let note = ramp(20004);
    merge2(&mut music, &note);
    assert_eq!(music.len(), 200 + 4952);
    assert!(music[..100].iter().all(|&x| x == -1));
    for p in 100..200 {
        assert_eq!(music[p], (10000 + p - 100) as i16);
    }
    for q in 0..4952 {
        assert_eq!(music[200 + q], (10101 + 2 * q) as i16);
    }
}

#[test]
fn merge2_keeps_a_last_unpaired_sample() {
    let mut music: Vec<i16> = Vec::new();
    let note = ramp(20001);
    merge2(&mut music, &note);
    assert_eq!(music.len(), 5001);
    assert_eq!(music[4999], 19999);
    assert_eq!(music[5000], 20000);
}

#[test]
fn merge_writes_a_random_stretch_of_the_padded_note() {
    let mut music: Vec<i16> = vec![-5; 300];
    let note = ramp(20000);
    merge(&mut music, &note);
    assert!(music[..200].iter().all(|&x| x == -5));
    for p in 200..300 {
        assert_eq!(music[p], (10000 + p - 200) as i16);
    }
    // the stretch ends at 20000 or later, before the padded length 32768
    let tail = music.len() - 300;
    assert!(tail >= (20000 - 10100 + 1) / 2);
    assert!(tail <= (32768 - 10100) / 2);
    for q in 0..tail {
        let src = 10101 + 2 * q;
        if src < 20000 {
            assert_eq!(music[300 + q], src as i16);
        } else {
            assert!(music[300 + q] >= 100 && music[300 + q] < 200);
        }
    }
}

#[test]
fn build_from_joins_notes_and_pauses() {
    let b = bank();
    let music = build_from(vec![Note::Re, Note::Pause], &b);
    assert_eq!(music.len(), 5002 + PAUSE_LEN);
    assert!(music[..5002].iter().all(|&x| x == 4001));
    assert!(music[5002..].iter().all(|&x| x == 0));
}

#[test]
fn build_from_overlaps_consecutive_notes() {
    let b = bank();
    let music = build_from(vec![Note::Do, Note::Fa], &b);
    assert_eq!(music.len(), 5002 + 4952);
    assert!(music[..4902].iter().all(|&x| x == 1));
    assert!(music[4902..].iter().all(|&x| x == 1001));
}

#[test]
fn build_from_nothing_is_silence() {
    assert!(build_from(vec![], &bank()).is_empty());
}

#[test]
fn generate_music_lasts_long_enough() {
    let notes: Vec<Vec<i16>> = (0..7).map(|c| vec![c as i16; 20000]).collect();
    let music = generate_music(1, &notes);
    assert!(music.len() >= 44100);
    assert!(generate_music(0, &notes).is_empty());
}

#[test]
fn random_melody_builds_a_walk_of_the_table() {
    let mut m = HashMap::new();
    m.insert(0u8, vec![4u8]);
    m.insert(4u8, vec![0u8]);
    let b = bank();
    let music = random_melody(&m, 3, &b);
    let a = build_from(vec![Note::Do, Note::Re, Note::Do], &b);
    let c = build_from(vec![Note::Re, Note::Do, Note::Re], &b);
    assert!(music == a || music == c);
}

#[test]
fn adjust_pads_the_shorter_with_zeros() {
    let mut a = vec![1, 2];
    let mut b = vec![3];
    adjust_audio_length(&mut a, &mut b);
    assert_eq!(a, vec![1, 2]);
    assert_eq!(b, vec![3, 0]);
    let mut c: Vec<i16> = vec![];
    let mut d = vec![5, 6, 7];
    adjust_audio_length(&mut c, &mut d);
    assert_eq!(c, vec![0, 0, 0]);
    assert_eq!(d, vec![5, 6, 7]);
}

#[test]
fn nextpower_pads_to_a_power_of_two() {
    let mut s = vec![1, 2, 3, 4, 5];
    let added = nextpower(&mut s);
    assert_eq!(added, 3);
    assert_eq!(s.len(), 8);
    assert_eq!(&s[..5], &[1, 2, 3, 4, 5]);
    assert!(s[5..].iter().all(|&x| x >= 100 && x < 200));
}

#[test]
fn nextpower_edge_lengths() {
    let mut empty: Vec<i16> = vec![];
    assert_eq!(nextpower(&mut empty), 2);
    assert_eq!(empty.len(), 2);
    let mut two = vec![7, 8];
    assert_eq!(nextpower(&mut two), 0);
    assert_eq!(two, vec![7, 8]);
    let mut four = vec![1; 4];
    assert_eq!(nextpower(&mut four), 0);
}

#[test]
fn nextpower_pads_with_random_samples() {
    let mut s = vec![0i16; 1025];
    assert_eq!(nextpower(&mut s), 1023);
    assert_eq!(s.len(), 2048);
    let pad = &s[1025..];
    assert!(pad.iter().all(|&x| x >= 100 && x < 200));
    assert!(pad.iter().any(|&x| x != pad[0]));
}

#[test]
fn complete_samples_wraps_around() {
    let mut s = vec![1, 2, 3];
    complete_samples(&mut s, 5);
    assert_eq!(s, vec![1, 2, 3, 1, 2, 3, 1, 2]);
    let mut e: Vec<i16> = vec![];
    complete_samples(&mut e, 0);
    assert!(e.is_empty());
}

#[test]
fn spectrum_pairs_samples() {
    assert_eq!(formated_samples(vec![1, 2, 3, 4, 5]), vec![[1, 2], [3, 4]]);
    assert!(formated_samples(vec![1, 2]).is_empty());
}
