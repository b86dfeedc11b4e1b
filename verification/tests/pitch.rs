use echo::music_detect::{detection_hauteur, find_music, grade_of, init_l_bis, top_five};
use echo::noise::{change_amp_freq, egaliseur_marks, init_l};
use echo::music_detect::pitch_scan;
use echo::music_detect::find_music_checked;
use echo::noise::{egaliseur_marks_checked, period_scan};

fn noise_signal(len: usize, seed: u32) -> Vec<i16> {
    let mut x = seed;
    let mut out = Vec::with_capacity(len);
    for _ in 0..len {
        x = x.wrapping_mul(1103515245).wrapping_add(12345);
        out.push(((x >> 16) % 2001) as i16 - 1000);
    }
    out
}

#[test]
fn window_energy_and_correlation() {
    let s = vec![1, 2, 3, 4, 5, 6];
    assert_eq!(init_l_bis(s.clone(), 2, 2), (86, 11, 64));
    assert_eq!(init_l_bis(s, 0, 3), (0, 0, 0));
}

#[test]
fn init_l_puts_the_window_last() {
    let (e, h, r) = init_l(vec![1, 2, 3, 4, 5, 6], 2, 0, 2);
    assert_eq!(e, vec![0, 0, 86]);
    assert_eq!(h, vec![0, 0, 11]);
    assert_eq!(r, vec![0, 0, 64]);
    let (e0, h0, r0) = init_l(vec![], 0, 0, 0);
    assert_eq!((e0, h0, r0), (vec![0], vec![0], vec![0]));
}

#[test]
fn silence_has_an_empty_histogram() {
    assert_eq!(detection_hauteur(vec![0; 2640], 1), vec![0; 56]);
    assert_eq!(detection_hauteur(vec![0; 8000], 3), vec![0; 56]);
}

#[test]
fn histogram_has_no_entry_below_two() {
    let h = detection_hauteur(noise_signal(8000, 7), 1);
    assert_eq!(h.len(), 56);
    assert_eq!(h[0], 0);
    assert_eq!(h[1], 0);
    assert!(h.iter().all(|&c| c >= 0));
}

#[test]
fn top_five_orders_by_count_then_longer_period() {
    let mut c = vec![0i64; 56];
    c[10] = 7;
    c[20] = 7;
    c[30] = 3;
    c[40] = 9;
    c[2] = 1;
    assert_eq!(top_five(&c), vec![40, 20, 10, 30, 2]);
    assert_eq!(top_five(&vec![0; 56]), vec![55, 54, 53, 52, 51]);
}

#[test]
fn grades() {
    let r = vec![55, 54, 53, 52, 51];
    assert_eq!(grade_of(&r, &r), 225);
    assert_eq!(grade_of(&r, &vec![54, 55, 53, 52, 51]), 162);
    assert_eq!(grade_of(&r, &vec![2, 3, 4, 5, 6]), 0);
    assert_eq!(grade_of(&r, &vec![51, 2, 3, 4, 5]), 10);
}

#[test]
fn find_music_of_no_candidate_is_zero() {
    assert_eq!(find_music(vec![], noise_signal(8000, 3), 1), 0);
}

#[test]
fn the_reference_itself_grades_highest() {
    let reference = noise_signal(8000, 11);
    let silent = vec![0i16; 8000];
    let ref_top = top_five(&detection_hauteur(reference.clone(), 1));
    assert_eq!(grade_of(&ref_top, &ref_top), 225);
    let silent_grade = grade_of(&ref_top, &top_five(&detection_hauteur(silent.clone(), 1)));
    assert!(silent_grade <= 225);
    let expected = if silent_grade == 225 { 0 } else { 1 };
    assert_eq!(find_music(vec![silent.clone(), reference.clone()], reference.clone(), 1), expected);
    assert_eq!(find_music(vec![reference.clone(), silent], reference, 1), 0);
}

#[test]
fn find_music_returns_the_first_best() {
    let reference = noise_signal(8000, 5);
    let other = noise_signal(8000, 99);
    let ref_top = top_five(&detection_hauteur(reference.clone(), 1));
    let grades: Vec<usize> = [other.clone(), reference.clone(), reference.clone()]
        .iter()
        .map(|s| grade_of(&ref_top, &top_five(&detection_hauteur(s.clone(), 1))))
        .collect();
    let mut best = 0;
    for i in 1..grades.len() {
        if grades[i] > grades[best] {
            best = i;
        }
    }
    assert_eq!(find_music(vec![other, reference.clone(), reference.clone()], reference, 1), best);
}

#[test]
fn period_scan_marks_found_periods() {
    let s = vec![0, 1, 0, 0, 0, 0, 0, 0];
    assert_eq!(change_amp_freq(s, 1, 1, 0, vec![0; 8]), vec![0, 1, 0, 0, 0, 0, 0, 0]);
}

#[test]
fn period_scan_of_silence_marks_nothing() {
    let s = vec![0i16; 30];
    assert_eq!(change_amp_freq(s, 2, 3, 0, vec![0; 30]), vec![0; 30]);
}

#[test]
fn period_scan_keeps_earlier_marks() {
    let s = vec![0i16; 12];
    let mut marks = vec![0i16; 12];
    marks[11] = 1;
    assert_eq!(change_amp_freq(s, 1, 2, 0, marks.clone()), marks);
}

#[test]
fn equalizer_marks_each_period_in_range() {
    let s = vec![0, 1, 0, 0, 0, 0, 0, 0, 0];
    assert_eq!(egaliseur_marks(s, 1, 22050, 22050), vec![0, 1, 0, 0, 0, 0, 0, 0, 0]);
}

#[test]
fn pitch_scan_reports_overflowing_products() {
    assert_eq!(pitch_scan(&vec![0i16; 3000], i64::MAX), Some(vec![0i64; 56]));
    assert_eq!(pitch_scan(&noise_signal(8000, 7), i64::MAX), None);
    let s = noise_signal(8000, 7);
    assert_eq!(pitch_scan(&s, 1), Some(detection_hauteur(s.clone(), 1)));
}

#[test]
fn checked_recognition() {
    let reference = noise_signal(8000, 21);
    let sounds = vec![vec![0i16; 8000], reference.clone()];
    assert_eq!(
        find_music_checked(&sounds, &reference, 1),
        Some(find_music(sounds.clone(), reference.clone(), 1))
    );
    assert_eq!(find_music_checked(&sounds, &reference, i64::MAX), None);
    assert_eq!(find_music_checked(&vec![], &vec![0i16; 3000], 5), Some(0));
}

#[test]
fn checked_period_scans() {
    assert_eq!(period_scan(&vec![0, 1, 0, 0, 0, 0, 0, 0], 1, 1, 0, vec![0; 8]), Some(vec![0, 1, 0, 0, 0, 0, 0, 0]));
    assert_eq!(period_scan(&vec![0, 1, 0, 0, 0, 0, 0, 0], i64::MAX, 1, 0, vec![0; 8]), Some(vec![0; 8]));
    assert_eq!(period_scan(&vec![0, 2, 0, 0, 0, 0, 0, 0], i64::MAX, 1, 0, vec![0; 8]), None);
    let s = vec![0, 1, 0, 0, 0, 0, 0, 0, 0];
    assert_eq!(egaliseur_marks_checked(&s, 1, 22050, 22050), Some(vec![0, 1, 0, 0, 0, 0, 0, 0, 0]));
    assert_eq!(egaliseur_marks_checked(&s, 1, 22050, 44100), Some(vec![0, 1, 0, 0, 0, 0, 0, 0, 0]));
    assert_eq!(egaliseur_marks_checked(&s, 1, 22050, 50000), None);
    assert_eq!(egaliseur_marks_checked(&s, 1, 11025, 22050), None);
}

#[test]
fn period_zero_marks_nothing() {
    let s = vec![5, 1, 0, 4, 2, 3];
    assert_eq!(change_amp_freq(s.clone(), -1, 0, 0, vec![0; 6]), vec![0; 6]);
    assert_eq!(change_amp_freq(s, 3, 0, 7, vec![1, 0, 0, 0, 0, 0]), vec![1, 0, 0, 0, 0, 0]);
}
