use echo::midi::{midi_walk, MIDI_WALK_LEN};
use echo::tune::tune_target;

#[test]
fn midi_walk_follows_the_track() {
    let track = vec![1u32, 2, 1, 3];
    for _ in 0..10 {
        let w = midi_walk(&track);
        assert_eq!(w.len(), MIDI_WALK_LEN);
        assert!(w[0] == 1 || w[0] == 2);
        for k in 0..w.len() - 1 {
            match w[k] {
                1 => assert!(w[k + 1] == 2 || w[k + 1] == 3),
                2 => assert_eq!(w[k + 1], 1),
                _ => assert!(w[k + 1] == 1 || w[k + 1] == 2 || w[k + 1] == 3),
            }
        }
    }
}

#[test]
fn midi_walk_of_a_cycle_is_determined_by_its_start() {
    let track = vec![5u32, 6, 5];
    let w = midi_walk(&track);
    let start = w[0];
    for k in 0..w.len() {
        let expected = if k % 2 == 0 { start } else { 11 - start };
        assert_eq!(w[k], expected);
    }
}

#[test]
fn midi_walk_jumps_from_an_event_without_follower() {
    let track = vec![8u32, 9];
    let w = midi_walk(&track);
    assert!(w.iter().all(|&e| e == 8 || e == 9));
    assert_eq!(w[0], 8);
    assert_eq!(w[1], 9);
    assert_eq!(w[2], 9);
}

#[test]
fn tune_targets() {
    assert_eq!(tune_target(100, 440, 220), (200, true));
    assert_eq!(tune_target(100, 220, 440), (50, false));
    assert_eq!(tune_target(100, 441, 441), (100, false));
    assert_eq!(tune_target(10, 100, -5), (0, false));
}
