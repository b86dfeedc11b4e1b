use echo::midi::{full_track, generate_melody_mid, model_track, number_events, MidiTiming, MIDI_WALK_LEN};
use midly::num::u15;
use midly::{Format, MetaMessage, Smf, Timing, TrackEventKind};

fn chunk(tag: &[u8], body: &[u8]) -> Vec<u8> {
    let mut out = tag.to_vec();
    out.extend_from_slice(&(body.len() as u32).to_be_bytes());
    out.extend_from_slice(body);
    out
}

/// A two-track model whose second track is note 60, note 62, note 60
/// (the last two written with running status), then the end of track.
fn model() -> Vec<u8> {
    let mut out = chunk(b"MThd", &[0, 1, 0, 2, 0x01, 0xE0]);
    out.extend(chunk(b"MTrk", &[0, 0xFF, 0x2F, 0]));
    out.extend(chunk(
        b"MTrk",
        &[0, 0x90, 0x3C, 0x64, 5, 0x3E, 0x64, 0, 0x3C, 0x64, 0, 0xFF, 0x2F, 0],
    ));
    out
}

#[test]
fn full_track_restores_running_status() {
    let track = vec![
        (0u32, vec![0x90u8, 60, 100]),
        (5, vec![61, 100]),
        (0, vec![0xFF, 0x2F, 0]),
        (0, vec![62, 1]),
    ];
    let full = full_track(&track);
    assert_eq!(
        full,
        vec![
            (0u32, vec![0x90u8, 60, 100]),
            (5, vec![0x90, 61, 100]),
            (0, vec![0xFF, 0x2F, 0]),
            (0, vec![62, 1]),
        ]
    );
}

#[test]
fn number_events_uses_first_occurrence() {
    let a = (0u32, vec![0x90u8, 60, 100]);
    let b = (3u32, vec![0x80u8, 60, 0]);
    let c = (3u32, vec![0x80u8, 61, 0]);
    let ids = number_events(&vec![a.clone(), b.clone(), a.clone(), c, b]);
    assert_eq!(ids, vec![0, 1, 0, 3, 1]);
}

#[test]
fn generate_melody_mid_refuses_garbage() {
    assert_eq!(generate_melody_mid(&[1, 2, 3, 4], 0), None);
}

#[test]
fn generate_melody_mid_needs_a_second_track() {
    let mut single = chunk(b"MThd", &[0, 0, 0, 1, 0x01, 0xE0]);
    single.extend(chunk(b"MTrk", &[0, 0x90, 0x3C, 0x64, 0, 0xFF, 0x2F, 0]));
    assert_eq!(generate_melody_mid(&single, 0), None);
}

#[test]
fn generate_melody_mid_needs_two_events() {
    let mut short = chunk(b"MThd", &[0, 1, 0, 2, 0x01, 0xE0]);
    short.extend(chunk(b"MTrk", &[0, 0xFF, 0x2F, 0]));
    short.extend(chunk(b"MTrk", &[0, 0xFF, 0x2F, 0]));
    assert_eq!(generate_melody_mid(&short, 0), None);
}

fn check_generated(out: &[u8], timing: Timing) {
    let smf = Smf::parse(out).unwrap();
    assert_eq!(smf.header.format, Format::SingleTrack);
    assert_eq!(smf.header.timing, timing);
    assert_eq!(smf.tracks.len(), 1);
    let track = &smf.tracks[0];
    assert_eq!(track.len(), MIDI_WALK_LEN + 1);
    assert_eq!(track[MIDI_WALK_LEN].kind, TrackEventKind::Meta(MetaMessage::EndOfTrack));
    assert_eq!(track[MIDI_WALK_LEN].delta.as_int(), 0);
    for ev in track.iter() {
        let ok = match ev.kind {
            TrackEventKind::Midi { channel, message: midly::MidiMessage::NoteOn { key, vel } } => {
                channel.as_int() == 0
                    && vel.as_int() == 100
                    && ((key.as_int() == 60 && ev.delta.as_int() == 0)
                        || (key.as_int() == 62 && ev.delta.as_int() == 5))
            }
            TrackEventKind::Meta(MetaMessage::EndOfTrack) => ev.delta.as_int() == 0,
            _ => false,
        };
        assert!(ok);
    }
    // The writer uses running status between the note events, so the file is
    // shorter than one that writes every status.
    assert!(out.len() < 22 + 4 * MIDI_WALK_LEN + 4);
}

#[test]
fn generate_melody_mid_keeps_the_model_timing() {
    let out = generate_melody_mid(&model(), 0).unwrap();
    assert_eq!(&out[0..14], &[b'M', b'T', b'h', b'd', 0, 0, 0, 6, 0, 0, 0, 1, 0x01, 0xE0]);
    check_generated(&out, Timing::Metrical(u15::new(480)));
}

#[test]
fn generate_melody_mid_sets_the_metric() {
    let out = generate_melody_mid(&model(), 96).unwrap();
    check_generated(&out, Timing::Metrical(u15::new(96)));
    let out = generate_melody_mid(&model(), 0x8060).unwrap();
    check_generated(&out, Timing::Metrical(u15::new(96)));
}

fn two_track_file(track: &[u8]) -> Vec<u8> {
    let mut out = chunk(b"MThd", &[0, 1, 0, 2, 0x01, 0xE0]);
    out.extend(chunk(b"MTrk", &[0, 0xFF, 0x2F, 0]));
    out.extend(chunk(b"MTrk", track));
    out
}

#[test]
fn model_track_numbers_events_as_midly_reads_them() {
    let track = [
        0, 0x90, 0x3C, 0x64, // note 60
        0, 0xFF, 0x01, 0x05, b'h', b'e', b'l', b'l', b'o', // text
        0, 0x90, 0x3C, 0x64, // note 60 again
        0, 0xFF, 0x01, 0x80, 0x05, b'h', b'e', b'l', b'l', b'o', // the same text, its length on two bytes
        0, 0xFF, 0x51, 0x03, 0x07, 0xA1, 0x20, // tempo
        0, 0xFF, 0x51, 0x04, 0x07, 0xA1, 0x20, 0x99, // the same tempo with a stray byte
        0, 0xFF, 0x2F, 0, // end of track
    ];
    let (timing, events, ids) = model_track(&two_track_file(&track)).unwrap();
    assert!(matches!(timing, MidiTiming::Metrical(480)));
    assert_eq!(ids, vec![0, 1, 0, 1, 4, 4, 6]);
    assert_eq!(events.len(), 7);
    assert_eq!(events[3], (0u32, vec![0xFF, 0x01, 0x80, 0x05, b'h', b'e', b'l', b'l', b'o']));
}

#[test]
fn model_track_tells_deltas_apart() {
    let track = [0, 0x90, 0x3C, 0x64, 7, 0x3C, 0x64, 0, 0x3C, 0x64, 0x87, 0x00, 0xFF, 0x2F, 0];
    let (_, events, ids) = model_track(&two_track_file(&track)).unwrap();
    assert_eq!(ids, vec![0, 1, 0, 3]);
    assert_eq!(events[1], (7u32, vec![0x90, 0x3C, 0x64]));
    assert_eq!(events[3].0, 0x380);
}

#[test]
fn model_track_refuses_short_tracks() {
    assert!(model_track(&[0u8, 1, 2]).is_none());
    assert!(model_track(&two_track_file(&[0, 0xFF, 0x2F, 0])).is_none());
}
