//! Sample-level audio editing: WAV framing, effects on 16-bit PCM
//! samples, pitch detection, music recognition and Markov melodies.

pub mod compress;
pub mod wav;
pub mod random;
pub mod stereo;
pub mod inverse;
pub mod fusion;
pub mod resonance;
pub mod edit;
pub mod spectrum;
pub mod music_detect;
pub mod noise;
pub mod melody;
pub mod compose;
pub mod training;
pub mod midi;
pub mod tune;
pub mod convert;
pub mod laws;
