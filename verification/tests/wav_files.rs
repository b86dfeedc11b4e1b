use echo::wav::{
    create_wav_bytes, encode_wav, i16_to_le_pair, le_pair_to_i16, mono_header_chunks, pair_up, rate_bytes,
    with_sample_rate, WavReader,
};

#[test]
fn new_reader_has_read_nothing() {
    let w = WavReader::new("song.wav");
    assert_eq!(w.channels, 0);
    assert_eq!(w.sample_rate, 0);
    assert_eq!(w.bits_per_sample, 0);
    assert_eq!(w.data_size, 0);
    assert_eq!(w.bytes_read, 0);
    assert!(w.header.is_empty());
    assert!(w.samples.is_empty());
    assert_eq!(w.path(), "song.wav".to_string());
}

#[test]
fn byte_pairs_decode_little_endian() {
    assert_eq!(le_pair_to_i16(0x34, 0x12), 0x1234);
    assert_eq!(le_pair_to_i16(0, 128), -32768);
    assert_eq!(le_pair_to_i16(255, 255), -1);
    assert_eq!(i16_to_le_pair(-1), (255, 255));
    assert_eq!(i16_to_le_pair(-32768), (0, 128));
    assert_eq!(i16_to_le_pair(300), (44, 1));
}

#[test]
fn every_sample_survives_its_byte_pair() {
    for x in i16::MIN..=i16::MAX {
        let (lo, hi) = i16_to_le_pair(x);
        assert_eq!(le_pair_to_i16(lo, hi), x);
    }
}

#[test]
fn mono_header_holds_the_sample_count() {
    let h = mono_header_chunks(70000);
    assert_eq!(h.len(), 11);
    assert_eq!(h[0], [82, 73, 70, 70]);
    assert_eq!(h[6], [68, 172, 0, 0]);
    assert_eq!(h[10], [112, 17, 1, 0]);
}

#[test]
fn rate_bytes_are_little_endian() {
    assert_eq!(rate_bytes(44100), [68, 172, 0, 0]);
    assert_eq!(rate_bytes(22050), [34, 86, 0, 0]);
    assert_eq!(rate_bytes(0x01020304), [4, 3, 2, 1]);
}

#[test]
fn with_sample_rate_replaces_only_chunk_six() {
    let h = mono_header_chunks(3);
    let h2 = with_sample_rate(h.clone(), 22050);
    assert_eq!(h2.len(), 11);
    assert_eq!(h2[6], [34, 86, 0, 0]);
    for i in 0..11 {
        if i != 6 {
            assert_eq!(h2[i], h[i]);
        }
    }
}

#[test]
fn encode_writes_header_then_sample_bytes() {
    assert_eq!(encode_wav(&vec![[1, 2, 3, 4]], &vec![-1, 258]), vec![1, 2, 3, 4, 255, 255, 2, 1]);
    assert!(encode_wav(&vec![], &vec![]).is_empty());
}

#[test]
fn created_file_layout() {
    let bytes = create_wav_bytes(&vec![1, -2, 300]);
    assert_eq!(bytes.len(), 50);
    assert_eq!(&bytes[0..4], &[82, 73, 70, 70]);
    assert_eq!(&bytes[40..44], &[3, 0, 0, 0]);
    assert_eq!(&bytes[44..50], &[1, 0, 254, 255, 44, 1]);
}

#[test]
fn created_header_reads_back() {
    let bytes = create_wav_bytes(&vec![1, -2, 300]);
    let mut w = WavReader::new("made.wav");
    w.spec(&bytes);
    assert_eq!(w.channels, 1);
    assert_eq!(w.sample_rate, 44100);
    assert_eq!(w.bits_per_sample, 16);
    assert_eq!(w.data_size, 3);
    assert_eq!(w.bytes_read, 44);
    assert_eq!(w.header, mono_header_chunks(3));
}

#[test]
fn samples_are_read_from_the_start_of_the_file() {
    let bytes = create_wav_bytes(&vec![1, -2, 300]);
    let mut w = WavReader::new("made.wav");
    let r = w.get_samples(&bytes);
    // the data size (3) is odd, so the reader goes on until a read gets
    // nothing, and decodes the stale buffer once more
    assert_eq!(r.len(), 26);
    assert_eq!(r[0], 82 + 73 * 256);
    assert_eq!(&r[22..26], &[1, -2, 300, 300]);
    assert_eq!(w.samples, r);
    assert_eq!(w.samples_bytes.len(), 52);
    assert_eq!(w.bytes_read, 94);
    assert_eq!(w.sample_rate, 44100);
}

#[test]
fn written_samples_read_back() {
    let mut w = WavReader::new("out.wav");
    w.header = mono_header_chunks(3);
    w.set_header([50, 0, 0, 0], 10);
    w.set_samples(vec![1, -2, 300]);
    let bytes = w.wav_bytes();
    assert_eq!(bytes.len(), 50);
    let mut back = WavReader::new("out.wav");
    let r = back.get_samples(&bytes);
    assert_eq!(back.data_size, 50);
    assert_eq!(r.len(), 25);
    assert_eq!(&r[22..25], &[1, -2, 300]);
    assert_eq!(back.bytes_read, 94);
}

#[test]
fn short_file_header_keeps_stale_bytes() {
    let bytes: Vec<u8> = (1..=10).collect();
    let mut w = WavReader::new("short.wav");
    w.spec(&bytes);
    assert_eq!(w.header[0], [1, 2, 3, 4]);
    assert_eq!(w.header[1], [5, 6, 7, 8]);
    assert_eq!(w.header[2], [9, 10, 7, 8]);
    assert_eq!(w.header[10], [9, 10, 7, 8]);
    assert_eq!(w.bytes_read, 10);
    assert_eq!(w.channels, 7);
    assert_eq!(w.bits_per_sample, 7);
    assert_eq!(w.data_size, 134679049);
    assert_eq!(w.sample_rate, 134679049);
}

#[test]
fn empty_file_reads_as_zeros() {
    let mut w = WavReader::new("empty.wav");
    let r = w.get_samples(&[]);
    assert_eq!(w.bytes_read, 0);
    assert_eq!(w.header.len(), 11);
    assert_eq!(w.data_size, 0);
    assert!(r.is_empty());
}

#[test]
fn formated_samples_pairs_all_but_the_last() {
    let mut w = WavReader::new("f.wav");
    w.set_samples(vec![1, 2, 3, 4, 5]);
    assert_eq!(w.formated_samples(), vec![[1, 2], [3, 4]]);
    w.set_samples(vec![1, 2, 3, 4]);
    assert_eq!(w.formated_samples(), vec![[1, 2]]);
    assert_eq!(pair_up(&vec![]), Vec::<[i16; 2]>::new());
    assert_eq!(pair_up(&vec![8, 9, 10]), vec![[8, 9]]);
}

#[test]
fn set_header_replaces_one_chunk() {
    let mut w = WavReader::new("h.wav");
    w.header = mono_header_chunks(1);
    w.set_header([9, 9, 9, 9], 3);
    assert_eq!(w.header[3], [9, 9, 9, 9]);
    assert_eq!(w.header[2], [87, 65, 86, 69]);
}

#[test]
fn even_sample_count_stops_inside_the_header() {
    // the created header announces the sample count as the data size; an
    // even count smaller than the header stops the reader early
    let bytes = create_wav_bytes(&vec![1, 2, 3, 4]);
    let mut w = WavReader::new("even.wav");
    let r = w.get_samples(&bytes);
    assert_eq!(r, vec![82 + 73 * 256, 70 + 70 * 256]);
    assert_eq!(w.bytes_read, 48);
}

#[test]
fn reader_to_i16_inverts_the_byte_split() {
    let mut reader = WavReader::new("unused.wav");
    for x in [-32768i16, -256, -1, 0, 1, 255, 256, 0x1234, 32767] {
        let lo = (x & 0b11111111) as u8;
        let hi = (x >> 8) as u8;
        assert_eq!(reader.to_i16(&vec![lo, hi]), x);
    }
    assert_eq!(reader.to_i16(&vec![0x34, 0x12, 0x99]), 0x1234);
}

#[test]
fn reader_compute_from_bytes_is_little_endian() {
    let mut reader = WavReader::new("unused.wav");
    assert_eq!(reader.compute_from_bytes(&[1, 2, 3, 4]), 0x0403_0201);
    assert_eq!(reader.compute_from_bytes(&[0x44, 0xAC, 0, 0]), 44100);
    assert_eq!(reader.compute_from_bytes(&[255, 255, 255, 255]), 0xFFFF_FFFF);
}
