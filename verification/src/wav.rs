use vstd::prelude::*;

verus! {

broadcast use vstd::string::to_string_from_display_ensures_for_str;

/// Little-endian value of four bytes.
pub open spec fn le_u32(b: Seq<u8>) -> int {
    b[0] + 256 * b[1] + 65536 * b[2] + 16777216 * b[3]
}

/// Two's-complement value of the little-endian byte pair `(lo, hi)`.
pub open spec fn le_i16(lo: u8, hi: u8) -> int {
    let v = lo + 256 * hi;
    if v >= 32768 { v - 65536 } else { v }
}

/// Low byte of a sample in two's complement.
pub open spec fn low_byte(x: i16) -> u8 {
    (x as int % 256) as u8
}

/// High byte of a sample in two's complement.
pub open spec fn high_byte(x: i16) -> u8 {
    ((x as int / 256) % 256) as u8
}

/// The buffer after one read at offset `off`: the positions that the file
/// still has take the file's bytes, the others keep what the buffer held.
pub open spec fn refill(f: Seq<u8>, prev: Seq<u8>, off: int) -> Seq<u8> {
    Seq::new(prev.len(), |j: int| if off + j < f.len() { f[off + j] } else { prev[j] })
}

/// The 4-byte buffer after the `k`-th read (counting from 0) of the header.
pub open spec fn header_block(f: Seq<u8>, k: nat) -> Seq<u8>
    decreases k,
{
    let prev = if k == 0 { seq![0u8, 0u8, 0u8, 0u8] } else { header_block(f, (k - 1) as nat) };
    refill(f, prev, 4 * k as int)
}

/// Number of bytes a read of `want` bytes at offset `off` gets from a file of `len` bytes.
pub open spec fn got(len: int, off: int, want: int) -> int {
    if off >= len { 0 } else if len - off < want { len - off } else { want }
}

/// Number of two-byte reads that the sample loop makes on a file of `len`
/// bytes whose header announces `d` data bytes: it stops once exactly `d`
/// bytes were read, or after a read that got nothing.
pub open spec fn sample_reads(len: int, d: int) -> int {
    if d == 0 {
        0
    } else if d % 2 == 0 && d <= len {
        d / 2
    } else if len % 2 == 1 && d == len {
        (len + 1) / 2
    } else {
        (len + 1) / 2 + 1
    }
}

/// Bytes consumed by the sample loop.
pub open spec fn sample_bytes_consumed(len: int, d: int) -> int {
    if 2 * sample_reads(len, d) <= len { 2 * sample_reads(len, d) } else { len }
}

/// The 2-byte buffer after the `k`-th read of the sample loop (`k >= 1`);
/// the buffer starts as two zero bytes.
pub open spec fn pair_buffer(f: Seq<u8>, k: nat) -> Seq<u8>
    decreases k,
{
    if k == 0 {
        seq![0u8, 0u8]
    } else {
        refill(f, pair_buffer(f, (k - 1) as nat), 2 * (k - 1) as int)
    }
}

/// The samples that the sample loop decodes from the file `f` when the
/// header announces `d` data bytes: one sample per read, decoded from the
/// buffer as it stands after that read.
pub open spec fn decoded_samples(f: Seq<u8>, d: int) -> Seq<i16> {
    Seq::new(
        sample_reads(f.len() as int, d) as nat,
        |i: int| le_i16(pair_buffer(f, (i + 1) as nat)[0], pair_buffer(f, (i + 1) as nat)[1]) as i16,
    )
}

/// The raw bytes collected by the sample loop: both buffer bytes of every read.
pub open spec fn decoded_bytes(f: Seq<u8>, d: int) -> Seq<u8> {
    Seq::new(
        (2 * sample_reads(f.len() as int, d)) as nat,
        |i: int| pair_buffer(f, (i / 2 + 1) as nat)[i % 2],
    )
}

/// The header chunks laid end to end.
pub open spec fn flatten_chunks(h: Seq<[u8; 4]>) -> Seq<u8> {
    Seq::new((4 * h.len()) as nat, |i: int| h[i / 4]@[i % 4])
}

/// Every sample as its little-endian byte pair.
pub open spec fn sample_bytes(s: Seq<i16>) -> Seq<u8> {
    Seq::new(
        (2 * s.len()) as nat,
        |i: int| if i % 2 == 0 { low_byte(s[i / 2]) } else { high_byte(s[i / 2]) },
    )
}

/// The pairs `[s[2k], s[2k+1]]` that the pairing loop emits: a pair is
/// emitted when the sample after it is met, so the last pair never is.
pub open spec fn stereo_pairs(s: Seq<i16>) -> Seq<[i16; 2]> {
    Seq::new(
        (if s.len() == 0 { 0 } else { (s.len() - 1) / 2 }) as nat,
        |k: int| [s[2 * k], s[2 * k + 1]],
    )
}

/// Decodes a little-endian byte pair as a two's-complement sample.
pub fn le_pair_to_i16(lo: u8, hi: u8) -> (r: i16)
    ensures
        r as int == le_i16(lo, hi),
{
    let v: i32 = lo as i32 + 256 * (hi as i32);
    if v >= 32768 {
        (v - 65536) as i16
    } else {
        v as i16
    }
}

/// Splits a sample into its little-endian byte pair.
pub fn i16_to_le_pair(x: i16) -> (r: (u8, u8))
    ensures
        r.0 == low_byte(x),
        r.1 == high_byte(x),
{
    let v: i32 = x as i32;
    let u: i32 = if v < 0 { v + 65536 } else { v };
    assert(u as int % 256 == x as int % 256);
    assert((u as int / 256) % 256 == (x as int / 256) % 256);
    ((u % 256) as u8, (u / 256) as u8)
}

/// A WAV file as this library reads it: the header fields, the raw header
/// chunks and the decoded 16-bit samples.
pub struct WavReader {
    pub channels: u8,
    pub sample_rate: u64,
    pub bits_per_sample: u8,
    pub data_size: u32,
    pub bytes_read: usize,
    pub file: String,
    pub header: Vec<[u8; 4]>,
    pub samples: Vec<i16>,
    pub samples_bytes: Vec<u8>,
    pub samples_formated: Vec<[i16; 2]>,
}


/// What reading the header does to a reader: the eleven chunks of the file
/// `f` become the header, and the fields are taken from them.
pub open spec fn reads_header(before: WavReader, after: WavReader, f: Seq<u8>) -> bool {
    &&& after.header@.len() == 11
    &&& forall|k: int| 0 <= k < 11 ==> (#[trigger] after.header@[k])@ == header_block(f, k as nat)
    &&& after.bytes_read == before.bytes_read + got(f.len() as int, 0, 44)
    &&& after.bits_per_sample == header_block(f, 8)[2]
    &&& after.channels == header_block(f, 5)[2]
    &&& after.sample_rate == le_u32(header_block(f, 6))
    &&& after.data_size == le_u32(header_block(f, 10))
    &&& after.file == before.file
    &&& after.samples == before.samples
    &&& after.samples_bytes == before.samples_bytes
    &&& after.samples_formated == before.samples_formated
}

/// The loop of the sample reader stops after its `k`-th read exactly when
/// `k` is the count of reads that `sample_reads` gives.
proof fn lemma_sample_loop_stops(len: int, d: int, k: int)
    requires
        0 <= len,
        0 <= d,
        0 <= k <= sample_reads(len, d),
    ensures
        (k < sample_reads(len, d)) == ((k == 0 || got(len, 2 * k - 2, 2) != 0) && (if 2 * k <= len { 2 * k } else { len }) != d),
{
}

impl WavReader {
    /// A reader for the file at `path`; nothing is read yet.
    pub fn new(path: &str) -> (r: Self)
        ensures
            r.channels == 0,
            r.sample_rate == 0,
            r.bits_per_sample == 0,
            r.data_size == 0,
            r.bytes_read == 0,
            r.file@ == path@,
            r.header@ == Seq::<[u8; 4]>::empty(),
            r.samples@ == Seq::<i16>::empty(),
            r.samples_bytes@ == Seq::<u8>::empty(),
            r.samples_formated@ == Seq::<[i16; 2]>::empty(),
    {
        WavReader {
            channels: 0,
            sample_rate: 0,
            bits_per_sample: 0,
            data_size: 0,
            bytes_read: 0,
            file: path.to_string(),
            header: Vec::new(),
            samples: Vec::new(),
            samples_bytes: Vec::new(),
            samples_formated: Vec::new(),
        }
    }

    /// Reads the header: eleven reads of four bytes from the start of the
    /// file whose contents are `file`, each read filling the buffer as far
    /// as the file goes; then takes the channel count, the sample rate, the
    /// bits per sample and the data size from the chunks.
    pub fn spec(&mut self, file: &[u8])
        requires
            old(self).bytes_read + got(file@.len() as int, 0, 44) <= usize::MAX,
        ensures
            reads_header(*old(self), *final(self), file@),
    {
        let len = file.len();
        let mut buffer: [u8; 4] = [0u8, 0u8, 0u8, 0u8];
        let mut head: Vec<[u8; 4]> = Vec::new();
        let mut k: usize = 0;
        let ghost start = self.bytes_read;
        assert(buffer@ =~= seq![0u8, 0u8, 0u8, 0u8]);
        while k < 11
            invariant
                len == file@.len(),
                k <= 11,
                head@.len() == k,
                forall|i: int| 0 <= i < k ==> (#[trigger] head@[i])@ == header_block(file@, i as nat),
                k == 0 ==> buffer@ == seq![0u8, 0u8, 0u8, 0u8],
                k > 0 ==> buffer@ == header_block(file@, (k - 1) as nat),
                self.bytes_read == start + got(len as int, 0, 4 * k),
                start + got(len as int, 0, 44) <= usize::MAX,
                self.file == old(self).file,
                self.samples == old(self).samples,
                self.samples_bytes == old(self).samples_bytes,
                self.samples_formated == old(self).samples_formated,
            decreases 11 - k,
        {
            let off = 4 * k;
            let ghost prev = buffer@;
            let mut j: usize = 0;
            while j < 4
                invariant
                    len == file@.len(),
                    off == 4 * k,
                    k < 11,
                    j <= 4,
                    prev.len() == 4,
                    buffer@.len() == 4,
                    forall|i: int| 0 <= i < j ==> buffer@[i] == refill(file@, prev, off as int)[i],
                    forall|i: int| j <= i < 4 ==> buffer@[i] == prev[i],
                decreases 4 - j,
            {
                if off + j < len {
                    buffer[j] = file[off + j];
                }
                j = j + 1;
            }
            assert(buffer@ =~= refill(file@, prev, off as int));
            let n: usize = if off >= len { 0 } else if len - off < 4 { len - off } else { 4 };
            head.push(buffer);
            self.bytes_read = self.bytes_read + n;
            k = k + 1;
        }
        self.header = head;
        let h8 = self.header[8];
        let h5 = self.header[5];
        let h6 = self.header[6];
        let h10 = self.header[10];
        self.bits_per_sample = h8[2];
        self.channels = h5[2];
        self.sample_rate = self.compute_from_bytes(&h6);
        self.data_size = self.compute_from_bytes(&h10) as u32;
    }

    /// Reads the samples: reads the header first if nothing was read yet;
    /// then, from the start of the file (header included), reads two bytes
    /// at a time until exactly `data_size` bytes were read or a read gets
    /// nothing, decoding each buffer as a little-endian sample.
    pub fn get_samples(&mut self, file: &[u8]) -> (r: Vec<i16>)
        requires
            ({
                let d = if old(self).bytes_read == 0 { le_u32(header_block(file@, 10)) } else { old(self).data_size as int };
                let base = if old(self).bytes_read == 0 { got(file@.len() as int, 0, 44) } else { old(self).bytes_read as int };
                &&& base + sample_bytes_consumed(file@.len() as int, d) <= usize::MAX
                &&& sample_bytes_consumed(file@.len() as int, d) <= u32::MAX
            }),
        ensures
            ({
                let d = if old(self).bytes_read == 0 { le_u32(header_block(file@, 10)) } else { old(self).data_size as int };
                let base = if old(self).bytes_read == 0 { got(file@.len() as int, 0, 44) } else { old(self).bytes_read as int };
                &&& old(self).bytes_read == 0 ==> reads_header(*old(self), WavReader {
                    samples: old(self).samples,
                    samples_bytes: old(self).samples_bytes,
                    bytes_read: (old(self).bytes_read + got(file@.len() as int, 0, 44)) as usize,
                    ..*final(self)
                }, file@)
                &&& old(self).bytes_read != 0 ==> {
                    &&& final(self).header == old(self).header
                    &&& final(self).channels == old(self).channels
                    &&& final(self).sample_rate == old(self).sample_rate
                    &&& final(self).bits_per_sample == old(self).bits_per_sample
                    &&& final(self).data_size == old(self).data_size
                    &&& final(self).file == old(self).file
                    &&& final(self).samples_formated == old(self).samples_formated
                }
                &&& r@ == decoded_samples(file@, d)
                &&& final(self).samples@ == decoded_samples(file@, d)
                &&& final(self).samples_bytes@ == old(self).samples_bytes@ + decoded_bytes(file@, d)
                &&& final(self).bytes_read == base + sample_bytes_consumed(file@.len() as int, d)
            }),
    {
        if self.bytes_read == 0 {
            self.spec(file);
        }
        let ghost mid = *self;
        let len = file.len();
        let d = self.data_size;
        let mut n: usize = 1;
        let mut read: u32 = 0;
        let mut samples: Vec<i16> = Vec::new();
        let mut buffer: [u8; 2] = [0u8, 0u8];
        let ghost mut k: int = 0;
        let ghost reads = sample_reads(len as int, d as int);
        assert(buffer@ =~= pair_buffer(file@, 0));
        assert(samples@ =~= Seq::<i16>::empty());
        assert(self.samples_bytes@ =~= mid.samples_bytes@ + Seq::<u8>::empty());
        while n != 0 && read != d
            invariant
                len == file@.len(),
                d == mid.data_size,
                0 <= k <= reads,
                reads == sample_reads(len as int, d as int),
                sample_bytes_consumed(len as int, d as int) <= u32::MAX,
                mid.bytes_read + sample_bytes_consumed(len as int, d as int) <= usize::MAX,
                read as int == (if 2 * k <= len { 2 * k } else { len as int }),
                k == 0 ==> n == 1,
                k > 0 ==> n as int == got(len as int, 2 * k - 2, 2),
                buffer@ == pair_buffer(file@, k as nat),
                samples@ =~= decoded_samples(file@, d as int).take(k),
                self.samples_bytes@ =~= mid.samples_bytes@ + decoded_bytes(file@, d as int).take(2 * k),
                self.bytes_read == mid.bytes_read + read,
                self.header == mid.header,
                self.channels == mid.channels,
                self.sample_rate == mid.sample_rate,
                self.bits_per_sample == mid.bits_per_sample,
                self.data_size == mid.data_size,
                self.file == mid.file,
                self.samples == mid.samples,
                self.samples_formated == mid.samples_formated,
            decreases reads - k,
        {
            proof {
                lemma_sample_loop_stops(len as int, d as int, k);
            }
            let pos = read as usize;
            let ghost prev = buffer@;
            if pos < len {
                buffer[0] = file[pos];
            }
            if pos < len && len - pos > 1 {
                buffer[1] = file[pos + 1];
            }
            assert(buffer@ =~= pair_buffer(file@, (k + 1) as nat));
            n = if pos >= len { 0 } else if len - pos < 2 { len - pos } else { 2 };
            self.samples_bytes.push(buffer[0]);
            self.samples_bytes.push(buffer[1]);
            let pair: Vec<u8> = vec![buffer[0], buffer[1]];
            let v = self.to_i16(&pair);
            samples.push(v);
            self.bytes_read = self.bytes_read + n;
            read = read + n as u32;
            proof {
                k = k + 1;
            }
        }
        proof {
            if k < reads {
                lemma_sample_loop_stops(len as int, d as int, k);
            }
        }
        assert(k == reads);
        self.samples = samples.clone();
        samples
    }

    /// Replaces the samples.
    pub fn set_samples(&mut self, sample: Vec<i16>)
        ensures
            *final(self) == (WavReader { samples: sample, ..*old(self) }),
    {
        self.samples = sample;
    }

    /// Replaces the `i`-th header chunk.
    pub fn set_header(&mut self, val: [u8; 4], i: usize)
        requires
            i < old(self).header@.len(),
        ensures
            final(self).header@ == old(self).header@.update(i as int, val),
            *final(self) == (WavReader { header: final(self).header, ..*old(self) }),
    {
        self.header.set(i, val);
    }

    /// The samples grouped by pairs `[left, right]` (see `stereo_pairs`).
    pub fn formated_samples(&mut self) -> (r: Vec<[i16; 2]>)
        ensures
            r@ == stereo_pairs(old(self).samples@),
            *final(self) == *old(self),
    {
        pair_up(&self.samples)
    }

    /// The bytes of the file that writing this reader produces: the header
    /// chunks, then every sample as a little-endian byte pair.
    pub fn wav_bytes(&self) -> (r: Vec<u8>)
        ensures
            r@ == flatten_chunks(self.header@) + sample_bytes(self.samples@),
    {
        encode_wav(&self.header, &self.samples)
    }

    /// Little-endian value of a 4-byte chunk.
    pub fn compute_from_bytes(&mut self, arr: &[u8; 4]) -> (r: u64)
        ensures
            r == le_u32(arr@),
            r <= u32::MAX,
            *final(self) == *old(self),
    {
        arr[0] as u64 + 256 * (arr[1] as u64) + 65536 * (arr[2] as u64) + 16777216 * (arr[3] as u64)
    }

    /// Two's-complement value of the first two bytes of `vec`, little-endian.
    pub fn to_i16(&mut self, vec: &Vec<u8>) -> (r: i16)
        requires
            vec.len() >= 2,
        ensures
            r as int == le_i16(vec@[0], vec@[1]),
            *final(self) == *old(self),
    {
        le_pair_to_i16(vec[0], vec[1])
    }

    /// The path this reader was made for.
    pub fn path(&self) -> (r: String)
        ensures
            r@ == self.file@,
    {
        self.file.clone()
    }
}


/// Groups samples by pairs `[s[2k], s[2k+1]]`, as the pairing loop does:
/// a pair is emitted when the next sample is met, so the last one is not.
pub fn pair_up(samples: &Vec<i16>) -> (r: Vec<[i16; 2]>)
    ensures
        r@ == stereo_pairs(samples@),
{
    let mut out: Vec<[i16; 2]> = Vec::new();
    let mut i: usize = 0;
    let mut s: [i16; 2] = [0i16, 0i16];
    let n = samples.len();
    let mut idx: usize = 0;
    while idx < n
        invariant
            n == samples@.len(),
            idx <= n,
            idx == 0 ==> i == 0,
            idx > 0 ==> i == 2 - idx % 2 && i >= 1,
            idx > 0 ==> s[0] == samples@[2 * ((idx - 1) / 2)],
            idx > 0 && idx % 2 == 0 ==> s[1] == samples@[idx - 1],
            out@.len() == (if idx == 0 { 0 } else { (idx - 1) / 2 }),
            forall|k: int| 0 <= k < out@.len() ==> (#[trigger] out@[k]) == [samples@[2 * k], samples@[2 * k + 1]],
        decreases n - idx,
    {
        let val = samples[idx];
        if i == 2 {
            out.push(s);
            s = [0i16, 0i16];
            i = 0;
        }
        s[i] = val;
        i = i + 1;
        idx = idx + 1;
    }
    assert(out@ =~= stereo_pairs(samples@));
    out
}

/// The bytes of a WAV file made of `header` and `samples`: the chunks,
/// then every sample as a little-endian byte pair.
pub fn encode_wav(header: &Vec<[u8; 4]>, samples: &Vec<i16>) -> (r: Vec<u8>)
    ensures
        r@ == flatten_chunks(header@) + sample_bytes(samples@),
{
    let mut out: Vec<u8> = Vec::new();
    let mut c: usize = 0;
    while c < header.len()
        invariant
            c <= header@.len(),
            out@ =~= flatten_chunks(header@.take(c as int)),
        decreases header@.len() - c,
    {
        let chunk = header[c];
        let mut j: usize = 0;
        while j < 4
            invariant
                c < header@.len(),
                chunk == header@[c as int],
                j <= 4,
                out@ =~= flatten_chunks(header@.take(c as int)) + chunk@.take(j as int),
            decreases 4 - j,
        {
            out.push(chunk[j]);
            j = j + 1;
        }
        assert(flatten_chunks(header@.take(c as int)) + chunk@ =~= flatten_chunks(header@.take(c + 1)));
        c = c + 1;
    }
    assert(header@.take(header@.len() as int) =~= header@);
    let ghost head = out@;
    let mut i: usize = 0;
    while i < samples.len()
        invariant
            i <= samples@.len(),
            head == flatten_chunks(header@),
            out@ =~= head + sample_bytes(samples@.take(i as int)),
        decreases samples@.len() - i,
    {
        let (lo, hi) = i16_to_le_pair(samples[i]);
        out.push(lo);
        out.push(hi);
        assert(sample_bytes(samples@.take(i as int)).push(lo).push(hi) =~= sample_bytes(samples@.take(i + 1)));
        i = i + 1;
    }
    assert(samples@.take(samples@.len() as int) =~= samples@);
    out
}

/// The header that the tone and melody writers put before their samples:
/// a mono, 44100 Hz, 16-bit PCM header whose last chunk holds the number
/// of samples (modulo 2^32), little-endian.
pub open spec fn mono_header(count: int) -> Seq<[u8; 4]> {
    let size = count % 0x1_0000_0000;
    seq![
        [82u8, 73u8, 70u8, 70u8],
        [172u8, 88u8, 1u8, 0u8],
        [87u8, 65u8, 86u8, 69u8],
        [102u8, 109u8, 116u8, 32u8],
        [16u8, 0u8, 0u8, 0u8],
        [1u8, 0u8, 1u8, 0u8],
        [68u8, 172u8, 0u8, 0u8],
        [136u8, 88u8, 1u8, 0u8],
        [2u8, 0u8, 16u8, 0u8],
        [100u8, 97u8, 116u8, 97u8],
        [(size % 256) as u8, ((size / 256) % 256) as u8, ((size / 65536) % 256) as u8, (size / 16777216) as u8],
    ]
}

/// The header chunks of a new mono 44100 Hz 16-bit file holding `count`
/// samples.
pub fn mono_header_chunks(count: usize) -> (r: Vec<[u8; 4]>)
    ensures
        r@ == mono_header(count as int),
{
    let size: u64 = count as u64 % 0x1_0000_0000;
    let b1 = (size % 256) as u8;
    let b2 = ((size / 256) % 256) as u8;
    let b3 = ((size / 65536) % 256) as u8;
    let b4 = (size / 16777216) as u8;
    let header: Vec<[u8; 4]> = vec![
        [82u8, 73u8, 70u8, 70u8],
        [172u8, 88u8, 1u8, 0u8],
        [87u8, 65u8, 86u8, 69u8],
        [102u8, 109u8, 116u8, 32u8],
        [16u8, 0u8, 0u8, 0u8],
        [1u8, 0u8, 1u8, 0u8],
        [68u8, 172u8, 0u8, 0u8],
        [136u8, 88u8, 1u8, 0u8],
        [2u8, 0u8, 16u8, 0u8],
        [100u8, 97u8, 116u8, 97u8],
        [b1, b2, b3, b4],
    ];
    assert(header@ =~= mono_header(count as int));
    header
}

/// The bytes of a new WAV file holding `samples`: the mono header (see
/// `mono_header`), then the samples as little-endian byte pairs.
pub fn create_wav_bytes(samples: &Vec<i16>) -> (r: Vec<u8>)
    ensures
        r@ == flatten_chunks(mono_header(samples@.len() as int)) + sample_bytes(samples@),
{
    let header = mono_header_chunks(samples.len());
    encode_wav(&header, samples)
}


/// The four little-endian bytes of a 32-bit value.
pub open spec fn le_bytes_u32(x: u32) -> Seq<u8> {
    seq![(x % 256) as u8, ((x / 256) % 256) as u8, ((x / 65536) % 256) as u8, (x / 16777216) as u8]
}

/// The little-endian bytes of a sample rate, as a header chunk.
pub fn rate_bytes(fe: u32) -> (r: [u8; 4])
    ensures
        r@ == le_bytes_u32(fe),
        le_u32(r@) == fe,
{
    let b1 = (fe % 256) as u8;
    let b2 = ((fe / 256) % 256) as u8;
    let b3 = ((fe / 65536) % 256) as u8;
    let b4 = (fe / 16777216) as u8;
    let r = [b1, b2, b3, b4];
    assert(r@ =~= le_bytes_u32(fe));
    r
}

/// The header with its sample-rate chunk (chunk 6) replaced by `fe`,
/// little-endian: playing the file at another speed.
pub fn with_sample_rate(header: Vec<[u8; 4]>, fe: u32) -> (r: Vec<[u8; 4]>)
    requires
        header@.len() > 6,
    ensures
        r@.len() == header@.len(),
        r@[6]@ == le_bytes_u32(fe),
        le_u32(r@[6]@) == fe,
        forall|i: int| 0 <= i < header@.len() && i != 6 ==> r@[i] == header@[i],
{
    let mut header2 = header.clone();
    header2.set(6, rate_bytes(fe));
    header2
}

} // verus!
