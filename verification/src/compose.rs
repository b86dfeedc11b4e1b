use vstd::prelude::*;
use std::collections::HashMap;
use crate::melody::{Note, note_code, walkable, random_notes, is_walk, notes_of, lemma_notes_of, table};
use crate::random::random_in_range;
use crate::spectrum::{nextpower, padded_len};

verus! {

/// Samples of silence that a pause adds (half a second at 44100 Hz).
pub const PAUSE_LEN: usize = 22050;

/// Where a new note starts overwriting the music: 100 samples before its
/// end, so that consecutive notes overlap a little (at 0 for empty music).
pub open spec fn join_point(len: int) -> int {
    if len > 0 { len - 100 } else { 0 }
}

/// Of each two samples, the second; the last one when it has no second.
pub open spec fn second_of_pairs(t: Seq<i16>) -> Seq<i16> {
    Seq::new(((t.len() + 1) / 2) as nat, |q: int| if 2 * q + 1 < t.len() { t[2 * q + 1] } else { t[2 * q] })
}

/// The music with the samples of `note` from index 10000 up to `end`
/// written from the join point, as the joining loop writes them: over the
/// last 100 samples of the music they overwrite one for one; past its end a
/// sample is appended and the next one overwrites it, so of each two only
/// the second stays (see `second_of_pairs`).
pub open spec fn spliced(music: Seq<i16>, note: Seq<i16>, end: int) -> Seq<i16> {
    let start = join_point(music.len() as int);
    let o = music.len() - start;
    music.take(start) + note.subrange(10000, 10000 + o) + second_of_pairs(note.subrange(10000 + o, end))
}

/// The music followed by a note: all its samples from index 10000 on,
/// spliced from the join point (see `spliced`).
pub open spec fn joined(music: Seq<i16>, note: Seq<i16>) -> Seq<i16> {
    spliced(music, note, note.len() as int)
}

/// Appending a sample to the input of `second_of_pairs` appends it to the
/// output, or replaces the output's last sample.
proof fn lemma_second_of_pairs_push(t: Seq<i16>, x: i16)
    ensures
        second_of_pairs(t.push(x)) == (if t.len() % 2 == 0 {
            second_of_pairs(t).push(x)
        } else {
            second_of_pairs(t).update((t.len() - 1) / 2, x)
        }),
{
    if t.len() % 2 == 0 {
        assert(second_of_pairs(t.push(x)) =~= second_of_pairs(t).push(x));
    } else {
        assert(second_of_pairs(t.push(x)) =~= second_of_pairs(t).update((t.len() - 1) / 2, x));
    }
}

/// The length of a splice: what the music keeps, plus half the tail.
proof fn lemma_spliced_len(music: Seq<i16>, note: Seq<i16>, end: int)
    requires
        music.len() == 0 || music.len() >= 100,
        10100 <= end <= note.len(),
    ensures
        spliced(music, note, end).len() == music.len() + (end - 10000 - (music.len() - join_point(music.len() as int)) + 1) / 2,
{
}

/// One step of the joining loop: the sample `note[j]` is written at `i`
/// if `i` is inside the music, else appended (and `i` does not move).
proof fn lemma_splice_step(s1: Seq<i16>, note: Seq<i16>, j: int, cur: Seq<i16>, i: int)
    requires
        s1.len() == 0 || s1.len() >= 100,
        10000 <= j < note.len(),
        ({
            let start = join_point(s1.len() as int);
            let o = s1.len() - start;
            &&& j <= 10000 + o ==> i == start + (j - 10000) && cur == s1.take(start) + note.subrange(10000, j) + s1.skip(i)
            &&& j >= 10000 + o ==> i == s1.len() + (j - 10000 - o) / 2 && cur == spliced(s1, note, j)
        }),
    ensures
        ({
            let start = join_point(s1.len() as int);
            let o = s1.len() - start;
            let next = if i < cur.len() { cur.update(i, note[j]) } else { cur.push(note[j]) };
            let ni = if i < cur.len() { i + 1 } else { i };
            &&& j + 1 <= 10000 + o ==> ni == start + (j + 1 - 10000) && next == s1.take(start) + note.subrange(10000, j + 1) + s1.skip(ni)
            &&& j + 1 >= 10000 + o ==> ni == s1.len() + (j + 1 - 10000 - o) / 2 && next == spliced(s1, note, j + 1)
        }),
{
    let start = join_point(s1.len() as int);
    let o = s1.len() - start;
    if j < 10000 + o {
        assert(i < cur.len());
        let next = cur.update(i, note[j]);
        if j + 1 < 10000 + o {
            assert(next =~= s1.take(start) + note.subrange(10000, j + 1) + s1.skip(i + 1));
        } else {
            assert(second_of_pairs(note.subrange(10000 + o, j + 1)) =~= Seq::<i16>::empty());
            assert(next =~= spliced(s1, note, j + 1));
        }
    } else {
        let t = note.subrange(10000 + o, j);
        assert(note.subrange(10000 + o, j + 1) =~= t.push(note[j]));
        lemma_second_of_pairs_push(t, note[j]);
        let head = s1.take(start) + note.subrange(10000, 10000 + o);
        assert(head.len() == s1.len());
        if t.len() % 2 == 0 {
            assert(i == cur.len());
            assert(cur.push(note[j]) =~= spliced(s1, note, j + 1));
        } else {
            assert(i == cur.len() - 1);
            assert(cur.update(i, note[j]) =~= spliced(s1, note, j + 1));
        }
    }
}

/// Appends a note to the music: the note's samples from index 10000 on
/// are written from the join point (see `joined`).
pub fn merge2(samples1: &mut Vec<i16>, samples2: &Vec<i16>)
    requires
        old(samples1)@.len() == 0 || old(samples1)@.len() >= 100,
        samples2@.len() > 20000,
    ensures
        final(samples1)@ == joined(old(samples1)@, samples2@),
{
    let ghost s1 = samples1@;
    let mut i: usize = 0;
    if samples1.len() > 0 {
        i = samples1.len() - 100;
    }
    let ghost start = i as int;
    let ghost o = s1.len() - start;
    let samples3 = samples2.clone();
    let n3 = samples3.len();
    let mut j: usize = 10000;
    assert(s1.take(start) + samples2@.subrange(10000, 10000) + s1.skip(start) =~= s1);
    while j < n3
        invariant
            n3 == samples2@.len(),
            samples3@ == samples2@,
            n3 > 20000,
            s1.len() == 0 || s1.len() >= 100,
            start == join_point(s1.len() as int),
            o == s1.len() - start,
            10000 <= j <= n3,
            j <= 10000 + o ==> i == start + (j - 10000) && samples1@ == s1.take(start) + samples2@.subrange(10000, j as int) + s1.skip(i as int),
            j >= 10000 + o ==> i == s1.len() + (j - 10000 - o) / 2 && samples1@ == spliced(s1, samples2@, j as int),
        decreases n3 - j,
    {
        proof {
            lemma_splice_step(s1, samples2@, j as int, samples1@, i as int);
        }
        if i < samples1.len() {
            samples1.set(i, samples3[j]);
            i = i + 1;
        } else {
            samples1.push(samples3[j]);
        }
        j = j + 1;
    }
}

/// The music a melody makes from a bank of note recordings: a pause adds
/// half a second of silence, any other note is joined from the recording
/// at its code.
pub open spec fn built(melody: Seq<Note>, bank: Seq<Vec<i16>>) -> Seq<i16>
    decreases melody.len(),
{
    if melody.len() == 0 {
        Seq::<i16>::empty()
    } else {
        let before = built(melody.drop_last(), bank);
        let n = melody.last();
        if n == Note::Pause {
            before + Seq::new(PAUSE_LEN as nat, |i: int| 0i16)
        } else {
            joined(before, bank[note_code(n) as int]@)
        }
    }
}

/// What building a melody needs: a recording longer than 20000 samples for
/// every note it plays, and a result whose length fits in memory.
pub open spec fn buildable(melody: Seq<Note>, bank: Seq<Vec<i16>>) -> bool {
    &&& forall|i: int| 0 <= i < melody.len() && melody[i] != Note::Pause ==>
        note_code(melody[i]) < bank.len() && bank[note_code(#[trigger] melody[i]) as int]@.len() > 20000
    &&& built(melody, bank).len() <= usize::MAX
}

proof fn lemma_built_grows(melody: Seq<Note>, bank: Seq<Vec<i16>>)
    requires
        buildable(melody, bank),
    ensures
        melody.len() > 0 ==> built(melody, bank).len() >= 4900,
        forall|k: int| 0 <= k <= melody.len() ==> #[trigger] built(melody.take(k), bank).len() <= built(melody, bank).len(),
    decreases melody.len(),
{
    if melody.len() > 0 {
        let rest = melody.drop_last();
        assert forall|i: int| 0 <= i < rest.len() && rest[i] != Note::Pause implies
            note_code(rest[i]) < bank.len() && bank[note_code(#[trigger] rest[i]) as int]@.len() > 20000 by {
            assert(rest[i] == melody[i]);
        }
        lemma_built_grows_step(melody, bank);
        lemma_built_grows(rest, bank);
        assert forall|k: int| 0 <= k <= melody.len() implies #[trigger] built(melody.take(k), bank).len() <= built(melody, bank).len() by {
            if k == melody.len() {
                assert(melody.take(k) =~= melody);
            } else {
                assert(melody.take(k) =~= rest.take(k));
                assert(built(rest.take(k), bank).len() <= built(rest, bank).len());
            }
        }
    }
}

proof fn lemma_built_grows_step(melody: Seq<Note>, bank: Seq<Vec<i16>>)
    requires
        melody.len() > 0,
        buildable(melody, bank),
    ensures
        built(melody, bank).len() >= built(melody.drop_last(), bank).len() + 4900,
        built(melody.drop_last(), bank).len() <= usize::MAX,
{
    let n = melody.last();
    assert(melody[melody.len() - 1] == n);
}

/// Builds the music a melody makes from the bank of note recordings (see
/// `built`); `note_samples[c]` holds the recording of the note of code `c`.
pub fn build_from(melody: Vec<Note>, note_samples: &Vec<Vec<i16>>) -> (r: Vec<i16>)
    requires
        buildable(melody@, note_samples@),
    ensures
        r@ == built(melody@, note_samples@),
{
    let mut build_music: Vec<i16> = Vec::new();
    let mut k: usize = 0;
    proof {
        lemma_built_grows(melody@, note_samples@);
    }
    while k < melody.len()
        invariant
            k <= melody@.len(),
            buildable(melody@, note_samples@),
            forall|q: int| 0 <= q <= melody@.len() ==> #[trigger] built(melody@.take(q), note_samples@).len() <= built(melody@, note_samples@).len(),
            build_music@ == built(melody@.take(k as int), note_samples@),
            k > 0 ==> build_music@.len() >= 4900,
        decreases melody@.len() - k,
    {
        let n = melody[k];
        let ghost prefix = melody@.take(k + 1);
        assert(prefix.drop_last() =~= melody@.take(k as int));
        assert(prefix.last() == n);
        assert(built(prefix, note_samples@).len() <= usize::MAX);
        proof {
            if n != Note::Pause {
                assert(melody@[k as int] == n);
            }
        }
        match n {
            Note::Pause => {
                let mut p: usize = 0;
                let ghost before = build_music@;
                while p < PAUSE_LEN
                    invariant
                        p <= PAUSE_LEN,
                        before.len() + PAUSE_LEN <= usize::MAX,
                        build_music@ =~= before + Seq::new(p as nat, |i: int| 0i16),
                    decreases PAUSE_LEN - p,
                {
                    build_music.push(0);
                    p = p + 1;
                }
            },
            _ => {
                let idx = n.code() as usize;
                merge2(&mut build_music, &note_samples[idx]);
            },
        }
        k = k + 1;
        proof {
            if n != Note::Pause {
                assert(build_music@.len() >= 4900);
            }
        }
    }
    assert(melody@.take(melody@.len() as int) =~= melody@);
    build_music
}

/// `padded` is `note` followed by random samples from 100 to 199 up to
/// the padded length (see `nextpower`).
pub open spec fn padding_of(padded: Seq<i16>, note: Seq<i16>) -> bool {
    &&& padded.len() == padded_len(note.len())
    &&& padded.take(note.len() as int) == note
    &&& forall|q: int| note.len() <= q < padded.len() ==> 100 <= #[trigger] padded[q] < 200
}

/// What joining a note to generated music can give: the note is padded
/// (see `padding_of`), and its samples from index 10000 up to a random end,
/// at least 20000 and before the padded length, are spliced in (see
/// `spliced`).
pub open spec fn merge_outcome(before: Seq<i16>, after: Seq<i16>, note: Seq<i16>) -> bool {
    exists|padded: Seq<i16>, end: int|
        #![trigger padding_of(padded, note), spliced(before, padded, end)]
        padding_of(padded, note) && 20000 <= end < padded.len() && after == spliced(before, padded, end)
}

/// Appends a note to generated music: the note is padded with random
/// samples to a power-of-two length, then its samples from index 10000 up
/// to a random end (at least 20000) are spliced in from the join point.
pub fn merge(samples1: &mut Vec<i16>, samples2: &Vec<i16>)
    requires
        old(samples1)@.len() == 0 || old(samples1)@.len() >= 100,
        16384 < samples2@.len() <= 0x1000_0000_0000_0000,
        2 * samples2@.len() <= usize::MAX,
        old(samples1)@.len() + samples2@.len() <= usize::MAX,
    ensures
        merge_outcome(old(samples1)@, final(samples1)@, samples2@),
{
    let ghost s1 = samples1@;
    let mut i: usize = 0;
    if samples1.len() > 0 {
        i = samples1.len() - 100;
    }
    let ghost start = i as int;
    let ghost o = s1.len() - start;
    let mut samples3 = samples2.clone();
    nextpower(&mut samples3);
    let n3 = samples3.len();
    proof {
        crate::spectrum::lemma_padded_len_bound(samples2@.len());
        crate::spectrum::lemma_padded_len_large(samples2@.len(), 2);
    }
    let end: usize = random_in_range(20000, n3);
    let mut j: usize = 10000;
    assert(s1.take(start) + samples3@.subrange(10000, 10000) + s1.skip(start) =~= s1);
    while j < end
        invariant
            n3 == samples3@.len(),
            padding_of(samples3@, samples2@),
            20000 <= end < n3,
            n3 <= 2 * samples2@.len(),
            s1.len() == 0 || s1.len() >= 100,
            s1.len() + samples2@.len() <= usize::MAX,
            start == join_point(s1.len() as int),
            o == s1.len() - start,
            10000 <= j <= end,
            j <= 10000 + o ==> i == start + (j - 10000) && samples1@ == s1.take(start) + samples3@.subrange(10000, j as int) + s1.skip(i as int),
            j >= 10000 + o ==> i == s1.len() + (j - 10000 - o) / 2 && samples1@ == spliced(s1, samples3@, j as int),
        decreases end - j,
    {
        proof {
            lemma_splice_step(s1, samples3@, j as int, samples1@, i as int);
        }
        if i < samples1.len() {
            samples1.set(i, samples3[j]);
            i = i + 1;
        } else {
            samples1.push(samples3[j]);
        }
        j = j + 1;
    }
    assert(padding_of(samples3@, samples2@) && spliced(s1, samples3@, end as int) == samples1@);
}

/// A run of music generation from a bank of notes, aiming at `seconds` at
/// 44100 Hz: `steps` are the music after each join, starting empty; join
/// `i` takes note `picks[i]`, one of the first seven of the bank, and is
/// made while the music is still shorter than the aim (see `merge_outcome`).
pub open spec fn is_generation(bank: Seq<Vec<i16>>, steps: Seq<Seq<i16>>, picks: Seq<int>, seconds: int) -> bool {
    &&& steps.len() == picks.len() + 1
    &&& steps[0].len() == 0
    &&& forall|i: int| 0 <= i < picks.len() ==> {
        &&& 0 <= #[trigger] picks[i] < 7
        &&& steps[i].len() < seconds * 44100
        &&& merge_outcome(steps[i], steps[i + 1], bank[picks[i]]@)
    }
}

/// Generates music without rules: joins random notes among the first seven
/// of the bank (see `merge`) until the music lasts at least `duration`
/// seconds at 44100 Hz.
pub fn generate_music(duration: u8, note_samples: &Vec<Vec<i16>>) -> (r: Vec<i16>)
    requires
        note_samples@.len() >= 7,
        forall|i: int| 0 <= i < 7 ==> 16384 < (#[trigger] note_samples@[i])@.len() <= 0x1000_0000_0000_0000
            && 2 * note_samples@[i]@.len() + 0x100_0000 <= usize::MAX,
    ensures
        r@.len() >= duration * 44100,
        exists|steps: Seq<Seq<i16>>, picks: Seq<int>|
            #[trigger] is_generation(note_samples@, steps, picks, duration as int) && steps.last() == r@,
{
    let mut build_music: Vec<i16> = Vec::new();
    let target: usize = duration as usize * 44100;
    let ghost mut steps: Seq<Seq<i16>> = seq![Seq::<i16>::empty()];
    let ghost mut picks: Seq<int> = Seq::<int>::empty();
    while build_music.len() / 44100 < duration as usize
        invariant
            note_samples@.len() >= 7,
            forall|i: int| 0 <= i < 7 ==> 16384 < (#[trigger] note_samples@[i])@.len() <= 0x1000_0000_0000_0000
                && 2 * note_samples@[i]@.len() + 0x100_0000 <= usize::MAX,
            target == duration * 44100,
            build_music@.len() == 0 || build_music@.len() >= 100,
            is_generation(note_samples@, steps, picks, duration as int),
            steps.last() == build_music@,
        decreases usize::MAX - build_music@.len(),
    {
        let index = random_in_range(0, 7);
        assert(16384 < note_samples@[index as int]@.len() <= 0x1000_0000_0000_0000
            && 2 * note_samples@[index as int]@.len() + 0x100_0000 <= usize::MAX);
        let ghost before = build_music@;
        merge(&mut build_music, &note_samples[index]);
        proof {
            crate::spectrum::lemma_padded_len_bound(note_samples@[index as int]@.len());
            let (padded, end) = choose|padded: Seq<i16>, end: int|
                #![trigger padding_of(padded, note_samples@[index as int]@), spliced(before, padded, end)]
                padding_of(padded, note_samples@[index as int]@) && 20000 <= end < padded.len()
                    && build_music@ == spliced(before, padded, end);
            lemma_spliced_len(before, padded, end);
            assert(before.len() < duration * 44100);
            let steps1 = steps.push(build_music@);
            let picks1 = picks.push(index as int);
            assert forall|i: int| 0 <= i < picks1.len() implies {
                &&& 0 <= #[trigger] picks1[i] < 7
                &&& steps1[i].len() < duration * 44100
                &&& merge_outcome(steps1[i], steps1[i + 1], note_samples@[picks1[i]]@)
            } by {
                if i < picks.len() {
                    assert(picks1[i] == picks[i]);
                    assert(steps1[i] == steps[i] && steps1[i + 1] == steps[i + 1]);
                } else {
                    assert(steps1[i] == before);
                }
            }
            steps = steps1;
            picks = picks1;
        }
    }
    build_music
}

/// Makes two signals the same length by padding the shorter with zeros.
pub fn adjust_audio_length(audio1: &mut Vec<i16>, audio2: &mut Vec<i16>)
    ensures
        ({
            let n = if old(audio1)@.len() >= old(audio2)@.len() { old(audio1)@.len() } else { old(audio2)@.len() };
            &&& final(audio1)@ == old(audio1)@ + Seq::new((n - old(audio1)@.len()) as nat, |i: int| 0i16)
            &&& final(audio2)@ == old(audio2)@ + Seq::new((n - old(audio2)@.len()) as nat, |i: int| 0i16)
        }),
{
    let max_len = if audio1.len() >= audio2.len() { audio1.len() } else { audio2.len() };
    let ghost a1 = audio1@;
    let ghost a2 = audio2@;
    while audio1.len() < max_len
        invariant
            a1.len() <= audio1@.len() <= max_len,
            audio1@ =~= a1 + Seq::new((audio1@.len() - a1.len()) as nat, |i: int| 0i16),
        decreases max_len - audio1@.len(),
    {
        let ghost before = audio1@;
        audio1.push(0);
        assert(audio1@ =~= a1 + Seq::new((audio1@.len() - a1.len()) as nat, |i: int| 0i16));
    }
    while audio2.len() < max_len
        invariant
            a2.len() <= audio2@.len() <= max_len,
            audio2@ =~= a2 + Seq::new((audio2@.len() - a2.len()) as nat, |i: int| 0i16),
        decreases max_len - audio2@.len(),
    {
        audio2.push(0);
        assert(audio2@ =~= a2 + Seq::new((audio2@.len() - a2.len()) as nat, |i: int| 0i16));
    }
}


/// The longest of the first `n` recordings of the bank.
pub open spec fn longest(bank: Seq<Vec<i16>>, n: int) -> int
    decreases n,
{
    if n <= 0 {
        0
    } else {
        let m = longest(bank, n - 1);
        if bank[n - 1]@.len() > m { bank[n - 1]@.len() as int } else { m }
    }
}

proof fn lemma_longest(bank: Seq<Vec<i16>>, n: int, i: int)
    requires
        0 <= i < n,
    ensures
        bank[i]@.len() <= longest(bank, n),
    decreases n,
{
    if i < n - 1 {
        lemma_longest(bank, n - 1, i);
    }
}

/// A melody of notes whose recordings are at most `m - 22050` samples
/// long builds music of at most `m` samples per note.
proof fn lemma_built_len(melody: Seq<Note>, bank: Seq<Vec<i16>>, m: int)
    requires
        m >= PAUSE_LEN,
        forall|i: int| 0 <= i < melody.len() && melody[i] != Note::Pause ==>
            note_code(#[trigger] melody[i]) < bank.len() && bank[note_code(melody[i]) as int]@.len() > 20000
                && bank[note_code(melody[i]) as int]@.len() <= m,
    ensures
        built(melody, bank).len() <= melody.len() * m,
    decreases melody.len(),
{
    if melody.len() > 0 {
        let rest = melody.drop_last();
        assert forall|i: int| 0 <= i < rest.len() && rest[i] != Note::Pause implies
            note_code(#[trigger] rest[i]) < bank.len() && bank[note_code(rest[i]) as int]@.len() > 20000
                && bank[note_code(rest[i]) as int]@.len() <= m by {
            assert(rest[i] == melody[i]);
        }
        lemma_built_len(rest, bank, m);
        let n = melody.last();
        assert(melody[melody.len() - 1] == n);
        assert((melody.len() - 1) * m + m == melody.len() * m) by (nonlinear_arith);
    }
}

/// Generates a melody from a transition table: draws a walk of `duration`
/// codes on the table (see `random_notes`) and builds the music of its notes
/// from the bank of note recordings (see `built`).
pub fn random_melody(matrix_transition: &HashMap<u8, Vec<u8>>, duration: u16, note_samples: &Vec<Vec<i16>>) -> (r: Vec<i16>)
    requires
        walkable(table(matrix_transition@), duration as int),
        note_samples@.len() >= 7,
        forall|i: int| 0 <= i < 7 ==> (#[trigger] note_samples@[i])@.len() > 20000,
        duration * (longest(note_samples@, 7) + PAUSE_LEN) <= usize::MAX,
    ensures
        exists|w: Seq<u8>| w.len() == duration && #[trigger] is_walk(table(matrix_transition@), w)
            && r@ == built(notes_of(w), note_samples@),
{
    let notes = random_notes(matrix_transition, duration);
    let ghost t = table(matrix_transition@);
    let ghost w = choose|w: Seq<u8>| w.len() == duration && #[trigger] is_walk(t, w) && notes@ == notes_of(w);
    proof {
        lemma_notes_of(t, w);
        let m = longest(note_samples@, 7) + PAUSE_LEN;
        assert forall|i: int| 0 <= i < notes@.len() && notes@[i] != Note::Pause implies
            note_code(#[trigger] notes@[i]) < note_samples@.len() && note_samples@[note_code(notes@[i]) as int]@.len() > 20000
                && note_samples@[note_code(notes@[i]) as int]@.len() <= m by {
            assert(note_code(notes@[i]) <= 7);
            assert(note_code(notes@[i]) != 7);
            lemma_longest(note_samples@, 7, note_code(notes@[i]) as int);
        }
        lemma_built_len(notes@, note_samples@, m);
        assert(notes@.len() * m <= duration * m) by (nonlinear_arith)
            requires notes@.len() <= duration, m >= 0;
    }
    build_from(notes, note_samples)
}

} // verus!
