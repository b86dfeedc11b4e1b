use vstd::prelude::*;
use crate::edit::{muted, repeated};
use crate::fusion::mixed;
use crate::noise::{
    clipped, lemma_marks_len, lemma_zero_period_at_setup, marks_for_periods, marks_from, period_bounds, positive_part,
    scan_end, scan_hit, set_ones,
};
use crate::music_detect::{
    decimate, detected, detections, grade, grade_row, grade_upto, is_next_best, lemma_detections_bounds,
    lemma_few_cover_little, match_score, music_grades, periodicity, pitch_histogram, pitch_steps, ranks_before,
    top_periods,
};
use crate::training::{decimal, decimals, read_step, read_table, readable, read_run, table_text, bytes_handled, ReadState};
use crate::stereo::right_only;
use crate::resonance::{echoed, ECHO_DELAY};
use crate::wav::{
    decoded_samples, flatten_chunks, header_block, high_byte, le_i16, le_u32, low_byte, mono_header,
    pair_buffer, sample_bytes, sample_reads,
};

verus! {

/// Playing a signal backwards twice gives the signal back.
pub proof fn law_reverse_twice(s: Seq<i16>)
    ensures
        s.reverse().reverse() == s,
{
    assert(s.reverse().reverse() =~= s);
}

/// Silencing the left channel a second time changes nothing.
pub proof fn law_right_only_idempotent(s: Seq<i16>)
    ensures
        right_only(right_only(s)) == right_only(s),
{
    assert(right_only(right_only(s)) =~= right_only(s));
}

/// Mixing is symmetric: the order of the two signals does not matter.
pub proof fn law_mix_commutes(a: Seq<i16>, b: Seq<i16>)
    ensures
        mixed(a, b) == mixed(b, a),
{
    assert(mixed(a, b) =~= mixed(b, a));
}

/// Mixing a signal with silence (an empty signal) leaves it as it is.
pub proof fn law_mix_with_silence(s: Seq<i16>)
    ensures
        mixed(s, Seq::<i16>::empty()) == s,
        mixed(Seq::<i16>::empty(), s) == s,
{
    assert(mixed(s, Seq::<i16>::empty()) =~= s);
    assert(mixed(Seq::<i16>::empty(), s) =~= s);
}

/// Thresholding a second time with the same settings changes nothing.
pub proof fn law_threshold_idempotent(s: Seq<i16>, t: int, high: bool, low: bool)
    ensures
        clipped(clipped(s, t, high, low), t, high, low) == clipped(s, t, high, low),
{
    assert(clipped(clipped(s, t, high, low), t, high, low) =~= clipped(s, t, high, low));
}

/// Muting a range a second time changes nothing.
pub proof fn law_mute_idempotent(s: Seq<i16>, start: int, end: int)
    ensures
        muted(muted(s, start, end), start, end) == muted(s, start, end),
{
    assert(muted(muted(s, start, end), start, end) =~= muted(s, start, end));
}

/// Repeating a segment once leaves the signal as it was.
pub proof fn law_repeat_once_is_identity(s: Seq<i16>, start: int, end: int)
    requires
        0 <= start <= end <= s.len(),
    ensures
        s.take(start) + repeated(s.subrange(start, end), 1) + s.skip(end) == s,
{
    let seg = s.subrange(start, end);
    assert forall|i: int| 0 <= i < seg.len() implies #[trigger] repeated(seg, 1)[i] == seg[i] by {
        assert(i % (seg.len() as int) == i) by (nonlinear_arith)
            requires 0 <= i < seg.len();
    }
    assert(repeated(seg, 1) =~= seg);
    assert(s.take(start) + seg + s.skip(end) =~= s);
}

/// A sample split into its byte pair decodes back to itself.
pub proof fn law_sample_bytes_round_trip(x: i16)
    ensures
        le_i16(low_byte(x), high_byte(x)) == x,
{
}

/// The sample buffer always holds two bytes.
proof fn lemma_pair_len(f: Seq<u8>, k: nat)
    ensures
        pair_buffer(f, k).len() == 2,
    decreases k,
{
    if k > 0 {
        lemma_pair_len(f, (k - 1) as nat);
    }
}

/// The header buffer always holds four bytes.
proof fn lemma_block_len(f: Seq<u8>, k: nat)
    ensures
        header_block(f, k).len() == 4,
    decreases k,
{
    if k > 0 {
        lemma_block_len(f, (k - 1) as nat);
    }
}

/// Reading a two-byte buffer that the file filled completely gives the
/// file's bytes, whatever the buffer held before.
proof fn lemma_full_pair(f: Seq<u8>, k: nat)
    requires
        k >= 1,
        2 * k <= f.len(),
    ensures
        pair_buffer(f, k) == seq![f[2 * k - 2], f[2 * k - 1]],
{
    lemma_pair_len(f, (k - 1) as nat);
    assert(pair_buffer(f, k) =~= seq![f[2 * k - 2], f[2 * k - 1]]);
}

/// Reading a four-byte header chunk that the file filled completely gives
/// the file's bytes, whatever the buffer held before.
proof fn lemma_full_block(f: Seq<u8>, k: nat)
    requires
        4 * k + 4 <= f.len(),
    ensures
        header_block(f, k) == f.subrange(4 * k as int, 4 * k as int + 4),
{
    if k > 0 {
        lemma_block_len(f, (k - 1) as nat);
    }
    assert(header_block(f, k) =~= f.subrange(4 * k as int, 4 * k as int + 4));
}

/// The header that the tone and melody writers put before their samples
/// reads back as written: the same eleven chunks, one channel, 44100 Hz,
/// 16 bits per sample, and the sample count (modulo 2^32) as data size.
#[verifier::spinoff_prover]
#[verifier::rlimit(40)]
pub proof fn law_created_header_reads_back(s: Seq<i16>)
    ensures
        ({
            let f = flatten_chunks(mono_header(s.len() as int)) + sample_bytes(s);
            &&& forall|k: int| 0 <= k < 11 ==> #[trigger] header_block(f, k as nat) == mono_header(s.len() as int)[k]@
            &&& header_block(f, 5)[2] == 1
            &&& le_u32(header_block(f, 6)) == 44100
            &&& header_block(f, 8)[2] == 16
            &&& le_u32(header_block(f, 10)) == s.len() % 0x1_0000_0000
        }),
{
    let h = mono_header(s.len() as int);
    let f = flatten_chunks(h) + sample_bytes(s);
    assert forall|k: int| 0 <= k < 11 implies #[trigger] header_block(f, k as nat) == h[k]@ by {
        lemma_full_block(f, k as nat);
        assert(f.subrange(4 * k as int, 4 * k as int + 4) =~= h[k]@);
    }
    let size = s.len() % 0x1_0000_0000;
    assert(header_block(f, 5) == h[5]@) by {
        lemma_full_block(f, 5);
        assert(f.subrange(20, 24) =~= h[5]@);
    }
    assert(header_block(f, 6) == h[6]@) by {
        lemma_full_block(f, 6);
        assert(f.subrange(24, 28) =~= h[6]@);
    }
    assert(header_block(f, 8) == h[8]@) by {
        lemma_full_block(f, 8);
        assert(f.subrange(32, 36) =~= h[8]@);
    }
    assert(header_block(f, 10) == h[10]@) by {
        lemma_full_block(f, 10);
        assert(f.subrange(40, 44) =~= h[10]@);
    }
    assert(le_u32(h[10]@) == size);
}

/// Samples written after an eleven-chunk header read back: the reader
/// returns as many samples as its loop makes reads for the data size `d`
/// that chunk 10 announces; past the first 22, made of the header's bytes,
/// the samples it returns are the written ones, in order. All of them come
/// back when `d` is odd or at least the file's length; exactly `d / 2`
/// samples come back when `d` is even, from 44 up to the file's length.
pub proof fn law_written_samples_read_back(h: Seq<[u8; 4]>, s: Seq<i16>)
    requires
        h.len() == 11,
    ensures
        ({
            let f = flatten_chunks(h) + sample_bytes(s);
            let d = le_u32(header_block(f, 10));
            let r = decoded_samples(f, d);
            &&& d == le_u32(h[10]@)
            &&& r.len() == sample_reads(f.len() as int, d)
            &&& forall|i: int| 0 <= i < s.len() && 22 + i < r.len() ==> #[trigger] r[22 + i] == s[i]
            &&& (d % 2 == 1 || d >= f.len()) ==> r.len() >= 22 + s.len()
            &&& (d % 2 == 0 && 44 <= d <= f.len()) ==> r.len() == d / 2
        }),
{
    let f = flatten_chunks(h) + sample_bytes(s);
    assert(header_block(f, 10) == h[10]@) by {
        lemma_full_block(f, 10);
        assert(f.subrange(40, 44) =~= h[10]@);
    }
    let d = le_u32(header_block(f, 10));
    let r = decoded_samples(f, d);
    assert(d >= 0);
    assert forall|i: int| 0 <= i < s.len() && 22 + i < r.len() implies #[trigger] r[22 + i] == s[i] by {
        let k = (23 + i) as nat;
        lemma_full_pair(f, k);
        assert(f[2 * k - 2] == sample_bytes(s)[2 * i]);
        assert(f[2 * k - 1] == sample_bytes(s)[2 * i + 1]);
        assert((2 * i) / 2 == i && (2 * i + 1) / 2 == i);
    }
}

/// The reader's state after handling `bytes` from state `st`.
spec fn run_from(st: ReadState, bytes: Seq<u8>) -> ReadState
    decreases bytes.len(),
{
    if bytes.len() == 0 {
        st
    } else {
        read_step(run_from(st, bytes.drop_last()), bytes.last())
    }
}

/// The state the reader starts in.
spec fn start() -> ReadState {
    read_run(Seq::<u8>::empty(), 0)
}

/// The table a state stands for once the input ends: the pending codes
/// go under the pending key.
spec fn finished(st: ReadState) -> Map<u8, Seq<u8>> {
    if st.notes.len() > 0 { st.table.insert(st.key, st.notes) } else { st.table }
}

/// The entries of `t` whose key is below `n` and whose list holds a code.
spec fn keys_below(t: Map<u8, Seq<u8>>, n: int) -> Map<u8, Seq<u8>> {
    Map::new(|k: u8| t.dom().contains(k) && k < n && t[k].len() > 0, |k: u8| t[k])
}

/// The entries of a table whose list holds a code.
pub open spec fn nonempty_entries(t: Map<u8, Seq<u8>>) -> Map<u8, Seq<u8>> {
    Map::new(|k: u8| t.dom().contains(k) && t[k].len() > 0, |k: u8| t[k])
}

/// A table whose keys and codes are single digits.
spec fn digit_table(t: Map<u8, Seq<u8>>) -> bool {
    &&& forall|k: u8| #[trigger] t.dom().contains(k) ==> k < 10
    &&& forall|k: u8, j: int| t.dom().contains(k) && 0 <= j < t[k].len() ==> #[trigger] t[k][j] < 10
}

proof fn lemma_run_prefix(bytes: Seq<u8>, n: int)
    requires
        0 <= n <= bytes.len(),
    ensures
        read_run(bytes, n) == run_from(start(), bytes.take(n)),
    decreases n,
{
    if n > 0 {
        lemma_run_prefix(bytes, n - 1);
        assert(bytes.take(n).drop_last() =~= bytes.take(n - 1));
    } else {
        assert(bytes.take(0) =~= Seq::<u8>::empty());
    }
}

proof fn lemma_run_append(st: ReadState, a: Seq<u8>, b: Seq<u8>)
    ensures
        run_from(st, a + b) == run_from(run_from(st, a), b),
    decreases b.len(),
{
    if b.len() == 0 {
        assert(a + b =~= a);
    } else {
        lemma_run_append(st, a, b.drop_last());
        assert((a + b).drop_last() =~= a + b.drop_last());
    }
}

/// Reading single-digit codes appends them to the pending codes.
proof fn lemma_run_codes(st: ReadState, codes: Seq<u8>)
    requires
        !st.expect_key,
        forall|j: int| 0 <= j < codes.len() ==> #[trigger] codes[j] < 10,
    ensures
        ({
            let after = run_from(st, decimals(codes));
            &&& !after.expect_key
            &&& after.key == st.key
            &&& after.notes == st.notes + codes
            &&& after.table == st.table
            &&& after.ok == st.ok
        }),
    decreases codes.len(),
{
    if codes.len() == 0 {
        assert(st.notes + codes =~= st.notes);
        assert(decimals(codes) == Seq::<u8>::empty());
    } else {
        let front = codes.drop_last();
        assert forall|j: int| 0 <= j < front.len() implies #[trigger] front[j] < 10 by {
            assert(front[j] == codes[j]);
        }
        lemma_run_codes(st, front);
        let c = codes.last();
        assert(c == codes[codes.len() - 1]);
        lemma_run_append(st, decimals(front), decimal(c));
        let mid = run_from(st, decimals(front));
        let d = decimal(c);
        assert(d =~= seq![(48 + c) as u8]);
        assert(d.drop_last() =~= Seq::<u8>::empty());
        assert(run_from(mid, d.drop_last()) == mid);
        assert(run_from(mid, d) == read_step(mid, d.last()));
        assert(st.notes + front + seq![c] =~= st.notes + codes);
    }
}

/// One line `k:codes` read from a state expecting a key.
proof fn lemma_run_line(st: ReadState, k: u8, codes: Seq<u8>)
    requires
        st.expect_key,
        k < 10,
        forall|j: int| 0 <= j < codes.len() ==> #[trigger] codes[j] < 10,
    ensures
        ({
            let after = run_from(st, decimal(k) + seq![58u8] + decimals(codes) + seq![10u8]);
            &&& after.expect_key
            &&& after.key == k
            &&& after.notes == codes
            &&& after.table == finished(st)
            &&& after.ok == st.ok
        }),
{
    let d = decimal(k);
    assert(d =~= seq![(48 + k) as u8]);
    assert(d.drop_last() =~= Seq::<u8>::empty());
    assert(run_from(st, d.drop_last()) == st);
    let s1 = run_from(st, d);
    assert(s1 == read_step(st, d.last()));
    assert(!s1.expect_key && s1.key == k && s1.notes.len() == 0 && s1.table == finished(st) && s1.ok == st.ok);
    lemma_run_append(st, d, seq![58u8]);
    let colon = seq![58u8];
    assert(colon.drop_last() =~= Seq::<u8>::empty());
    assert(run_from(s1, colon.drop_last()) == s1);
    let s2 = run_from(st, d + colon);
    assert(s2 == read_step(s1, 58u8));
    lemma_run_append(st, d + colon, decimals(codes));
    lemma_run_codes(s2, codes);
    let s3 = run_from(st, d + colon + decimals(codes));
    assert(s2.notes + codes =~= codes);
    lemma_run_append(st, d + colon + decimals(codes), seq![10u8]);
    let nl = seq![10u8];
    assert(nl.drop_last() =~= Seq::<u8>::empty());
    assert(run_from(s3, nl.drop_last()) == s3);
    assert(run_from(s3, nl) == read_step(s3, 10u8));
}

/// Reading the text of the keys below `n` gives back those entries.
proof fn lemma_run_text(t: Map<u8, Seq<u8>>, n: int)
    requires
        0 <= n <= 256,
        digit_table(t),
    ensures
        ({
            let st = run_from(start(), table_text(t, n));
            &&& st.expect_key
            &&& st.ok
            &&& finished(st) == keys_below(t, n)
        }),
        table_text(t, n).len() == 0 || table_text(t, n).last() == 10,
        forall|k: u8| k < n && #[trigger] t.dom().contains(k) ==> table_text(t, n).len() > 0,
    decreases n,
{
    if n == 0 {
        assert(finished(start()) =~= keys_below(t, 0));
    } else {
        lemma_run_text(t, n - 1);
        let k = (n - 1) as u8;
        let before = table_text(t, n - 1);
        let st = run_from(start(), before);
        if t.dom().contains(k) {
            let codes = t[k];
            assert(k < 10);
            assert forall|j: int| 0 <= j < codes.len() implies #[trigger] codes[j] < 10 by {
                assert(t[k][j] < 10);
            }
            let line = decimal(k) + seq![58u8] + decimals(codes) + seq![10u8];
            lemma_run_line(st, k, codes);
            assert(before + decimal(k) + seq![58u8] + decimals(codes) + seq![10u8] =~= before + line);
            lemma_run_append(start(), before, line);
            let after = run_from(st, line);
            assert(finished(after) =~= keys_below(t, n));
        } else {
            assert(keys_below(t, n - 1) =~= keys_below(t, n));
        }
    }
}

/// A training file written from a table reads back as that table without
/// its empty lists, when every key and code is a single digit and the table
/// holds a key: `load_data` accepts the text that `training_text` writes,
/// and returns the entries whose list holds a code (all of them when no
/// list is empty).
pub proof fn law_training_text_reads_back(t: Map<u8, Seq<u8>>)
    requires
        forall|k: u8| #[trigger] t.dom().contains(k) ==> k < 10,
        forall|k: u8, j: int| t.dom().contains(k) && 0 <= j < t[k].len() ==> #[trigger] t[k][j] < 10,
        exists|k: u8| #[trigger] t.dom().contains(k),
    ensures
        readable(table_text(t, 256)),
        read_table(table_text(t, 256)) == nonempty_entries(t),
        (forall|k: u8| #[trigger] t.dom().contains(k) ==> t[k].len() > 0) ==> read_table(table_text(t, 256)) == t,
{
    let file = table_text(t, 256);
    lemma_run_text(t, 256);
    let k0 = choose|k: u8| #[trigger] t.dom().contains(k);
    assert(file.len() > 0);
    let handled = bytes_handled(file);
    lemma_run_prefix(handled, file.len() + 1int);
    assert(handled.take(file.len() + 1int) =~= handled);
    assert(handled.drop_last() =~= file);
    let st = run_from(start(), file);
    assert(run_from(start(), handled) == read_step(st, 10));
    assert(read_step(st, 10) == st);
    assert(keys_below(t, 256) =~= nonempty_entries(t));
    if forall|k: u8| #[trigger] t.dom().contains(k) ==> t[k].len() > 0 {
        assert(nonempty_entries(t) =~= t);
    }
}

/// The training-file line of key `k`: its decimal value, a colon, its
/// codes in decimal with nothing between them, and a newline.
pub open spec fn table_line(k: u8, v: Seq<u8>) -> Seq<u8> {
    decimal(k) + seq![58u8] + decimals(v) + seq![10u8]
}

/// The lines of the table's keys `ks`, in that order (a key may come more
/// than once).
pub open spec fn lines_text(t: Map<u8, Seq<u8>>, ks: Seq<u8>) -> Seq<u8>
    decreases ks.len(),
{
    if ks.len() == 0 { Seq::<u8>::empty() } else { lines_text(t, ks.drop_last()) + table_line(ks.last(), t[ks.last()]) }
}

/// The entries of `t` whose key is among `ks` and whose list holds a code.
spec fn entries_of(t: Map<u8, Seq<u8>>, ks: Seq<u8>) -> Map<u8, Seq<u8>> {
    Map::new(|k: u8| ks.contains(k) && t[k].len() > 0, |k: u8| t[k])
}

/// Reading the lines of keys `ks` gives back their entries with codes.
proof fn lemma_run_lines(t: Map<u8, Seq<u8>>, ks: Seq<u8>)
    requires
        digit_table(t),
        forall|i: int| 0 <= i < ks.len() ==> t.dom().contains(#[trigger] ks[i]),
    ensures
        ({
            let st = run_from(start(), lines_text(t, ks));
            &&& st.expect_key
            &&& st.ok
            &&& finished(st) == entries_of(t, ks)
        }),
        ks.len() > 0 ==> lines_text(t, ks).len() > 0 && lines_text(t, ks).last() == 10,
    decreases ks.len(),
{
    if ks.len() == 0 {
        assert(finished(start()) =~= entries_of(t, ks));
    } else {
        let front = ks.drop_last();
        assert forall|i: int| 0 <= i < front.len() implies t.dom().contains(#[trigger] front[i]) by {
            assert(front[i] == ks[i]);
        }
        lemma_run_lines(t, front);
        let k = ks.last();
        assert(t.dom().contains(ks[ks.len() - 1]));
        let codes = t[k];
        assert forall|j: int| 0 <= j < codes.len() implies #[trigger] codes[j] < 10 by {
            assert(t[k][j] < 10);
        }
        let before = lines_text(t, front);
        let st = run_from(start(), before);
        lemma_run_line(st, k, codes);
        lemma_run_append(start(), before, table_line(k, codes));
        let after = run_from(st, table_line(k, codes));
        assert forall|q: u8| #[trigger] ks.contains(q) <==> (front.contains(q) || q == k) by {
            if ks.contains(q) && q != k {
                let i = choose|i: int| 0 <= i < ks.len() && ks[i] == q;
                assert(front[i] == q);
            }
            if front.contains(q) {
                let i = choose|i: int| 0 <= i < front.len() && front[i] == q;
                assert(ks[i] == q);
            }
            if q == k {
                assert(ks[ks.len() - 1] == q);
            }
        }
        assert(finished(after) =~= entries_of(t, ks));
        let line = table_line(k, codes);
        assert(line.last() == 10);
        assert((before + line).last() == 10);
    }
}

/// A training file holding one line per key of a table, in any order
/// (a key may even come twice), reads back as that table without its
/// empty lists, when every key and code is a single digit and the table
/// holds a key: `load_data` does not depend on the order in which the
/// table's entries were saved.
pub proof fn law_training_lines_read_back(t: Map<u8, Seq<u8>>, ks: Seq<u8>)
    requires
        forall|k: u8| #[trigger] t.dom().contains(k) ==> k < 10,
        forall|k: u8, j: int| t.dom().contains(k) && 0 <= j < t[k].len() ==> #[trigger] t[k][j] < 10,
        forall|i: int| 0 <= i < ks.len() ==> t.dom().contains(#[trigger] ks[i]),
        forall|k: u8| #[trigger] t.dom().contains(k) ==> ks.contains(k),
        ks.len() > 0,
    ensures
        readable(lines_text(t, ks)),
        read_table(lines_text(t, ks)) == nonempty_entries(t),
{
    let file = lines_text(t, ks);
    lemma_run_lines(t, ks);
    let handled = bytes_handled(file);
    lemma_run_prefix(handled, file.len() + 1int);
    assert(handled.take(file.len() + 1int) =~= handled);
    assert(handled.drop_last() =~= file);
    let st = run_from(start(), file);
    assert(run_from(start(), handled) == read_step(st, 10));
    assert(read_step(st, 10) == st);
    assert(entries_of(t, ks) =~= nonempty_entries(t)) by {
        assert forall|k: u8| #[trigger] ks.contains(k) implies t.dom().contains(k) by {
            let i = choose|i: int| 0 <= i < ks.len() && ks[i] == k;
        }
    }
}

/// The best-ranked period of `[2, i)` not among `chosen`, or 0 when every
/// such period is chosen.
spec fn best_below(c: Seq<i64>, chosen: Seq<usize>, i: int) -> int
    decreases i,
{
    if i <= 2 {
        0
    } else {
        let b = best_below(c, chosen, i - 1);
        let j = i - 1;
        if chosen.contains(j as usize) {
            b
        } else if b == 0 || c[j] >= c[b] {
            j
        } else {
            b
        }
    }
}

proof fn lemma_best_below(c: Seq<i64>, chosen: Seq<usize>, i: int)
    requires
        c.len() == 56,
        2 <= i <= 56,
    ensures
        ({
            let b = best_below(c, chosen, i);
            &&& b == 0 ==> forall|j: usize| 2 <= j < i ==> #[trigger] chosen.contains(j)
            &&& b != 0 ==> 2 <= b < i && !chosen.contains(b as usize)
            &&& b != 0 ==> forall|j: usize| 2 <= j < i && j != b && !chosen.contains(j) ==> #[trigger] ranks_before(c, b, j as int)
        }),
    decreases i,
{
    if i > 2 {
        lemma_best_below(c, chosen, i - 1);
        let b = best_below(c, chosen, i - 1);
        let j = i - 1;
        if !chosen.contains(j as usize) && (b == 0 || c[j] >= c[b]) {
            assert forall|x: usize| 2 <= x < i && x != j && !chosen.contains(x) implies #[trigger] ranks_before(c, j, x as int) by {
                assert(b != 0);
                if x != b {
                    assert(ranks_before(c, b, x as int));
                }
            }
        }
    }
}

/// While fewer than five periods are chosen, a next best one exists.
proof fn lemma_next_best_exists(c: Seq<i64>, chosen: Seq<usize>)
    requires
        c.len() == 56,
        chosen.len() < 5,
    ensures
        exists|i: usize| is_next_best(c, chosen, i as int),
{
    lemma_best_below(c, chosen, 56);
    let b = best_below(c, chosen, 56);
    if b == 0 {
        lemma_few_cover_little(chosen, 2, 56);
    }
    assert(is_next_best(c, chosen, (b as usize) as int));
}

/// The `k` best periods are `k` distinct periods from 2 to 55.
proof fn lemma_top_distinct(c: Seq<i64>, k: nat)
    requires
        c.len() == 56,
        k <= 5,
    ensures
        top_periods(c, k).len() == k,
        forall|i: int| 0 <= i < k ==> 2 <= #[trigger] top_periods(c, k)[i] <= 55,
        forall|i: int, j: int| 0 <= i < j < k ==> top_periods(c, k)[i] != top_periods(c, k)[j],
    decreases k,
{
    if k > 0 {
        lemma_top_distinct(c, (k - 1) as nat);
        let prev = top_periods(c, (k - 1) as nat);
        lemma_next_best_exists(c, prev);
        let x = choose|i: usize| is_next_best(c, prev, i as int);
        assert(top_periods(c, k) == prev.push(x));
        assert forall|i: int, j: int| 0 <= i < j < k implies top_periods(c, k)[i] != top_periods(c, k)[j] by {
            if j == k - 1 {
                assert(prev[i] == top_periods(c, k)[i]);
                if prev[i] == x {
                    assert(prev.contains(x));
                }
            }
        }
    }
}

/// With distinct reference periods, position `f` of a sound scores at
/// most against one of them: the score of the match, or nothing.
proof fn lemma_grade_row(r: Seq<usize>, s: Seq<usize>, f: int, n: int)
    requires
        0 <= n <= r.len(),
        forall|i: int, j: int| 0 <= i < j < r.len() ==> r[i] != r[j],
    ensures
        forall|i: int| 0 <= i < n && r[i] == s[f] ==> grade_row(r, s, f, n) == #[trigger] match_score(f, i),
        (forall|i: int| 0 <= i < n ==> r[i] != s[f]) ==> grade_row(r, s, f, n) == 0,
    decreases n,
{
    if n > 0 {
        lemma_grade_row(r, s, f, n - 1);
        if r[n - 1] == s[f] {
            assert forall|i: int| 0 <= i < n - 1 implies r[i] != s[f] by {
                assert(r[i] != r[n - 1]);
            }
        }
    }
}

proof fn lemma_match_score_bound(f: int, i: int)
    requires
        0 <= f < 5,
        0 <= i < 5,
    ensures
        0 <= match_score(f, i) <= 15 * (5 - f),
        f != i ==> match_score(f, i) < 15 * (5 - f),
{
    if f != i {
        let d = if i >= f { i - f } else { f - i };
        assert(0 <= (10 - 2 * d) * (5 - f) < 15 * (5 - f)) by (nonlinear_arith)
            requires 1 <= d <= 4, 0 <= f < 5;
    }
}

/// The most the first `m` positions can score.
spec fn grade_cap(m: int) -> int
    decreases m,
{
    if m <= 0 { 0 } else { grade_cap(m - 1) + 15 * (5 - (m - 1)) }
}

proof fn lemma_grade_upto(r: Seq<usize>, s: Seq<usize>, m: int)
    requires
        r.len() == 5,
        s.len() == 5,
        0 <= m <= 5,
        forall|i: int, j: int| 0 <= i < j < r.len() ==> r[i] != r[j],
    ensures
        0 <= grade_upto(r, s, m) <= grade_cap(m),
        s == r ==> grade_upto(r, s, m) == grade_cap(m),
        grade_upto(r, s, m) == grade_cap(m) ==> forall|f: int| 0 <= f < m ==> #[trigger] s[f] == r[f],
    decreases m,
{
    if m > 0 {
        lemma_grade_upto(r, s, m - 1);
        let f = m - 1;
        lemma_grade_row(r, s, f, 5);
        if exists|i: int| 0 <= i < 5 && r[i] == s[f] {
            let i = choose|i: int| 0 <= i < 5 && r[i] == s[f];
            lemma_match_score_bound(f, i);
            assert(grade_row(r, s, f, 5) == match_score(f, i));
        } else {
            assert(grade_row(r, s, f, 5) == 0);
        }
        if s == r {
            lemma_match_score_bound(f, f);
            assert(grade_row(r, s, f, 5) == match_score(f, f));
        }
    }
}

/// No grade exceeds 225, and a sound that is the reference itself grades
/// 225: when the reference is among the candidates, `find_music` returns
/// a candidate graded 225.
pub proof fn law_reference_grades_highest(sounds: Seq<Vec<i16>>, reff: Seq<i16>, eps: int)
    ensures
        ({
            let g = music_grades(sounds, reff, eps);
            &&& forall|j: int| 0 <= j < g.len() ==> #[trigger] g[j] <= 225
            &&& forall|j: int| 0 <= j < g.len() && sounds[j]@ == reff ==> #[trigger] g[j] == 225
        }),
{
    let g = music_grades(sounds, reff, eps);
    let r = top_periods(pitch_histogram(reff, eps), 5);
    lemma_top_distinct(pitch_histogram(reff, eps), 5);
    assert(grade_cap(5) == 225) by {
        reveal_with_fuel(grade_cap, 6);
    }
    assert forall|j: int| 0 <= j < g.len() implies #[trigger] g[j] <= 225 by {
        let s = top_periods(pitch_histogram(sounds[j]@, eps), 5);
        lemma_top_distinct(pitch_histogram(sounds[j]@, eps), 5);
        lemma_grade_upto(r, s, 5);
    }
    assert forall|j: int| 0 <= j < g.len() && sounds[j]@ == reff implies #[trigger] g[j] == 225 by {
        let s = top_periods(pitch_histogram(sounds[j]@, eps), 5);
        lemma_grade_upto(r, s, 5);
    }
}

/// A sound grades the full 225 exactly when its five best periods are the
/// reference's five best, in the same order.
pub proof fn law_full_grade_iff_same_top_periods(sounds: Seq<Vec<i16>>, reff: Seq<i16>, eps: int)
    ensures
        ({
            let g = music_grades(sounds, reff, eps);
            let r = top_periods(pitch_histogram(reff, eps), 5);
            forall|j: int| 0 <= j < g.len() ==>
                (#[trigger] g[j] == 225 <==> top_periods(pitch_histogram(sounds[j]@, eps), 5) == r)
        }),
{
    let g = music_grades(sounds, reff, eps);
    let r = top_periods(pitch_histogram(reff, eps), 5);
    lemma_top_distinct(pitch_histogram(reff, eps), 5);
    assert(grade_cap(5) == 225) by {
        reveal_with_fuel(grade_cap, 6);
    }
    assert forall|j: int| 0 <= j < g.len() implies
        (#[trigger] g[j] == 225 <==> top_periods(pitch_histogram(sounds[j]@, eps), 5) == r) by {
        let s = top_periods(pitch_histogram(sounds[j]@, eps), 5);
        lemma_top_distinct(pitch_histogram(sounds[j]@, eps), 5);
        lemma_grade_upto(r, s, 5);
        if g[j] == 225 {
            assert(s =~= r);
        }
    }
}

proof fn lemma_detections_antitone(s8: Seq<i16>, l: int, t: int, eps1: int, eps2: int)
    requires
        eps1 <= eps2,
    ensures
        detections(s8, l, t, eps2) <= detections(s8, l, t, eps1),
    decreases t,
{
    if t > 0 {
        lemma_detections_antitone(s8, l, t - 1, eps1, eps2);
        let p = periodicity(s8, l, t - 1);
        if detected(s8, l, t - 1, eps2) {
            assert(p * eps1 <= p * eps2) by (nonlinear_arith)
                requires p > 0, eps1 <= eps2;
        }
    }
}

/// A larger `eps` never counts a period more often: the pitch histogram
/// only shrinks, entry by entry, as `eps` grows.
pub proof fn law_pitch_histogram_antitone(samples: Seq<i16>, eps1: int, eps2: int)
    requires
        eps1 <= eps2,
        samples.len() <= usize::MAX,
    ensures
        forall|i: int| 0 <= i < 56 ==>
            #[trigger] pitch_histogram(samples, eps2)[i] <= pitch_histogram(samples, eps1)[i],
{
    let s8 = decimate(samples);
    let n = pitch_steps(s8.len() as int);
    assert forall|i: int| 0 <= i < 56 implies
        #[trigger] pitch_histogram(samples, eps2)[i] <= pitch_histogram(samples, eps1)[i] by {
        if 2 <= i <= 55 {
            lemma_detections_antitone(s8, i, n, eps1, eps2);
            lemma_detections_bounds(s8, i, n, eps1);
            lemma_detections_bounds(s8, i, n, eps2);
            assert(n <= i64::MAX);
        }
    }
}

/// `r` is `v / d` rounded toward zero, held to the range of a sample: the
/// largest sample whose `d`-fold does not pass `v` on the side of zero.
pub open spec fn rounded_sample(r: int, v: int, d: int) -> bool {
    &&& v >= 0 ==> (d * r <= v < d * r + d || (r == 32767 && v >= d * 32767))
    &&& v < 0 ==> (d * r - d < v <= d * r || (r == -32768 && v <= d * -32768))
}

/// The resonance keeps the first quarter second as it is; from a quarter
/// second on, each sample gets half of the sample a quarter second (11025
/// samples) before it; from half a second on, it gets instead a quarter of
/// the sample half a second (22050 samples) before it. Each sum is rounded
/// toward zero and held to the range of a sample.
pub proof fn law_echo_taps(s: Seq<i16>)
    ensures
        echoed(s).len() == s.len(),
        forall|i: int| 0 <= i < s.len() && i < 11025 ==> #[trigger] echoed(s)[i] == s[i],
        forall|i: int| 11025 <= i < s.len() && i < 22050 ==>
            rounded_sample(#[trigger] echoed(s)[i] as int, 2 * s[i] + s[i - 11025], 2),
        forall|i: int| 22050 <= i < s.len() ==>
            rounded_sample(#[trigger] echoed(s)[i] as int, 4 * s[i] + s[i - 22050], 4),
{
    assert(ECHO_DELAY == 11025);
}

/// The header of a created file describes its samples consistently, as a
/// WAV file must: "RIFF" and "WAVE" tags, a "fmt " chunk of 16 bytes, PCM format, and a byte
/// rate equal to sample rate times channels times bytes per sample, a block
/// size equal to channels times bytes per sample (one channel of 16-bit
/// samples at 44100 Hz: 88200 bytes per second, 2 bytes per frame).
#[verifier::spinoff_prover]
#[verifier::rlimit(40)]
pub proof fn law_created_header_is_consistent(s: Seq<i16>)
    ensures
        ({
            let f = flatten_chunks(mono_header(s.len() as int)) + sample_bytes(s);
            let channels = header_block(f, 5)[2] + 256 * header_block(f, 5)[3];
            let bits = header_block(f, 8)[2] + 256 * header_block(f, 8)[3];
            let rate = le_u32(header_block(f, 6));
            &&& header_block(f, 0) == seq![82u8, 73u8, 70u8, 70u8]
            &&& header_block(f, 2) == seq![87u8, 65u8, 86u8, 69u8]
            &&& header_block(f, 3) == seq![102u8, 109u8, 116u8, 32u8]
            &&& le_u32(header_block(f, 4)) == 16
            &&& header_block(f, 5)[0] + 256 * header_block(f, 5)[1] == 1
            &&& le_u32(header_block(f, 7)) == rate * channels * bits / 8
            &&& header_block(f, 8)[0] + 256 * header_block(f, 8)[1] == channels * bits / 8
            &&& rate == 44100 && channels == 1 && bits == 16
            &&& header_block(f, 9) == seq![100u8, 97u8, 116u8, 97u8]
        }),
{
    let h = mono_header(s.len() as int);
    let f = flatten_chunks(h) + sample_bytes(s);
    assert(header_block(f, 0) == h[0]@) by {
        lemma_full_block(f, 0);
        assert(f.subrange(0, 4) =~= h[0]@);
    }
    assert(header_block(f, 2) == h[2]@) by {
        lemma_full_block(f, 2);
        assert(f.subrange(8, 12) =~= h[2]@);
    }
    assert(h[0]@ =~= seq![82u8, 73u8, 70u8, 70u8]);
    assert(h[2]@ =~= seq![87u8, 65u8, 86u8, 69u8]);
    assert(header_block(f, 3) == h[3]@) by {
        lemma_full_block(f, 3);
        assert(f.subrange(12, 16) =~= h[3]@);
    }
    assert(header_block(f, 4) == h[4]@) by {
        lemma_full_block(f, 4);
        assert(f.subrange(16, 20) =~= h[4]@);
    }
    assert(header_block(f, 5) == h[5]@) by {
        lemma_full_block(f, 5);
        assert(f.subrange(20, 24) =~= h[5]@);
    }
    assert(header_block(f, 6) == h[6]@) by {
        lemma_full_block(f, 6);
        assert(f.subrange(24, 28) =~= h[6]@);
    }
    assert(header_block(f, 7) == h[7]@) by {
        lemma_full_block(f, 7);
        assert(f.subrange(28, 32) =~= h[7]@);
    }
    assert(header_block(f, 8) == h[8]@) by {
        lemma_full_block(f, 8);
        assert(f.subrange(32, 36) =~= h[8]@);
    }
    assert(header_block(f, 9) == h[9]@) by {
        lemma_full_block(f, 9);
        assert(f.subrange(36, 40) =~= h[9]@);
    }
    assert(h[3]@ =~= seq![102u8, 109u8, 116u8, 32u8]);
    assert(h[9]@ =~= seq![100u8, 97u8, 116u8, 97u8]);
}

/// Whether the period-`l` scan going on from `c`, with its window set up at
/// `r`, marks sample `i`.
spec fn scan_marks(s: Seq<i16>, eps: int, l: int, r: int, c: int, i: int) -> bool
    decreases positive_part(scan_end(s.len() as int, l) - c), (if r == c { 0int } else { 1int }),
{
    if l < 0 || c >= scan_end(s.len() as int, l) {
        false
    } else if scan_hit(s, eps, l, r, c) {
        proof {
            if l == 0 && r == c {
                lemma_zero_period_at_setup(s, eps, c);
            }
        }
        (c <= i < c + l) || scan_marks(s, eps, l, c + l, c + l, i)
    } else {
        scan_marks(s, eps, l, r, c + 1, i)
    }
}

/// A scan sets its marks over what the mark vector held and leaves the
/// rest as it was.
proof fn lemma_marks_overlay(s: Seq<i16>, eps: int, l: int, r: int, c: int, ch: Seq<i16>, i: int)
    requires
        0 <= i < ch.len(),
    ensures
        marks_from(s, eps, l, r, c, ch)[i] == (if scan_marks(s, eps, l, r, c, i) { 1i16 } else { ch[i] }),
    decreases positive_part(scan_end(s.len() as int, l) - c), (if r == c { 0int } else { 1int }),
{
    if l < 0 || c >= scan_end(s.len() as int, l) {
    } else if scan_hit(s, eps, l, r, c) {
        if l == 0 && r == c {
            lemma_zero_period_at_setup(s, eps, c);
        }
        lemma_marks_overlay(s, eps, l, c + l, c + l, set_ones(ch, c, c + l), i);
    } else {
        lemma_marks_overlay(s, eps, l, r, c + 1, ch, i);
    }
}

proof fn lemma_periods_len(s: Seq<i16>, eps: int, lo: int, hi: int, ch: Seq<i16>)
    ensures
        marks_for_periods(s, eps, lo, hi, ch).len() == ch.len(),
    decreases hi - lo + 1,
{
    if lo <= hi {
        lemma_marks_len(s, eps, lo, lo, lo, ch);
        lemma_periods_len(s, eps, lo + 1, hi, marks_from(s, eps, lo, lo, lo, ch));
    }
}

/// The scans of a range of periods set the marks of each over what the
/// mark vector held.
proof fn lemma_periods_overlay(s: Seq<i16>, eps: int, lo: int, hi: int, ch: Seq<i16>, i: int)
    requires
        0 <= i < ch.len(),
    ensures
        marks_for_periods(s, eps, lo, hi, ch).len() == ch.len(),
        marks_for_periods(s, eps, lo, hi, ch)[i]
            == (if exists|l: int| lo <= l <= hi && #[trigger] scan_marks(s, eps, l, l, l, i) { 1i16 } else { ch[i] }),
    decreases hi - lo + 1,
{
    if lo <= hi {
        let ch2 = marks_from(s, eps, lo, lo, lo, ch);
        lemma_marks_len(s, eps, lo, lo, lo, ch);
        lemma_marks_overlay(s, eps, lo, lo, lo, ch, i);
        lemma_periods_overlay(s, eps, lo + 1, hi, ch2, i);
        if exists|l: int| lo <= l <= hi && #[trigger] scan_marks(s, eps, l, l, l, i) {
            let l = choose|l: int| lo <= l <= hi && #[trigger] scan_marks(s, eps, l, l, l, i);
            if l > lo {
                assert(lo + 1 <= l <= hi && scan_marks(s, eps, l, l, l, i));
            }
        }
        if exists|l: int| lo + 1 <= l <= hi && #[trigger] scan_marks(s, eps, l, l, l, i) {
            let l = choose|l: int| lo + 1 <= l <= hi && #[trigger] scan_marks(s, eps, l, l, l, i);
            assert(lo <= l <= hi && scan_marks(s, eps, l, l, l, i));
        }
        if scan_marks(s, eps, lo, lo, lo, i) {
            assert(lo <= lo <= hi && scan_marks(s, eps, lo, lo, lo, i));
        }
    }
}

/// The equalizer marks a sample exactly when the scan of one of the periods
/// from `44100 / freq_max - 1` up to `44100 / freq_min + 1` (both included),
/// run alone on an unmarked signal, marks it; every mark is 0 or 1.
pub proof fn law_equalizer_marks_every_period(s: Seq<i16>, eps: int, freq_min: int, freq_max: int)
    requires
        freq_min != 0,
        freq_max != 0,
    ensures
        ({
            let z = Seq::new(s.len(), |i: int| 0i16);
            let r = marks_for_periods(s, eps, period_bounds(freq_min, freq_max).0, period_bounds(freq_min, freq_max).1, z);
            &&& r.len() == s.len()
            &&& forall|i: int| 0 <= i < s.len() ==> (#[trigger] r[i] == 0 || r[i] == 1)
            &&& forall|i: int| 0 <= i < s.len() ==> (#[trigger] r[i] == 1 <==>
                    exists|l: int| 44100int / freq_max - 1 <= l <= 44100int / freq_min + 1
                        && #[trigger] marks_from(s, eps, l, l, l, z)[i] == 1)
        }),
{
    let z = Seq::new(s.len(), |i: int| 0i16);
    let lo = period_bounds(freq_min, freq_max).0;
    let hi = period_bounds(freq_min, freq_max).1;
    let r = marks_for_periods(s, eps, lo, hi, z);
    lemma_periods_len(s, eps, lo, hi, z);
    assert forall|i: int| 0 <= i < s.len() implies (#[trigger] r[i] == 0 || r[i] == 1) && (r[i] == 1 <==>
        exists|l: int| 44100int / freq_max - 1 <= l <= 44100int / freq_min + 1
            && #[trigger] marks_from(s, eps, l, l, l, z)[i] == 1) by {
        lemma_periods_overlay(s, eps, lo, hi, z, i);
        assert forall|l: int| #[trigger] marks_from(s, eps, l, l, l, z).len() == s.len() by {
            lemma_marks_len(s, eps, l, l, l, z);
        }
        if r[i] == 1 {
            let l = choose|l: int| lo <= l <= hi && #[trigger] scan_marks(s, eps, l, l, l, i);
            lemma_marks_overlay(s, eps, l, l, l, z, i);
            assert(marks_from(s, eps, l, l, l, z)[i] == 1);
        }
        if exists|l: int| 44100int / freq_max - 1 <= l <= 44100int / freq_min + 1
            && #[trigger] marks_from(s, eps, l, l, l, z)[i] == 1 {
            let l = choose|l: int| 44100int / freq_max - 1 <= l <= 44100int / freq_min + 1
                && #[trigger] marks_from(s, eps, l, l, l, z)[i] == 1;
            lemma_marks_overlay(s, eps, l, l, l, z, i);
            assert(lo <= l <= hi && scan_marks(s, eps, l, l, l, i));
        }
    }
}

} // verus!
