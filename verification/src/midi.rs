use vstd::prelude::*;
use std::collections::HashMap;
use crate::random::random_in_range;

verus! {

broadcast use vstd::std_specs::hash::group_hash_axioms;

/// Number of events a generated MIDI track holds before its end marker.
pub const MIDI_WALK_LEN: usize = 200;

/// Event `b` comes right after event `a` somewhere in the track.
pub open spec fn follows(track: Seq<u32>, a: u32, b: u32) -> bool {
    exists|j: int| 0 <= j < track.len() - 1 && track[j] == a && #[trigger] track[j + 1] == b
}

/// Event `a` is followed by some event in the track: it has an entry in
/// the track's transition table.
pub open spec fn has_follower(track: Seq<u32>, a: u32) -> bool {
    exists|j: int| 0 <= j < track.len() - 1 && #[trigger] track[j] == a
}

/// Event `b` follows some event: it occurs in the track after the first position.
pub open spec fn is_follower(track: Seq<u32>, b: u32) -> bool {
    exists|j: int| 1 <= j < track.len() && #[trigger] track[j] == b
}

/// Event `b` comes right after event `k` among the first `n` transitions of the track.
pub open spec fn follows_within(track: Seq<u32>, n: int, k: u32, b: u32) -> bool {
    exists|j: int| 0 <= j < n && track[j] == k && #[trigger] track[j + 1] == b
}

/// The entry of event `k` in the transition table of the first `n`
/// transitions of the track is right: it lists only events that follow
/// `k` there, at least one.
pub open spec fn entry_ok(track: Seq<u32>, n: int, k: u32, v: Seq<u32>) -> bool {
    &&& v.len() > 0
    &&& forall|m: int| 0 <= m < v.len() ==> #[trigger] follows_within(track, n, k, v[m])
}

/// A walk that the event generator can produce from a track: it starts on
/// an event that has a follower; each next event follows the one before it
/// in the track, or, when that one has no follower, is any event that
/// follows some event.
pub open spec fn is_event_walk(track: Seq<u32>, walk: Seq<u32>) -> bool {
    &&& walk.len() > 0 ==> has_follower(track, walk[0])
    &&& forall|k: int| 0 <= k < walk.len() - 1 ==> {
        if has_follower(track, #[trigger] walk[k]) {
            follows(track, walk[k], walk[k + 1])
        } else {
            is_follower(track, walk[k + 1])
        }
    }
}

proof fn lemma_within_extend(track: Seq<u32>, n: int, k: u32, b: u32)
    requires
        follows_within(track, n, k, b),
    ensures
        follows_within(track, n + 1, k, b),
{
    let j = choose|j: int| 0 <= j < n && track[j] == k && #[trigger] track[j + 1] == b;
}

proof fn lemma_entry_extend(track: Seq<u32>, n: int, k: u32, v: Seq<u32>)
    requires
        entry_ok(track, n, k, v),
    ensures
        entry_ok(track, n + 1, k, v),
{
    assert forall|m: int| 0 <= m < v.len() implies #[trigger] follows_within(track, n + 1, k, v[m]) by {
        assert(follows_within(track, n, k, v[m]));
        lemma_within_extend(track, n, k, v[m]);
    }
}

proof fn lemma_entry_push(track: Seq<u32>, n: int, v: Seq<u32>)
    requires
        0 <= n < track.len() - 1,
        entry_ok(track, n, track[n], v),
    ensures
        entry_ok(track, n + 1, track[n], v.push(track[n + 1])),
{
    let k = track[n];
    let w = v.push(track[n + 1]);
    assert forall|m: int| 0 <= m < w.len() implies #[trigger] follows_within(track, n + 1, k, w[m]) by {
        if m < v.len() {
            assert(w[m] == v[m]);
            assert(follows_within(track, n, k, v[m]));
            lemma_within_extend(track, n, k, v[m]);
        } else {
            assert(track[n + 1] == w[m]);
        }
    }
}

proof fn lemma_entry_new(track: Seq<u32>, n: int)
    requires
        0 <= n < track.len() - 1,
    ensures
        entry_ok(track, n + 1, track[n], seq![track[n + 1]]),
{
    let w = seq![track[n + 1]];
    assert forall|m: int| 0 <= m < w.len() implies #[trigger] follows_within(track, n + 1, track[n], w[m]) by {
        assert(track[n + 1] == w[m]);
    }
}

proof fn lemma_walk_push(track: Seq<u32>, walk: Seq<u32>, x: u32)
    requires
        is_event_walk(track, walk),
        walk.len() == 0 ==> has_follower(track, x),
        walk.len() > 0 ==> if has_follower(track, walk.last()) {
            follows(track, walk.last(), x)
        } else {
            is_follower(track, x)
        },
    ensures
        is_event_walk(track, walk.push(x)),
{
    let w = walk.push(x);
    assert forall|k: int| 0 <= k < w.len() - 1 implies {
        if has_follower(track, #[trigger] w[k]) {
            follows(track, w[k], w[k + 1])
        } else {
            is_follower(track, w[k + 1])
        }
    } by {
        if k < walk.len() - 1 {
            assert(w[k] == walk[k] && w[k + 1] == walk[k + 1]);
        } else {
            assert(w[k] == walk.last());
        }
    }
    if walk.len() > 0 {
        assert(w[0] == walk[0]);
    }
}

/// Generates the events of a new track from the events of a model track,
/// each event given by a number (equal events, equal numbers): builds the
/// table of the events that follow each event, draws a first event among
/// those that have a follower, then draws each next event among the
/// followers of the current one, first jumping to a random event that has
/// followers when the current one has none.
pub fn midi_walk(track: &Vec<u32>) -> (r: Vec<u32>)
    requires
        track@.len() >= 2,
    ensures
        r@.len() == MIDI_WALK_LEN,
        is_event_walk(track@, r@),
{
    let mut table: HashMap<u32, Vec<u32>> = HashMap::new();
    let mut keys: Vec<u32> = Vec::new();
    let n = track.len() - 1;
    let mut i: usize = 0;
    while i < n
        invariant
            n == track@.len() - 1,
            i <= n,
            forall|k: u32| #[trigger] table@.dom().contains(k) <==> exists|j: int| 0 <= j < i && #[trigger] track@[j] == k,
            forall|k: u32| #[trigger] table@.dom().contains(k) ==> entry_ok(track@, i as int, k, table@[k]@),
            forall|q: int| 0 <= q < keys@.len() ==> table@.dom().contains(#[trigger] keys@[q]),
            i > 0 ==> keys@.len() > 0,
        decreases n - i,
    {
        let cur = track[i];
        let next = track[i + 1];
        let ghost before = table@;
        if !table.contains_key(&cur) {
            let mut v: Vec<u32> = Vec::new();
            v.push(next);
            table.insert(cur, v);
            keys.push(cur);
            proof {
                assert forall|k: u32| #[trigger] table@.dom().contains(k) implies entry_ok(track@, i + 1, k, table@[k]@) by {
                    if k == cur {
                        assert(table@[k]@ =~= seq![track@[i as int + 1]]);
                        lemma_entry_new(track@, i as int);
                    } else {
                        assert(table@[k] == before[k]);
                        lemma_entry_extend(track@, i as int, k, before[k]@);
                    }
                }
            }
        } else {
            let mut v: Vec<u32> = match table.get(&cur) {
                Some(x) => x.clone(),
                None => Vec::new(),
            };
            let ghost old_v = v@;
            assert(old_v == before[cur]@);
            v.push(next);
            table.insert(cur, v);
            proof {
                assert forall|k: u32| #[trigger] table@.dom().contains(k) implies entry_ok(track@, i + 1, k, table@[k]@) by {
                    if k == cur {
                        assert(table@[k]@ == old_v.push(track@[i as int + 1]));
                        lemma_entry_push(track@, i as int, old_v);
                    } else {
                        assert(table@[k] == before[k]);
                        lemma_entry_extend(track@, i as int, k, before[k]@);
                    }
                }
            }
        }
        proof {
            assert forall|k: u32| #[trigger] table@.dom().contains(k) <==> exists|j: int| 0 <= j < i + 1 && #[trigger] track@[j] == k by {
                if table@.dom().contains(k) && k != cur {
                    let j = choose|j: int| 0 <= j < i && #[trigger] track@[j] == k;
                }
                if exists|j: int| 0 <= j < i + 1 && #[trigger] track@[j] == k {
                    let j = choose|j: int| 0 <= j < i + 1 && #[trigger] track@[j] == k;
                    if j < i {
                        assert(before.dom().contains(k));
                    }
                }
            }
            assert forall|q: int| 0 <= q < keys@.len() implies table@.dom().contains(#[trigger] keys@[q]) by {
                if q < keys@.len() - 1 || keys@.last() != cur {
                }
            }
        }
        i = i + 1;
    }
    let first = keys[random_in_range(0, keys.len())];
    let mut note: u32 = first;
    let mut out: Vec<u32> = Vec::new();
    let mut c: usize = 0;
    proof {
        let j = choose|j: int| 0 <= j < n && #[trigger] track@[j] == note;
    }
    while c < MIDI_WALK_LEN
        invariant
            n == track@.len() - 1,
            forall|k: u32| #[trigger] table@.dom().contains(k) <==> exists|j: int| 0 <= j < n && #[trigger] track@[j] == k,
            forall|k: u32| #[trigger] table@.dom().contains(k) ==> entry_ok(track@, n as int, k, table@[k]@),
            forall|q: int| 0 <= q < keys@.len() ==> table@.dom().contains(#[trigger] keys@[q]),
            keys@.len() > 0,
            c <= MIDI_WALK_LEN,
            out@.len() == c,
            is_event_walk(track@, out@),
            c == 0 ==> has_follower(track@, note),
            c > 0 ==> if has_follower(track@, out@.last()) {
                follows(track@, out@.last(), note)
            } else {
                is_follower(track@, note)
            },
        decreases MIDI_WALK_LEN - c,
    {
        let ghost before = out@;
        out.push(note);
        proof {
            lemma_walk_push(track@, before, note);
        }
        let mut cur = note;
        if !table.contains_key(&cur) {
            cur = keys[random_in_range(0, keys.len())];
        }
        assert(table@.dom().contains(cur));
        let nexts = match table.get(&cur) {
            Some(v) => v,
            None => {
                return out;
            },
        };
        let j = random_in_range(0, nexts.len());
        let nx = nexts[j];
        proof {
            assert(entry_ok(track@, n as int, cur, table@[cur]@));
            assert(nexts@[j as int] == nx);
            assert(follows_within(track@, n as int, cur, nexts@[j as int]));
            let w = choose|w: int| 0 <= w < n && track@[w] == cur && #[trigger] track@[w + 1] == nexts@[j as int];
            assert(follows(track@, cur, nx));
            assert(is_follower(track@, nx));
            if table@.dom().contains(note) {
                let q = choose|q: int| 0 <= q < n && #[trigger] track@[q] == note;
                assert(has_follower(track@, note));
            } else {
                if has_follower(track@, note) {
                    let q = choose|q: int| 0 <= q < track@.len() - 1 && #[trigger] track@[q] == note;
                    assert(table@.dom().contains(note));
                }
            }
            assert(out@.last() == note);
        }
        note = nx;
        c = c + 1;
    }
    out
}


/// How a MIDI file counts time: ticks per beat, or a frame rate (in frames
/// per second) and ticks per frame.
pub enum MidiTiming {
    Metrical(u16),
    Timecode(u8, u8),
}

/// A MIDI event as a file holds it: its delta time and the bytes of the
/// event after the delta (without the status byte when the file relies on
/// running status).
pub type RawEvent = (u32, Vec<u8>);

/// The plain view of a track of raw events.
pub open spec fn events_view(v: Seq<RawEvent>) -> Seq<(u32, Seq<u8>)> {
    Seq::new(v.len(), |i: int| (v[i].0, v[i].1@))
}

/// A MIDI event as `midly` parses it: its delta time, the bytes of the
/// event after the delta as the file holds them, and the description
/// `midly` gives of the event it read from them (its `Debug` text). The
/// description is the same for two events exactly when `midly` reads them
/// as the same event, however the file wrote them.
pub type ParsedEvent = (u32, Vec<u8>, Vec<u8>);

/// The plain view of a track of parsed events.
pub open spec fn parsed_view(v: Seq<ParsedEvent>) -> Seq<(u32, Seq<u8>, Seq<u8>)> {
    Seq::new(v.len(), |i: int| (v[i].0, v[i].1@, v[i].2@))
}

/// The delta time and raw bytes of each event of a parsed track.
pub open spec fn raw_part(v: Seq<(u32, Seq<u8>, Seq<u8>)>) -> Seq<(u32, Seq<u8>)> {
    Seq::new(v.len(), |i: int| (v[i].0, v[i].1))
}

/// The delta time and description of each event of a parsed track: what
/// tells two events apart.
pub open spec fn key_part(v: Seq<(u32, Seq<u8>, Seq<u8>)>) -> Seq<(u32, Seq<u8>)> {
    Seq::new(v.len(), |i: int| (v[i].0, v[i].2))
}

/// What `midly` parses from the bytes of a MIDI file: `None` when it
/// refuses them, else the file's timing and, for each track, its events
/// (see `ParsedEvent`).
pub uninterp spec fn smf_parsed(bytes: Seq<u8>) -> Option<(MidiTiming, Seq<Seq<(u32, Seq<u8>, Seq<u8>)>>)>;

/// The bytes `midly` writes for the file it parses from `bytes` (`None`
/// when it refuses them or cannot write the file).
pub uninterp spec fn smf_rewritten(bytes: Seq<u8>) -> Option<Seq<u8>>;

/// Parses a MIDI file with `midly::SmfBytemap::parse`, keeping each event
/// as its delta time, the raw bytes `midly` read for it and the `Debug`
/// text of the event `midly` made of them. The result is named
/// `smf_parsed`; nothing more is claimed of it.
#[verifier::external_body]
fn parse_smf(bytes: &[u8]) -> (r: Option<(MidiTiming, Vec<Vec<ParsedEvent>>)>)
    ensures
        r is Some <==> smf_parsed(bytes@) is Some,
        r is Some ==> ({
            let (timing, tracks) = r->0;
            let (p_timing, p_tracks) = smf_parsed(bytes@)->0;
            &&& timing == p_timing
            &&& tracks@.len() == p_tracks.len()
            &&& forall|t: int| 0 <= t < tracks@.len() ==> parsed_view(#[trigger] tracks@[t]@) == p_tracks[t]
        }),
{
    let smf = midly::SmfBytemap::parse(bytes).ok()?;
    let timing = match smf.header.timing {
        midly::Timing::Metrical(t) => MidiTiming::Metrical(t.as_int()),
        midly::Timing::Timecode(fps, sub) => MidiTiming::Timecode(fps.as_int(), sub),
    };
    let tracks = smf.tracks.iter().map(|t| t.iter()
        .map(|(raw, ev)| (ev.delta.as_int(), raw.to_vec(), format!("{:?}", ev.kind).into_bytes())).collect()).collect();
    Some((timing, tracks))
}

/// Parses the bytes of a MIDI file with `midly::Smf::parse` and writes the
/// parsed file back with `midly::Smf::write_std`. The result is named
/// `smf_rewritten`; nothing more is claimed of it.
#[verifier::external_body]
fn rewrite_smf(bytes: &[u8]) -> (r: Option<Vec<u8>>)
    ensures
        r is Some <==> smf_rewritten(bytes@) is Some,
        r is Some ==> r->0@ == smf_rewritten(bytes@)->0,
{
    let smf = midly::Smf::parse(bytes).ok()?;
    let mut out: Vec<u8> = Vec::new();
    smf.write_std(&mut out).ok()?;
    Some(out)
}

/// The status that stays in force after an event whose raw bytes are
/// `raw`, `running` being the one in force before: a channel message sets
/// it, a system or meta event clears it, an event without status keeps it.
pub open spec fn status_after(running: Option<u8>, raw: Seq<u8>) -> Option<u8> {
    if raw.len() > 0 && raw[0] >= 0x80 {
        if raw[0] <= 0xEF { Some(raw[0]) } else { None }
    } else {
        running
    }
}

/// The status in force before event `i` of a track.
pub open spec fn running_before(track: Seq<(u32, Seq<u8>)>, i: int) -> Option<u8>
    decreases i,
{
    if i <= 0 { None } else { status_after(running_before(track, i - 1), track[i - 1].1) }
}

/// An event's bytes with its status written out: an event that relies on
/// running status gets the status in force put back in front.
pub open spec fn with_status(running: Option<u8>, raw: Seq<u8>) -> Seq<u8> {
    if raw.len() > 0 && raw[0] < 0x80 && running is Some { seq![running->0] + raw } else { raw }
}

/// The events of a track with every status written out: equal events get
/// equal bytes.
pub open spec fn full_events(track: Seq<(u32, Seq<u8>)>) -> Seq<(u32, Seq<u8>)> {
    Seq::new(track.len(), |i: int| (track[i].0, with_status(running_before(track, i), track[i].1)))
}

/// The first position from `k` on where `ev` holds `x` (the length when none).
pub open spec fn find_from(ev: Seq<(u32, Seq<u8>)>, x: (u32, Seq<u8>), k: int) -> int
    decreases ev.len() - k,
{
    if k >= ev.len() { k } else if ev[k] == x { k } else { find_from(ev, x, k + 1) }
}

/// The number of each event: the position of its first occurrence.
pub open spec fn event_numbers(ev: Seq<(u32, Seq<u8>)>) -> Seq<u32> {
    Seq::new(ev.len(), |i: int| find_from(ev, ev[i], 0) as u32)
}

/// The standard variable-length bytes of `x`, all but the last with the top bit set.
pub open spec fn varlen_lead(x: nat) -> Seq<u8>
    decreases x,
{
    if x < 128 { seq![(x + 128) as u8] } else { varlen_lead(x / 128) + seq![(x % 128 + 128) as u8] }
}

/// The variable-length quantity of `x`: seven bits a byte, most
/// significant first, the top bit set on every byte but the last.
pub open spec fn varlen(x: nat) -> Seq<u8> {
    if x < 128 { seq![x as u8] } else { varlen_lead(x / 128) + seq![(x % 128) as u8] }
}

/// The bytes of a track's events: each delta time as a variable-length
/// quantity, then the event's bytes.
pub open spec fn track_body(ev: Seq<(u32, Seq<u8>)>) -> Seq<u8>
    decreases ev.len(),
{
    if ev.len() == 0 { Seq::<u8>::empty() } else { track_body(ev.drop_last()) + varlen(ev.last().0 as nat) + ev.last().1 }
}

/// The end-of-track meta event, with delta time 0.
pub open spec fn end_of_track() -> Seq<u8> {
    seq![0u8, 0xFFu8, 0x2Fu8, 0u8]
}

/// The two bytes of a file's timing word.
pub open spec fn timing_word(t: MidiTiming) -> Seq<u8> {
    match t {
        MidiTiming::Metrical(v) => seq![((v / 256) % 128) as u8, (v % 256) as u8],
        MidiTiming::Timecode(fps, sub) => seq![((256 - fps) % 256) as u8, sub],
    }
}

/// The big-endian bytes of a 32-bit length.
pub open spec fn be_u32(x: nat) -> Seq<u8> {
    seq![(x / 16777216 % 256) as u8, (x / 65536 % 256) as u8, (x / 256 % 256) as u8, (x % 256) as u8]
}

/// A single-track MIDI file: the header chunk (format 0, one track, the
/// timing word) and the track chunk holding `body`.
pub open spec fn single_track_file(t: MidiTiming, body: Seq<u8>) -> Seq<u8> {
    seq![77u8, 84u8, 104u8, 100u8, 0u8, 0u8, 0u8, 6u8, 0u8, 0u8, 0u8, 1u8] + timing_word(t)
        + seq![77u8, 84u8, 114u8, 107u8] + be_u32(body.len()) + body
}

/// The file generated from the events picked by a walk over event
/// numbers, then the end of track: its bytes as `midly` writes them, or
/// `None` when the track is 4 GiB or more or `midly` refuses the file.
pub open spec fn walk_file(t: MidiTiming, ev: Seq<(u32, Seq<u8>)>, walk: Seq<u32>) -> Option<Seq<u8>> {
    let body = track_body(Seq::new(walk.len(), |k: int| ev[walk[k] as int])) + end_of_track();
    if body.len() > u32::MAX { None } else { smf_rewritten(single_track_file(t, body)) }
}


/// Whether two byte strings are equal.
fn same_bytes(a: &Vec<u8>, b: &Vec<u8>) -> (r: bool)
    ensures
        r == (a@ == b@),
{
    if a.len() != b.len() {
        return false;
    }
    let mut i: usize = 0;
    while i < a.len()
        invariant
            a@.len() == b@.len(),
            i <= a@.len(),
            forall|k: int| 0 <= k < i ==> a@[k] == b@[k],
        decreases a@.len() - i,
    {
        if a[i] != b[i] {
            return false;
        }
        i = i + 1;
    }
    assert(a@ =~= b@);
    true
}

/// Whether two events are equal.
fn same_event(a: &RawEvent, b: &RawEvent) -> (r: bool)
    ensures
        r == ((a.0, a.1@) == (b.0, b.1@)),
{
    a.0 == b.0 && same_bytes(&a.1, &b.1)
}

/// The events of a track with every status written out (see `full_events`).
pub fn full_track(track: &Vec<RawEvent>) -> (r: Vec<RawEvent>)
    ensures
        events_view(r@) == full_events(events_view(track@)),
{
    let ghost tv = events_view(track@);
    let mut out: Vec<RawEvent> = Vec::new();
    let mut running: Option<u8> = None;
    let mut i: usize = 0;
    while i < track.len()
        invariant
            tv == events_view(track@),
            i <= track@.len(),
            out@.len() == i,
            running == running_before(tv, i as int),
            forall|k: int| 0 <= k < i ==> (#[trigger] out@[k]).0 == full_events(tv)[k].0 && out@[k].1@ == full_events(tv)[k].1,
        decreases track@.len() - i,
    {
        let raw = &track[i].1;
        assert(raw@ == tv[i as int].1);
        let mut bytes: Vec<u8> = Vec::new();
        if raw.len() > 0 && raw[0] < 0x80 && running.is_some() {
            let st = match running {
                Some(x) => x,
                None => 0,
            };
            bytes.push(st);
        }
        let mut j: usize = 0;
        let ghost start = bytes@;
        while j < raw.len()
            invariant
                j <= raw@.len(),
                bytes@ == start + raw@.take(j as int),
            decreases raw@.len() - j,
        {
            bytes.push(raw[j]);
            assert(raw@.take(j + 1) =~= raw@.take(j as int).push(raw@[j as int]));
            j = j + 1;
        }
        assert(raw@.take(raw@.len() as int) =~= raw@);
        assert(bytes@ =~= with_status(running, raw@));
        out.push((track[i].0, bytes));
        if raw.len() > 0 && raw[0] >= 0x80 {
            running = if raw[0] <= 0xEF { Some(raw[0]) } else { None };
        }
        i = i + 1;
    }
    proof {
        assert(events_view(out@) =~= full_events(tv));
    }
    out
}

proof fn lemma_find_skip(ev: Seq<(u32, Seq<u8>)>, x: (u32, Seq<u8>), j: int)
    requires
        0 <= j <= ev.len(),
        forall|q: int| 0 <= q < j ==> ev[q] != x,
    ensures
        find_from(ev, x, 0) == find_from(ev, x, j),
    decreases j,
{
    if j > 0 {
        lemma_find_skip(ev, x, j - 1);
    }
}

/// Numbers the events: each by the position of its first occurrence (see `event_numbers`).
pub fn number_events(ev: &Vec<RawEvent>) -> (r: Vec<u32>)
    requires
        ev@.len() <= u32::MAX,
    ensures
        r@ == event_numbers(events_view(ev@)),
{
    let ghost v = events_view(ev@);
    let mut ids: Vec<u32> = Vec::new();
    let mut i: usize = 0;
    while i < ev.len()
        invariant
            v == events_view(ev@),
            ev@.len() <= u32::MAX,
            i <= ev@.len(),
            ids@.len() == i,
            forall|k: int| 0 <= k < i ==> #[trigger] ids@[k] == event_numbers(v)[k],
        decreases ev@.len() - i,
    {
        let mut j: usize = 0;
        while j < i && !same_event(&ev[j], &ev[i])
            invariant
                v == events_view(ev@),
                i < ev@.len(),
                j <= i,
                forall|q: int| 0 <= q < j ==> v[q] != v[i as int],
            decreases i - j,
        {
            assert(v[j as int] == (ev@[j as int].0, ev@[j as int].1@));
            j = j + 1;
        }
        proof {
            lemma_find_skip(v, v[i as int], j as int);
            assert(v[j as int] == (ev@[j as int].0, ev@[j as int].1@));
            assert(v[i as int] == (ev@[i as int].0, ev@[i as int].1@));
        }
        ids.push(j as u32);
        i = i + 1;
    }
    assert(ids@ =~= event_numbers(v));
    ids
}

fn push_varlen_lead(out: &mut Vec<u8>, x: u32)
    ensures
        final(out)@ == old(out)@ + varlen_lead(x as nat),
    decreases x,
{
    if x < 128 {
        out.push((x + 128) as u8);
    } else {
        push_varlen_lead(out, x / 128);
        out.push((x % 128 + 128) as u8);
    }
}

fn push_varlen(out: &mut Vec<u8>, x: u32)
    ensures
        final(out)@ == old(out)@ + varlen(x as nat),
{
    if x < 128 {
        out.push(x as u8);
    } else {
        push_varlen_lead(out, x / 128);
        out.push((x % 128) as u8);
    }
}

/// The bytes of the picked events of a walk, then the end of track.
fn walk_body(ev: &Vec<RawEvent>, walk: &Vec<u32>) -> (r: Vec<u8>)
    requires
        forall|k: int| 0 <= k < walk@.len() ==> (#[trigger] walk@[k]) < ev@.len(),
    ensures
        r@ == track_body(Seq::new(walk@.len(), |k: int| events_view(ev@)[walk@[k] as int])) + end_of_track(),
{
    let ghost v = events_view(ev@);
    let ghost picked = Seq::new(walk@.len(), |k: int| v[walk@[k] as int]);
    let mut out: Vec<u8> = Vec::new();
    let mut k: usize = 0;
    assert(picked.take(0) =~= Seq::<(u32, Seq<u8>)>::empty());
    while k < walk.len()
        invariant
            v == events_view(ev@),
            picked == Seq::new(walk@.len(), |k: int| v[walk@[k] as int]),
            forall|q: int| 0 <= q < walk@.len() ==> (#[trigger] walk@[q]) < ev@.len(),
            k <= walk@.len(),
            out@ == track_body(picked.take(k as int)),
        decreases walk@.len() - k,
    {
        let e = &ev[walk[k] as usize];
        assert(picked[k as int] == (e.0, e.1@));
        push_varlen(&mut out, e.0);
        let mut j: usize = 0;
        let ghost start = out@;
        while j < e.1.len()
            invariant
                j <= e.1@.len(),
                out@ == start + e.1@.take(j as int),
            decreases e.1@.len() - j,
        {
            out.push(e.1[j]);
            assert(e.1@.take(j + 1) =~= e.1@.take(j as int).push(e.1@[j as int]));
            j = j + 1;
        }
        assert(e.1@.take(e.1@.len() as int) =~= e.1@);
        assert(picked.take(k + 1).drop_last() =~= picked.take(k as int));
        k = k + 1;
    }
    assert(picked.take(walk@.len() as int) =~= picked);
    out.push(0);
    out.push(0xFF);
    out.push(0x2F);
    out.push(0);
    assert(out@ =~= track_body(picked) + end_of_track());
    out
}

/// The bytes of a single-track file holding `body` (see `single_track_file`).
fn single_track_bytes(t: &MidiTiming, body: &Vec<u8>) -> (r: Vec<u8>)
    requires
        body@.len() <= u32::MAX,
    ensures
        r@ == single_track_file(*t, body@),
{
    let mut out: Vec<u8> = vec![77, 84, 104, 100, 0, 0, 0, 6, 0, 0, 0, 1];
    match t {
        MidiTiming::Metrical(v) => {
            out.push(((*v / 256) % 128) as u8);
            out.push((*v % 256) as u8);
        },
        MidiTiming::Timecode(fps, sub) => {
            out.push(((256 - *fps as u16) % 256) as u8);
            out.push(*sub);
        },
    }
    out.push(77);
    out.push(84);
    out.push(114);
    out.push(107);
    let n = body.len() as u32;
    out.push((n / 16777216 % 256) as u8);
    out.push((n / 65536 % 256) as u8);
    out.push((n / 256 % 256) as u8);
    out.push((n % 256) as u8);
    let ghost head = out@;
    let mut j: usize = 0;
    while j < body.len()
        invariant
            j <= body@.len(),
            out@ == head + body@.take(j as int),
        decreases body@.len() - j,
    {
        out.push(body[j]);
        assert(body@.take(j + 1) =~= body@.take(j as int).push(body@[j as int]));
        j = j + 1;
    }
    assert(body@.take(body@.len() as int) =~= body@);
    assert(out@ =~= single_track_file(*t, body@));
    out
}

proof fn lemma_find_bound(ev: Seq<(u32, Seq<u8>)>, x: (u32, Seq<u8>), k: int, j: int)
    requires
        0 <= k <= j < ev.len(),
        ev[j] == x,
    ensures
        k <= find_from(ev, x, k) <= j,
    decreases j - k,
{
    if ev[k] != x {
        lemma_find_bound(ev, x, k + 1, j);
    }
}

/// The numbers a walk over event numbers visits are positions of events.
proof fn lemma_walk_in_range(ev: Seq<(u32, Seq<u8>)>, walk: Seq<u32>)
    requires
        ev.len() <= u32::MAX,
        is_event_walk(event_numbers(ev), walk),
    ensures
        forall|k: int| 0 <= k < walk.len() ==> (#[trigger] walk[k]) < ev.len(),
{
    let ids = event_numbers(ev);
    assert forall|k: int| 0 <= k < walk.len() implies (#[trigger] walk[k]) < ev.len() by {
        if k == 0 {
            let j = choose|j: int| 0 <= j < ids.len() - 1 && #[trigger] ids[j] == walk[0];
            lemma_find_bound(ev, ev[j], 0, j);
            assert(ids[j] as int == find_from(ev, ev[j], 0));
        } else {
            let p = k - 1;
            assert(walk[p] == walk[p]);
            if has_follower(ids, walk[p]) {
                let q = choose|q: int| 0 <= q < ids.len() - 1 && ids[q] == walk[p] && #[trigger] ids[q + 1] == walk[p + 1];
                lemma_find_bound(ev, ev[q + 1], 0, q + 1);
                assert(ids[q + 1] as int == find_from(ev, ev[q + 1], 0));
            } else {
                let j = choose|j: int| 1 <= j < ids.len() && #[trigger] ids[j] == walk[p + 1];
                lemma_find_bound(ev, ev[j], 0, j);
                assert(ids[j] as int == find_from(ev, ev[j], 0));
            }
        }
    }
}

/// The raw events and the keys of a parsed track (see `raw_part`, `key_part`).
fn split_track(track: &Vec<ParsedEvent>) -> (r: (Vec<RawEvent>, Vec<RawEvent>))
    ensures
        events_view(r.0@) == raw_part(parsed_view(track@)),
        events_view(r.1@) == key_part(parsed_view(track@)),
{
    let ghost pv = parsed_view(track@);
    let mut raws: Vec<RawEvent> = Vec::new();
    let mut keys: Vec<RawEvent> = Vec::new();
    let mut i: usize = 0;
    while i < track.len()
        invariant
            pv == parsed_view(track@),
            i <= track@.len(),
            raws@.len() == i,
            keys@.len() == i,
            forall|k: int| 0 <= k < i ==> (#[trigger] raws@[k]).0 == pv[k].0 && raws@[k].1@ == pv[k].1,
            forall|k: int| 0 <= k < i ==> (#[trigger] keys@[k]).0 == pv[k].0 && keys@[k].1@ == pv[k].2,
        decreases track@.len() - i,
    {
        let e = &track[i];
        assert(pv[i as int] == (e.0, e.1@, e.2@));
        raws.push((e.0, e.1.clone()));
        keys.push((e.0, e.2.clone()));
        i = i + 1;
    }
    assert(events_view(raws@) =~= raw_part(pv));
    assert(events_view(keys@) =~= key_part(pv));
    (raws, keys)
}

/// Whether a parsed model can drive the generation: a second track of at
/// least 2 events (at most `u32::MAX`), and a third track, if any, of at
/// least 2 events.
pub open spec fn model_ok(tracks: Seq<Seq<(u32, Seq<u8>, Seq<u8>)>>) -> bool {
    &&& tracks.len() >= 2
    &&& 2 <= tracks[1].len() <= u32::MAX
    &&& tracks.len() > 2 ==> tracks[2].len() >= 2
}

/// The tracks `midly` parses from a MIDI file (none when it refuses it).
pub open spec fn parsed_tracks(bytes: Seq<u8>) -> Seq<Seq<(u32, Seq<u8>, Seq<u8>)>> {
    match smf_parsed(bytes) {
        Some((_, tracks)) => tracks,
        None => Seq::empty(),
    }
}

/// Whether a MIDI file parses and can drive the generation (see `model_ok`).
pub open spec fn model_usable(bytes: Seq<u8>) -> bool {
    smf_parsed(bytes) is Some && model_ok(parsed_tracks(bytes))
}

/// The model track of a MIDI file: its timing, the events of its second
/// track with their statuses written out (see `full_events`), and the
/// number of each event (see `event_numbers`), equal events (as `midly`
/// reads them) alike. `None` when the file does not parse or cannot drive
/// the generation (see `model_ok`).
pub fn model_track(model: &[u8]) -> (r: Option<(MidiTiming, Vec<RawEvent>, Vec<u32>)>)
    ensures
        r is Some <==> model_usable(model@),
        r is Some ==> ({
            let (timing, tracks) = smf_parsed(model@)->0;
            let (t, ev, ids) = r->0;
            &&& t == timing
            &&& events_view(ev@) == full_events(raw_part(tracks[1]))
            &&& ids@ == event_numbers(key_part(tracks[1]))
        }),
{
    let (timing, tracks) = match parse_smf(model) {
        Some(p) => p,
        None => {
            return None;
        },
    };
    let ghost pt = parsed_tracks(model@);
    if tracks.len() < 2 || tracks[1].len() < 2 || tracks[1].len() > 0xFFFF_FFFF || (tracks.len() > 2 && tracks[2].len() < 2) {
        proof {
            if tracks@.len() >= 2 {
                assert(parsed_view(tracks@[1]@) == pt[1]);
            }
            if tracks@.len() > 2 {
                assert(parsed_view(tracks@[2]@) == pt[2]);
            }
        }
        return None;
    }
    proof {
        assert(parsed_view(tracks@[1]@) == pt[1]);
        if tracks@.len() > 2 {
            assert(parsed_view(tracks@[2]@) == pt[2]);
        }
    }
    let (raws, keys) = split_track(&tracks[1]);
    assert(keys@.len() == tracks@[1]@.len()) by {
        assert(events_view(keys@).len() == keys@.len());
        assert(key_part(parsed_view(tracks@[1]@)).len() == tracks@[1]@.len());
    }
    let ev = full_track(&raws);
    let ids = number_events(&keys);
    Some((timing, ev, ids))
}

/// Generates a MIDI melody in the style of a model file: the events of the
/// model's second track are numbered, events `midly` reads as equal alike
/// (see `model_track`); a walk of 200 event numbers is drawn (see
/// `midi_walk`); the picked events (with their statuses written out), then
/// the end of track, make the single track of the new file, whose timing
/// is the model's when `metric` is 0, else `metric` ticks per beat (its top
/// bit dropped). `None` when the model does not parse, its second track (or
/// a third one, if any) holds fewer than 2 events, or the new file cannot
/// be written (see `walk_file`).
#[verifier::rlimit(40)]
pub fn generate_melody_mid(model: &[u8], metric: u16) -> (r: Option<Vec<u8>>)
    ensures
        !model_usable(model@) ==> r is None,
        model_usable(model@) ==> ({
            let (timing, tracks) = smf_parsed(model@)->0;
            let ev = full_events(raw_part(tracks[1]));
            let t = if metric == 0 { timing } else { MidiTiming::Metrical(metric % 32768) };
            exists|w: Seq<u32>| w.len() == MIDI_WALK_LEN && #[trigger] is_event_walk(event_numbers(key_part(tracks[1])), w)
                && (r is Some <==> walk_file(t, ev, w) is Some)
                && (r is Some ==> r->0@ == walk_file(t, ev, w)->0)
        }),
{
    let (timing, ev, ids) = match model_track(model) {
        Some(m) => m,
        None => {
            return None;
        },
    };
    let ghost keys = key_part(parsed_tracks(model@)[1]);
    assert(ev@.len() == ids@.len()) by {
        assert(events_view(ev@).len() == ev@.len());
    }
    let walk = midi_walk(&ids);
    proof {
        lemma_walk_in_range(keys, walk@);
    }
    let t = if metric == 0 { timing } else { MidiTiming::Metrical(metric % 32768) };
    let body = walk_body(&ev, &walk);
    if body.len() > 0xFFFF_FFFF {
        return None;
    }
    let file = single_track_bytes(&t, &body);
    rewrite_smf(&file)
}

} // verus!
