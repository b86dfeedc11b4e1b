use vstd::prelude::*;
use std::collections::HashMap;
use crate::random::random_in_range;

verus! {

broadcast use vstd::std_specs::hash::group_hash_axioms;

/// A note of the scale, or a pause.
#[derive(Debug, Clone, Copy, PartialEq, Eq, Structural)]
pub enum Note {
    Do,
    Re,
    Mi,
    Fa,
    Sol,
    La,
    Si,
    Pause,
}

/// The number each note is known by in transition tables and note banks.
pub open spec fn note_code(n: Note) -> u8 {
    match n {
        Note::Do => 0,
        Note::Fa => 1,
        Note::La => 2,
        Note::Mi => 3,
        Note::Re => 4,
        Note::Si => 5,
        Note::Sol => 6,
        Note::Pause => 7,
    }
}

/// The note a code stands for, if any.
pub open spec fn note_of_code(c: u8) -> Option<Note> {
    if c == 0 {
        Some(Note::Do)
    } else if c == 1 {
        Some(Note::Fa)
    } else if c == 2 {
        Some(Note::La)
    } else if c == 3 {
        Some(Note::Mi)
    } else if c == 4 {
        Some(Note::Re)
    } else if c == 5 {
        Some(Note::Si)
    } else if c == 6 {
        Some(Note::Sol)
    } else if c == 7 {
        Some(Note::Pause)
    } else {
        None
    }
}

impl Note {
    /// The code of this note (see `note_code`).
    pub fn code(self) -> (r: u8)
        ensures
            r == note_code(self),
    {
        match self {
            Note::Do => 0,
            Note::Fa => 1,
            Note::La => 2,
            Note::Mi => 3,
            Note::Re => 4,
            Note::Si => 5,
            Note::Sol => 6,
            Note::Pause => 7,
        }
    }

    /// The note a code stands for, if any (see `note_of_code`).
    pub fn from_code(c: u8) -> (r: Option<Note>)
        ensures
            r == note_of_code(c),
    {
        match c {
            0 => Some(Note::Do),
            1 => Some(Note::Fa),
            2 => Some(Note::La),
            3 => Some(Note::Mi),
            4 => Some(Note::Re),
            5 => Some(Note::Si),
            6 => Some(Note::Sol),
            7 => Some(Note::Pause),
            _ => None,
        }
    }
}

/// The codes of a melody.
pub open spec fn codes(melody: Seq<Note>) -> Seq<u8> {
    Seq::new(melody.len(), |i: int| note_code(melody[i]))
}

/// The codes that follow code `k` among the first `n` transitions of
/// `c` (transition `i` going from `c[i]` to `c[i + 1]`), in order.
pub open spec fn successors(c: Seq<u8>, k: u8, n: int) -> Seq<u8>
    decreases n,
{
    if n <= 0 {
        Seq::<u8>::empty()
    } else if c[n - 1] == k {
        successors(c, k, n - 1).push(c[n])
    } else {
        successors(c, k, n - 1)
    }
}

/// Whether `k` starts one of the first `n` transitions of `c`.
pub open spec fn starts_transition(c: Seq<u8>, k: u8, n: int) -> bool {
    exists|i: int| 0 <= i < n && c[i] == k
}

/// The transition table of a code sequence: each code that some
/// transition starts from maps to the codes that follow it, in order.
pub open spec fn is_transition_table(m: Map<u8, Vec<u8>>, c: Seq<u8>, n: int) -> bool {
    &&& forall|k: u8| m.dom().contains(k) <==> starts_transition(c, k, n)
    &&& forall|k: u8| #[trigger] m.dom().contains(k) ==> m[k]@ == successors(c, k, n)
}

/// Builds the Markov transition table of a melody: each note code maps to
/// the codes of the notes that follow it in the melody, in order.
pub fn transition_matrix(data: Vec<Note>) -> (dictionary: HashMap<u8, Vec<u8>>)
    requires
        data@.len() >= 1,
    ensures
        is_transition_table(dictionary@, codes(data@), data@.len() - 1),
{
    let ghost c = codes(data@);
    let mut dictionary: HashMap<u8, Vec<u8>> = HashMap::new();
    let n = data.len() - 1;
    let mut i: usize = 0;
    while i < n
        invariant
            n == data@.len() - 1,
            c == codes(data@),
            i <= n,
            is_transition_table(dictionary@, c, i as int),
        decreases n - i,
    {
        let current_note = data[i].code();
        let next_note = data[i + 1].code();
        if !dictionary.contains_key(&current_note) {
            let mut v: Vec<u8> = Vec::new();
            v.push(next_note);
            dictionary.insert(current_note, v);
            proof {
                assert forall|k: u8| dictionary@.dom().contains(k) <==> starts_transition(c, k, i + 1) by {
                    if k == current_note {
                        assert(c[i as int] == k);
                    } else if starts_transition(c, k, i + 1) {
                        let w = choose|w: int| 0 <= w < i + 1 && c[w] == k;
                        assert(starts_transition(c, k, i as int));
                    }
                }
                assert forall|k: u8| #[trigger] dictionary@.dom().contains(k) implies
                    dictionary@[k]@ == successors(c, k, i + 1) by {
                    if k == current_note {
                        assert(!starts_transition(c, k, i as int));
                        lemma_no_successors(c, k, i as int);
                        assert(dictionary@[k]@ =~= seq![next_note]);
                    }
                }
            }
        } else {
            let old_v = dictionary.get(&current_note);
            let mut v: Vec<u8> = match old_v {
                Some(x) => x.clone(),
                None => Vec::new(),
            };
            let ghost before = v@;
            v.push(next_note);
            dictionary.insert(current_note, v);
            proof {
                assert forall|k: u8| dictionary@.dom().contains(k) <==> starts_transition(c, k, i + 1) by {
                    if starts_transition(c, k, i + 1) && k != current_note {
                        let w = choose|w: int| 0 <= w < i + 1 && c[w] == k;
                        assert(starts_transition(c, k, i as int));
                    }
                    if dictionary@.dom().contains(k) && k != current_note {
                        let w = choose|w: int| 0 <= w < i && c[w] == k;
                        assert(0 <= w < i + 1 && c[w] == k);
                    }
                    if k == current_note {
                        assert(c[i as int] == k);
                    }
                }
            }
        }
        i = i + 1;
    }
    dictionary
}

/// A code that starts no transition has no successors.
proof fn lemma_no_successors(c: Seq<u8>, k: u8, n: int)
    requires
        !starts_transition(c, k, n),
    ensures
        successors(c, k, n) == Seq::<u8>::empty(),
    decreases n,
{
    if n > 0 {
        assert(!starts_transition(c, k, n - 1)) by {
            if starts_transition(c, k, n - 1) {
                let w = choose|w: int| 0 <= w < n - 1 && c[w] == k;
                assert(0 <= w < n && c[w] == k);
            }
        }
        assert(c[n - 1] != k);
        lemma_no_successors(c, k, n - 1);
    }
}


/// A set of codes a walk can stay in: each is a code of the table with at
/// least one code listed, every code it lists is in the set, and every note
/// of the table (a code below 7) is in the set.
pub open spec fn walk_closed(t: Map<u8, Seq<u8>>, s: Set<u8>) -> bool {
    &&& forall|k: u8| #[trigger] s.contains(k) ==> t.dom().contains(k) && t[k].len() > 0
    &&& forall|k: u8, j: int| s.contains(k) && 0 <= j < t[k].len() ==> s.contains(#[trigger] t[k][j])
    &&& forall|k: u8| k < 7 && #[trigger] t.dom().contains(k) ==> s.contains(k)
}

/// A transition table a random walk can use: some note (code below 7) of
/// the table can start a walk, and every code a walk can reach from a note
/// has at least one code listed (the codes reachable from the notes form a
/// set closed for walks, see `walk_closed`).
pub open spec fn ready_table(t: Map<u8, Seq<u8>>) -> bool {
    &&& exists|k: u8| k < 7 && #[trigger] t.dom().contains(k)
    &&& exists|s: Set<u8>| #[trigger] walk_closed(t, s)
}

/// The contents of a table: each code with the list it maps to.
pub open spec fn table(m: Map<u8, Vec<u8>>) -> Map<u8, Seq<u8>> {
    m.map_values(|v: Vec<u8>| v@)
}

/// A hash table a random walk can use (see `ready_table`).
pub open spec fn markov_ready(m: Map<u8, Vec<u8>>) -> bool {
    ready_table(table(m))
}

/// How many of the first `n` flags are unset.
spec fn count_unset(seen: Seq<bool>, n: int) -> nat
    decreases n,
{
    if n <= 0 { 0 } else { count_unset(seen, n - 1) + if seen[n - 1] { 0nat } else { 1nat } }
}

proof fn lemma_count_set(seen: Seq<bool>, n: int, x: int)
    requires
        0 <= x < n <= seen.len(),
        !seen[x],
    ensures
        count_unset(seen.update(x, true), n) + 1 == count_unset(seen, n),
    decreases n,
{
    if n - 1 > x {
        lemma_count_set(seen, n - 1, x);
    } else {
        lemma_count_same(seen, seen.update(x, true), n - 1);
    }
}

proof fn lemma_count_same(a: Seq<bool>, b: Seq<bool>, n: int)
    requires
        0 <= n <= a.len(),
        n <= b.len(),
        forall|i: int| 0 <= i < n ==> a[i] == b[i],
    ensures
        count_unset(a, n) == count_unset(b, n),
    decreases n,
{
    if n > 0 {
        lemma_count_same(a, b, n - 1);
    }
}

/// Code `c` has been looked at by the reachability search: it is a code of
/// the table with codes listed, all of them seen.
spec fn settled(t: Map<u8, Seq<u8>>, seen: Seq<bool>, c: u8) -> bool {
    &&& t.dom().contains(c)
    &&& t[c].len() > 0
    &&& forall|j: int| 0 <= j < t[c].len() ==> #[trigger] seen[t[c][j] as int]
}

/// Whether a random walk can use the table (see `markov_ready`): searches
/// the codes reachable from the table's notes, and fails on the first one
/// that has no code listed.
pub fn table_ready(m: &HashMap<u8, Vec<u8>>) -> (b: bool)
    ensures
        b == markov_ready(m@),
{
    let ghost t = table(m@);
    let mut seen: Vec<bool> = Vec::new();
    let mut k: u16 = 0;
    while k < 256
        invariant
            k <= 256,
            seen@.len() == k,
            forall|i: int| 0 <= i < k ==> !seen@[i],
        decreases 256 - k,
    {
        seen.push(false);
        k = k + 1;
    }
    let mut todo: Vec<u8> = Vec::new();
    let mut start = false;
    let mut c0: u8 = 0;
    while c0 < 7
        invariant
            c0 <= 7,
            t == table(m@),
            seen@.len() == 256,
            forall|i: int| 0 <= i < todo@.len() ==> seen@[#[trigger] todo@[i] as int],
            forall|i: int, j: int| 0 <= i < j < todo@.len() ==> todo@[i] != todo@[j],
            forall|c: u8| #[trigger] seen@[c as int] ==> todo@.contains(c),
            forall|c: u8| #[trigger] seen@[c as int] ==> c < c0 && t.dom().contains(c),
            forall|q: u8| q < c0 && #[trigger] t.dom().contains(q) ==> seen@[q as int],
            start == exists|q: u8| q < c0 && #[trigger] t.dom().contains(q),
        decreases 7 - c0,
    {
        let ghost start0 = start;
        if m.contains_key(&c0) {
            let ghost before = todo@;
            seen.set(c0 as usize, true);
            todo.push(c0);
            start = true;
            assert(todo@[todo@.len() - 1] == c0);
            assert forall|c: u8| #[trigger] seen@[c as int] implies todo@.contains(c) by {
                if c != c0 {
                    let i = choose|i: int| 0 <= i < before.len() && before[i] == c;
                    assert(todo@[i] == c);
                }
            }
            assert(t.dom().contains(c0));
        } else {
            assert(start == exists|q: u8| q < c0 + 1 && #[trigger] t.dom().contains(q)) by {
                if exists|q: u8| q < c0 + 1 && #[trigger] t.dom().contains(q) {
                    let q = choose|q: u8| q < c0 + 1 && #[trigger] t.dom().contains(q);
                    assert(q != c0);
                }
            }
        }
        c0 = c0 + 1;
    }
    if !start {
        return false;
    }
    proof {
        assert forall|s: Set<u8>| #[trigger] walk_closed(t, s) implies
            (forall|c: u8| #[trigger] seen@[c as int] ==> s.contains(c)) by {
            assert forall|c: u8| #[trigger] seen@[c as int] implies s.contains(c) by {
                assert(c < 7 && t.dom().contains(c));
            }
        }
    }
    while todo.len() > 0
        invariant
            t == table(m@),
            seen@.len() == 256,
            exists|q: u8| q < 7 && #[trigger] t.dom().contains(q),
            forall|i: int| 0 <= i < todo@.len() ==> seen@[#[trigger] todo@[i] as int],
            forall|i: int, j: int| 0 <= i < j < todo@.len() ==> todo@[i] != todo@[j],
            forall|c: u8| #[trigger] seen@[c as int] && !todo@.contains(c) ==> settled(t, seen@, c),
            forall|q: u8| q < 7 && #[trigger] t.dom().contains(q) ==> seen@[q as int],
            forall|s: Set<u8>| #[trigger] walk_closed(t, s) ==> (forall|c: u8| #[trigger] seen@[c as int] ==> s.contains(c)),
        decreases 2 * count_unset(seen@, 256) + todo@.len(),
    {
        let ghost todo0 = todo@;
        let c = match todo.pop() {
            Some(x) => x,
            None => 0,
        };
        assert(todo0[todo0.len() - 1] == c);
        assert(todo0 =~= todo@.push(c));
        assert(!todo@.contains(c)) by {
            if todo@.contains(c) {
                let i = choose|i: int| 0 <= i < todo@.len() && todo@[i] == c;
                assert(todo0[i] == todo0[todo0.len() - 1]);
            }
        }
        assert(seen@[c as int]);
        let v = match m.get(&c) {
            Some(v) => v,
            None => {
                proof {
                    if exists|s: Set<u8>| #[trigger] walk_closed(t, s) {
                        let s = choose|s: Set<u8>| #[trigger] walk_closed(t, s);
                        assert(s.contains(c));
                    }
                }
                return false;
            },
        };
        assert(v@ == t[c]);
        if v.len() == 0 {
            proof {
                if exists|s: Set<u8>| #[trigger] walk_closed(t, s) {
                    let s = choose|s: Set<u8>| #[trigger] walk_closed(t, s);
                    assert(s.contains(c));
                }
            }
            return false;
        }
        let ghost count0 = count_unset(seen@, 256);
        let ghost len0 = todo@.len();
        let mut j: usize = 0;
        while j < v.len()
            invariant
                t == table(m@),
                v@ == t[c],
                t.dom().contains(c),
                seen@.len() == 256,
                seen@[c as int],
                !todo@.contains(c),
                j <= v@.len(),
                2 * count_unset(seen@, 256) + todo@.len() <= 2 * count0 + len0,
                forall|jj: int| 0 <= jj < j ==> #[trigger] seen@[t[c][jj] as int],
                forall|i: int| 0 <= i < todo@.len() ==> seen@[#[trigger] todo@[i] as int],
                forall|i: int, k: int| 0 <= i < k < todo@.len() ==> todo@[i] != todo@[k],
                forall|d: u8| #[trigger] seen@[d as int] && !todo@.contains(d) && d != c ==> settled(t, seen@, d),
                forall|q: u8| q < 7 && #[trigger] t.dom().contains(q) ==> seen@[q as int],
                forall|s: Set<u8>| #[trigger] walk_closed(t, s) ==> (forall|d: u8| #[trigger] seen@[d as int] ==> s.contains(d)),
            decreases v@.len() - j,
        {
            let x = v[j];
            assert(x == t[c][j as int]);
            if !seen[x as usize] {
                let ghost seen0 = seen@;
                let ghost todo1 = todo@;
                proof {
                    lemma_count_set(seen0, 256, x as int);
                }
                seen.set(x as usize, true);
                todo.push(x);
                assert(todo@[todo@.len() - 1] == x);
                assert forall|d: u8| #[trigger] seen@[d as int] && !todo@.contains(d) && d != c implies settled(t, seen@, d) by {
                    assert(d != x);
                    assert(seen0[d as int]);
                    if todo1.contains(d) {
                        let i = choose|i: int| 0 <= i < todo1.len() && todo1[i] == d;
                        assert(todo@[i] == d);
                    }
                    assert(settled(t, seen0, d));
                    assert forall|jj: int| 0 <= jj < t[d].len() implies #[trigger] seen@[t[d][jj] as int] by {
                        assert(seen0[t[d][jj] as int]);
                    }
                }
                assert forall|s: Set<u8>| #[trigger] walk_closed(t, s) implies (forall|d: u8| #[trigger] seen@[d as int] ==> s.contains(d)) by {
                    assert(seen0[c as int]);
                    assert(s.contains(c));
                    assert forall|d: u8| #[trigger] seen@[d as int] implies s.contains(d) by {
                        if d != x {
                            assert(seen0[d as int]);
                        } else {
                            assert(s.contains(t[c][j as int]));
                        }
                    }
                }
                assert forall|i: int, k: int| 0 <= i < k < todo@.len() implies todo@[i] != todo@[k] by {
                    if k == todo@.len() - 1 {
                        assert(seen0[todo1[i] as int]);
                    }
                }
            }
            j = j + 1;
        }
        assert(settled(t, seen@, c));
    }
    let ghost s = Set::new(|c: u8| seen@[c as int]);
    assert(walk_closed(t, s)) by {
        assert forall|k: u8| #[trigger] s.contains(k) implies t.dom().contains(k) && t[k].len() > 0 by {
            assert(seen@[k as int]);
            assert(!todo@.contains(k));
        }
        assert forall|k: u8, j: int| s.contains(k) && 0 <= j < t[k].len() implies s.contains(#[trigger] t[k][j]) by {
            assert(seen@[k as int]);
            assert(!todo@.contains(k));
            assert(settled(t, seen@, k));
            assert(seen@[t[k][j] as int]);
        }
    }
    true
}

/// `p` is a path a walk can take on the table: it starts with a note (code
/// below 7) of the table, and each code but the last is a code of the
/// table whose list holds the code after it.
pub open spec fn is_path(t: Map<u8, Seq<u8>>, p: Seq<u8>) -> bool {
    &&& p.len() > 0 ==> p[0] < 7 && t.dom().contains(p[0])
    &&& forall|i: int| 0 <= i < p.len() - 1 ==> t.dom().contains(#[trigger] p[i]) && t[p[i]].contains(p[i + 1])
}

/// A table a random walk of `d` codes can use: some note of the table can
/// start it, and every code that ends a path of at most `d` codes has
/// codes listed.
pub open spec fn walkable(t: Map<u8, Seq<u8>>, d: int) -> bool {
    &&& exists|k: u8| k < 7 && #[trigger] t.dom().contains(k)
    &&& forall|p: Seq<u8>| #[trigger] is_path(t, p) && 0 < p.len() <= d ==> t.dom().contains(p.last()) && t[p.last()].len() > 0
}

proof fn lemma_path_front(t: Map<u8, Seq<u8>>, p: Seq<u8>)
    requires
        is_path(t, p),
        p.len() > 0,
    ensures
        is_path(t, p.drop_last()),
{
    let q = p.drop_last();
    assert forall|i: int| 0 <= i < q.len() - 1 implies t.dom().contains(#[trigger] q[i]) && t[q[i]].contains(q[i + 1]) by {
        assert(q[i] == p[i] && q[i + 1] == p[i + 1]);
    }
    if q.len() > 0 {
        assert(q[0] == p[0]);
    }
}

/// The codes of a path stay in any set closed for walks on the table.
proof fn lemma_path_in_closed(t: Map<u8, Seq<u8>>, cl: Set<u8>, p: Seq<u8>)
    requires
        walk_closed(t, cl),
        is_path(t, p),
    ensures
        forall|i: int| 0 <= i < p.len() ==> cl.contains(#[trigger] p[i]),
    decreases p.len(),
{
    if p.len() > 0 {
        let q = p.drop_last();
        lemma_path_front(t, p);
        lemma_path_in_closed(t, cl, q);
        if p.len() > 1 {
            let a = p.len() - 2;
            assert(q[a] == p[a]);
            assert(t.dom().contains(p[a]) && t[p[a]].contains(p[a + 1]));
            let j = choose|j: int| 0 <= j < t[p[a]].len() && t[p[a]][j] == p[a + 1];
            assert(cl.contains(t[p[a]][j]));
        }
        assert forall|i: int| 0 <= i < p.len() implies cl.contains(#[trigger] p[i]) by {
            if i < q.len() {
                assert(q[i] == p[i]);
            }
        }
    }
}

/// A ready table can drive walks of any length.
pub proof fn lemma_ready_walkable(t: Map<u8, Seq<u8>>, d: int)
    requires
        ready_table(t),
    ensures
        walkable(t, d),
{
    let cl = choose|s: Set<u8>| #[trigger] walk_closed(t, s);
    assert forall|p: Seq<u8>| #[trigger] is_path(t, p) && 0 < p.len() <= d implies t.dom().contains(p.last()) && t[p.last()].len() > 0 by {
        lemma_path_in_closed(t, cl, p);
        assert(cl.contains(p[p.len() - 1]));
    }
}

proof fn lemma_settled_grow(t: Map<u8, Seq<u8>>, seen: Seq<bool>, x: int, c: u8)
    requires
        settled(t, seen, c),
        seen.len() == 256,
        0 <= x < seen.len(),
    ensures
        settled(t, seen.update(x, true), c),
{
    let s2 = seen.update(x, true);
    assert forall|j: int| 0 <= j < t[c].len() implies #[trigger] s2[t[c][j] as int] by {
        assert(seen[t[c][j] as int]);
    }
}

/// With every note seen and every seen code settled, every code of a path is seen.
proof fn lemma_path_seen(t: Map<u8, Seq<u8>>, seen: Seq<bool>, p: Seq<u8>)
    requires
        seen.len() == 256,
        is_path(t, p),
        forall|q: u8| q < 7 && #[trigger] t.dom().contains(q) ==> seen[q as int],
        forall|c: u8| #[trigger] seen[c as int] ==> settled(t, seen, c),
    ensures
        forall|i: int| 0 <= i < p.len() ==> #[trigger] seen[p[i] as int],
    decreases p.len(),
{
    if p.len() > 0 {
        let q = p.drop_last();
        lemma_path_front(t, p);
        lemma_path_seen(t, seen, q);
        if p.len() > 1 {
            let a = p.len() - 2;
            assert(q[a] == p[a]);
            assert(seen[p[a] as int]);
            assert(settled(t, seen, p[a]));
            assert(t[p[a]].contains(p[a + 1]));
            let j = choose|j: int| 0 <= j < t[p[a]].len() && t[p[a]][j] == p[a + 1];
            assert(seen[t[p[a]][j] as int]);
        }
        assert forall|i: int| 0 <= i < p.len() implies #[trigger] seen[p[i] as int] by {
            if i < q.len() {
                assert(q[i] == p[i]);
            }
        }
    }
}

/// Whether a random walk of `d` codes can use the table (see `walkable`):
/// searches the codes that end paths of at most `d` codes, shortest paths
/// first, and fails on the first one that has no code listed.
pub fn table_walkable(m: &HashMap<u8, Vec<u8>>, d: u16) -> (b: bool)
    ensures
        b == walkable(table(m@), d as int),
{
    let ghost t = table(m@);
    let mut seen: Vec<bool> = Vec::new();
    let mut k: u16 = 0;
    while k < 256
        invariant
            k <= 256,
            seen@.len() == k,
            forall|i: int| 0 <= i < k ==> !seen@[i],
        decreases 256 - k,
    {
        seen.push(false);
        k = k + 1;
    }
    let mut frontier: Vec<u8> = Vec::new();
    let ghost mut wit: Map<u8, Seq<u8>> = Map::empty();
    let mut c0: u8 = 0;
    while c0 < 7
        invariant
            c0 <= 7,
            t == table(m@),
            seen@.len() == 256,
            forall|c: u8| #[trigger] seen@[c as int] <==> (c < c0 && t.dom().contains(c)),
            forall|c: u8| #[trigger] seen@[c as int] ==> frontier@.contains(c),
            forall|i: int| 0 <= i < frontier@.len() ==> seen@[#[trigger] frontier@[i] as int],
            forall|c: u8| #[trigger] seen@[c as int] ==> wit.dom().contains(c) && wit[c] == seq![c],
        decreases 7 - c0,
    {
        if m.contains_key(&c0) {
            let ghost before = frontier@;
            seen.set(c0 as usize, true);
            frontier.push(c0);
            proof {
                wit = wit.insert(c0, seq![c0]);
                assert(frontier@[frontier@.len() - 1] == c0);
                assert forall|c: u8| #[trigger] seen@[c as int] implies frontier@.contains(c) by {
                    if c != c0 {
                        let i = choose|i: int| 0 <= i < before.len() && before[i] == c;
                        assert(frontier@[i] == c);
                    }
                }
            }
        }
        c0 = c0 + 1;
    }
    if frontier.len() == 0 {
        proof {
            if exists|q: u8| q < 7 && #[trigger] t.dom().contains(q) {
                let q = choose|q: u8| q < 7 && #[trigger] t.dom().contains(q);
                assert(seen@[q as int]);
            }
        }
        return false;
    }
    assert(seen@[frontier@[0] as int]);
    let mut depth: u32 = 1;
    proof {
        assert forall|p: Seq<u8>| #[trigger] is_path(t, p) && p.len() == depth implies seen@[p.last() as int] by {
            assert(p.last() == p[0]);
        }
    }
    while frontier.len() > 0 && depth <= d as u32
        invariant
            t == table(m@),
            seen@.len() == 256,
            1 <= depth <= d + 1,
            exists|q: u8| q < 7 && #[trigger] t.dom().contains(q),
            forall|c: u8| #[trigger] seen@[c as int] ==> wit.dom().contains(c) && is_path(t, wit[c]) && 0 < wit[c].len() <= depth
                && wit[c].last() == c,
            forall|i: int| 0 <= i < frontier@.len() ==> seen@[#[trigger] frontier@[i] as int],
            forall|c: u8| #[trigger] seen@[c as int] && !frontier@.contains(c) ==> settled(t, seen@, c),
            forall|p: Seq<u8>| #[trigger] is_path(t, p) && 0 < p.len() <= depth ==> seen@[p.last() as int],
            forall|p: Seq<u8>| #[trigger] is_path(t, p) && 0 < p.len() < depth ==> !frontier@.contains(p.last()),
        decreases d + 1 - depth,
    {
        let ghost seen0 = seen@;
        let ghost front0 = frontier@;
        let mut next: Vec<u8> = Vec::new();
        let mut fi: usize = 0;
        while fi < frontier.len()
            invariant
                t == table(m@),
                frontier@ == front0,
                seen@.len() == 256,
                seen0.len() == 256,
                1 <= depth <= d,
                fi <= front0.len(),
                forall|c: u8| #[trigger] seen0[c as int] ==> seen@[c as int],
                forall|c: u8| #[trigger] seen@[c as int] && !seen0[c as int] ==> next@.contains(c),
                forall|i: int| 0 <= i < next@.len() ==> seen@[#[trigger] next@[i] as int] && !seen0[next@[i] as int],
                forall|i: int| 0 <= i < front0.len() ==> seen0[#[trigger] front0[i] as int],
                forall|c: u8| #[trigger] seen0[c as int] && !front0.contains(c) ==> settled(t, seen@, c),
                forall|i: int| 0 <= i < fi ==> settled(t, seen@, #[trigger] front0[i]),
                forall|c: u8| #[trigger] seen@[c as int] ==> wit.dom().contains(c) && is_path(t, wit[c]) && 0 < wit[c].len() <= depth + 1
                    && wit[c].last() == c,
                forall|c: u8| #[trigger] seen0[c as int] ==> wit[c].len() <= depth,
            decreases front0.len() - fi,
        {
            let c = frontier[fi];
            assert(seen0[c as int]);
            let v = match m.get(&c) {
                Some(v) => v,
                None => {
                    proof {
                        let p = wit[c];
                        assert(is_path(t, p) && 0 < p.len() <= d);
                        assert(p.last() == c);
                    }
                    return false;
                },
            };
            assert(v@ == t[c]);
            if v.len() == 0 {
                proof {
                    let p = wit[c];
                    assert(is_path(t, p) && 0 < p.len() <= d);
                    assert(p.last() == c);
                }
                return false;
            }
            let mut j: usize = 0;
            while j < v.len()
                invariant
                    t == table(m@),
                    frontier@ == front0,
                    v@ == t[c],
                    t.dom().contains(c),
                    seen0[c as int],
                    fi < front0.len(),
                    front0[fi as int] == c,
                    seen@.len() == 256,
                    seen0.len() == 256,
                    1 <= depth <= d,
                    j <= v@.len(),
                    forall|jj: int| 0 <= jj < j ==> #[trigger] seen@[t[c][jj] as int],
                    forall|c2: u8| #[trigger] seen0[c2 as int] ==> seen@[c2 as int],
                    forall|c2: u8| #[trigger] seen@[c2 as int] && !seen0[c2 as int] ==> next@.contains(c2),
                    forall|i: int| 0 <= i < next@.len() ==> seen@[#[trigger] next@[i] as int] && !seen0[next@[i] as int],
                    forall|c2: u8| #[trigger] seen0[c2 as int] && !front0.contains(c2) ==> settled(t, seen@, c2),
                    forall|i: int| 0 <= i < fi ==> settled(t, seen@, #[trigger] front0[i]),
                    forall|c2: u8| #[trigger] seen@[c2 as int] ==> wit.dom().contains(c2) && is_path(t, wit[c2])
                        && 0 < wit[c2].len() <= depth + 1 && wit[c2].last() == c2,
                    forall|c2: u8| #[trigger] seen0[c2 as int] ==> wit[c2].len() <= depth,
                decreases v@.len() - j,
            {
                let x = v[j];
                assert(x == t[c][j as int]);
                if !seen[x as usize] {
                    let ghost s1 = seen@;
                    let ghost n1 = next@;
                    let ghost wc = wit[c];
                    seen.set(x as usize, true);
                    next.push(x);
                    proof {
                        assert(!seen0[x as int]);
                        let px = wc.push(x);
                        assert(is_path(t, px)) by {
                            assert forall|i: int| 0 <= i < px.len() - 1 implies t.dom().contains(#[trigger] px[i]) && t[px[i]].contains(px[i + 1]) by {
                                if i < wc.len() - 1 {
                                    assert(px[i] == wc[i] && px[i + 1] == wc[i + 1]);
                                } else {
                                    assert(px[i] == c);
                                    assert(t[c][j as int] == x);
                                }
                            }
                            assert(px[0] == wc[0]);
                        }
                        wit = wit.insert(x, px);
                        assert(next@[next@.len() - 1] == x);
                        assert forall|c2: u8| #[trigger] seen@[c2 as int] && !seen0[c2 as int] implies next@.contains(c2) by {
                            if c2 != x {
                                assert(s1[c2 as int]);
                                let i = choose|i: int| 0 <= i < n1.len() && n1[i] == c2;
                                assert(next@[i] == c2);
                            }
                        }
                        assert forall|c2: u8| #[trigger] seen0[c2 as int] && !front0.contains(c2) implies settled(t, seen@, c2) by {
                            lemma_settled_grow(t, s1, x as int, c2);
                        }
                        assert forall|i: int| 0 <= i < fi implies settled(t, seen@, #[trigger] front0[i]) by {
                            lemma_settled_grow(t, s1, x as int, front0[i]);
                        }
                        assert forall|jj: int| 0 <= jj < j + 1 implies #[trigger] seen@[t[c][jj] as int] by {
                            if jj < j {
                                assert(s1[t[c][jj] as int]);
                            }
                        }
                    }
                }
                j = j + 1;
            }
            assert(settled(t, seen@, c));
            fi = fi + 1;
        }
        proof {
            assert forall|c: u8| #[trigger] seen@[c as int] && !next@.contains(c) implies settled(t, seen@, c) by {
                assert(seen0[c as int]);
                if front0.contains(c) {
                    let i = choose|i: int| 0 <= i < front0.len() && front0[i] == c;
                    assert(settled(t, seen@, front0[i]));
                }
            }
            assert forall|p: Seq<u8>| #[trigger] is_path(t, p) && 0 < p.len() <= depth + 1 implies seen@[p.last() as int] by {
                if p.len() <= depth {
                    assert(seen0[p.last() as int]);
                } else {
                    let q = p.drop_last();
                    lemma_path_front(t, p);
                    assert(0 < q.len() <= depth);
                    let a = q.len() - 1;
                    assert(q.last() == p[a]);
                    assert(seen0[q.last() as int]);
                    assert(settled(t, seen@, p[a])) by {
                        if front0.contains(p[a]) {
                            let i = choose|i: int| 0 <= i < front0.len() && front0[i] == p[a];
                            assert(settled(t, seen@, front0[i]));
                        }
                    }
                    assert(t[p[a]].contains(p[a + 1]));
                    let jx = choose|jx: int| 0 <= jx < t[p[a]].len() && t[p[a]][jx] == p[a + 1];
                    assert(seen@[t[p[a]][jx] as int]);
                }
            }
            assert forall|p: Seq<u8>| #[trigger] is_path(t, p) && 0 < p.len() < depth + 1 implies !next@.contains(p.last()) by {
                assert(seen0[p.last() as int]);
                if next@.contains(p.last()) {
                    let i = choose|i: int| 0 <= i < next@.len() && next@[i] == p.last();
                    assert(!seen0[next@[i] as int]);
                }
            }
        }
        frontier = next;
        depth = depth + 1;
    }
    proof {
        let tt = t;
        if frontier@.len() == 0 {
            assert forall|q: u8| q < 7 && #[trigger] tt.dom().contains(q) implies seen@[q as int] by {
                let p = seq![q];
                assert(is_path(tt, p));
            }
            assert forall|c: u8| #[trigger] seen@[c as int] implies settled(tt, seen@, c) by {
                assert(!frontier@.contains(c));
            }
            assert forall|p: Seq<u8>| #[trigger] is_path(tt, p) && 0 < p.len() <= d implies tt.dom().contains(p.last()) && tt[p.last()].len() > 0 by {
                lemma_path_seen(tt, seen@, p);
                assert(seen@[p[p.len() - 1] as int]);
                assert(settled(tt, seen@, p.last()));
            }
        } else {
            assert forall|p: Seq<u8>| #[trigger] is_path(tt, p) && 0 < p.len() <= d implies tt.dom().contains(p.last()) && tt[p.last()].len() > 0 by {
                assert(seen@[p.last() as int]);
                assert(!frontier@.contains(p.last()));
                assert(settled(tt, seen@, p.last()));
            }
        }
    }
    true
}

/// `w` is a walk of the table: it starts with a note (code below 7) of the
/// table, and each code's list holds the code after it.
pub open spec fn is_walk(t: Map<u8, Seq<u8>>, w: Seq<u8>) -> bool {
    &&& w.len() > 0 ==> w[0] < 7
    &&& forall|i: int| 0 <= i < w.len() ==> t.dom().contains(#[trigger] w[i])
    &&& forall|i: int| 0 <= i < w.len() - 1 ==> t[#[trigger] w[i]].contains(w[i + 1])
}

/// The notes a walk plays: the note of each code, codes above 7 (no note)
/// played as nothing.
pub open spec fn notes_of(w: Seq<u8>) -> Seq<Note>
    decreases w.len(),
{
    if w.len() == 0 {
        Seq::<Note>::empty()
    } else {
        let before = notes_of(w.drop_last());
        if w.last() <= 7 { before.push(note_of_code(w.last())->0) } else { before }
    }
}

/// A walk of `d` codes plays at most `d` notes, at least one when it starts
/// with a note, each the note of a code of the walk.
pub proof fn lemma_notes_of(t: Map<u8, Seq<u8>>, w: Seq<u8>)
    requires
        forall|i: int| 0 <= i < w.len() ==> t.dom().contains(#[trigger] w[i]),
    ensures
        notes_of(w).len() <= w.len(),
        w.len() > 0 && w[0] <= 7 ==> notes_of(w).len() > 0,
        forall|i: int| 0 <= i < notes_of(w).len() ==> t.dom().contains(note_code(#[trigger] notes_of(w)[i])),
    decreases w.len(),
{
    if w.len() > 0 {
        let rest = w.drop_last();
        assert forall|i: int| 0 <= i < rest.len() implies t.dom().contains(#[trigger] rest[i]) by {
            assert(rest[i] == w[i]);
        }
        lemma_notes_of(t, rest);
        if w.len() > 1 {
            assert(rest[0] == w[0]);
        }
        let c = w.last();
        assert(t.dom().contains(w[w.len() - 1]));
        if c <= 7 {
            lemma_code_round_trip(c);
        }
    }
}

/// Draws a melody by a random walk of `duration` codes on the table: the
/// first code is drawn among the table's notes other than the pause, each
/// next one among the codes listed for the current one; each code that
/// stands for a note adds that note (see `notes_of`).
pub fn random_notes(matrix_transition: &HashMap<u8, Vec<u8>>, duration: u16) -> (r: Vec<Note>)
    requires
        walkable(table(matrix_transition@), duration as int),
    ensures
        exists|w: Seq<u8>| w.len() == duration && #[trigger] is_walk(table(matrix_transition@), w) && r@ == notes_of(w),
{
    let ghost t = table(matrix_transition@);
    let mut starts: Vec<u8> = Vec::new();
    let mut k: u8 = 0;
    while k < 7
        invariant
            k <= 7,
            t == table(matrix_transition@),
            forall|i: int| 0 <= i < starts@.len() ==> starts@[i] < 7 && t.dom().contains(#[trigger] starts@[i]),
            forall|q: u8| q < k && #[trigger] t.dom().contains(q) ==> starts@.contains(q),
        decreases 7 - k,
    {
        let ghost before = starts@;
        if matrix_transition.contains_key(&k) {
            starts.push(k);
        }
        proof {
            assert forall|q: u8| q < k + 1 && #[trigger] t.dom().contains(q) implies starts@.contains(q) by {
                if q == k {
                    assert(starts@[starts@.len() - 1] == k);
                } else {
                    let p = choose|p: int| 0 <= p < before.len() && before[p] == q;
                    assert(starts@[p] == q);
                }
            }
        }
        k = k + 1;
    }
    let ghost s0 = choose|q: u8| q < 7 && #[trigger] t.dom().contains(q);
    assert(starts@.contains(s0));
    let pick = random_in_range(0, starts.len());
    let mut current_note: u8 = starts[pick];
    assert(current_note < 7 && t.dom().contains(current_note));
    assert(is_path(t, seq![current_note]));
    let mut notes: Vec<Note> = Vec::new();
    let ghost mut w: Seq<u8> = Seq::empty();
    let mut i: u16 = 0;
    while i < duration
        invariant
            t == table(matrix_transition@),
            walkable(t, duration as int),
            is_path(t, w.push(current_note)),
            i <= duration,
            w.len() == i,
            i == 0 ==> current_note < 7,
            is_walk(t, w),
            i > 0 ==> t[w.last()].contains(current_note),
            notes@ == notes_of(w),
        decreases duration - i,
    {
        let ghost w1 = w.push(current_note);
        proof {
            assert(w1.last() == current_note);
            assert(t.dom().contains(current_note) && t[current_note].len() > 0);
            assert(w1.drop_last() =~= w);
            assert forall|q: int| 0 <= q < w1.len() - 1 implies t[#[trigger] w1[q]].contains(w1[q + 1]) by {
                if q < w.len() - 1 {
                    assert(w1[q] == w[q] && w1[q + 1] == w[q + 1]);
                } else {
                    assert(w1[q] == w.last());
                }
            }
            assert forall|q: int| 0 <= q < w1.len() implies t.dom().contains(#[trigger] w1[q]) by {
                if q < w.len() {
                    assert(w1[q] == w[q]);
                }
            }
            if w.len() > 0 {
                assert(w1[0] == w[0]);
            }
        }
        if current_note <= 7 {
            proof {
                lemma_code_round_trip(current_note);
            }
            let note = match Note::from_code(current_note) {
                Some(n) => n,
                None => Note::Pause,
            };
            notes.push(note);
        }
        proof {
            w = w1;
        }
        let nexts = match matrix_transition.get(&current_note) {
            Some(v) => v,
            None => {
                return notes;
            },
        };
        assert(nexts@ == t[current_note]);
        let j = random_in_range(0, nexts.len());
        let nx = nexts[j];
        assert(t[current_note][j as int] == nx);
        assert(t[current_note].contains(nx));
        proof {
            let p = w.push(nx);
            assert forall|q: int| 0 <= q < p.len() - 1 implies t.dom().contains(#[trigger] p[q]) && t[p[q]].contains(p[q + 1]) by {
                assert(p[q] == w[q]);
                if q < w.len() - 1 {
                    assert(p[q + 1] == w[q + 1]);
                } else {
                    assert(w[q] == current_note);
                }
            }
            assert(p[0] == w[0]);
        }
        current_note = nx;
        i = i + 1;
    }
    notes
}

/// Every code up to 7 stands for the note whose code it is.
pub proof fn lemma_code_round_trip(c: u8)
    requires
        c <= 7,
    ensures
        note_of_code(c) is Some,
        note_code(note_of_code(c)->0) == c,
{
}

/// The table after learning the first `n` transitions of `c`: for each
/// transition, a code already in the table gets the next code appended,
/// a code not yet in it enters with an empty list.
pub open spec fn learned(t: Map<u8, Seq<u8>>, c: Seq<u8>, n: int) -> Map<u8, Seq<u8>>
    decreases n,
{
    if n <= 0 {
        t
    } else {
        let before = learned(t, c, n - 1);
        let k = c[n - 1];
        if before.dom().contains(k) {
            before.insert(k, before[k].push(c[n]))
        } else {
            before.insert(k, Seq::<u8>::empty())
        }
    }
}

/// Learns the transitions of a melody into the table (see `learned`).
pub fn learn_walk(matrix_transition: &mut HashMap<u8, Vec<u8>>, notes: &Vec<Note>)
    requires
        notes@.len() >= 1,
    ensures
        table(final(matrix_transition)@) == learned(table(old(matrix_transition)@), codes(notes@), notes@.len() - 1),
{
    let ghost t0 = table(matrix_transition@);
    let ghost c = codes(notes@);
    let n = notes.len() - 1;
    let mut i: usize = 0;
    while i < n
        invariant
            n == notes@.len() - 1,
            c == codes(notes@),
            i <= n,
            table(matrix_transition@) == learned(t0, c, i as int),
        decreases n - i,
    {
        let current_note = notes[i].code();
        let next_note = notes[i + 1].code();
        if !matrix_transition.contains_key(&current_note) {
            matrix_transition.insert(current_note, Vec::new());
            assert(table(matrix_transition@) =~= learned(t0, c, i + 1));
        } else {
            let mut v: Vec<u8> = match matrix_transition.get(&current_note) {
                Some(x) => x.clone(),
                None => Vec::new(),
            };
            v.push(next_note);
            matrix_transition.insert(current_note, v);
            assert(table(matrix_transition@) =~= learned(t0, c, i + 1));
        }
        i = i + 1;
    }
}

/// The codes of a walk stay in any set closed for walks on the table.
pub proof fn lemma_walk_stays_closed(t: Map<u8, Seq<u8>>, cl: Set<u8>, w: Seq<u8>)
    requires
        walk_closed(t, cl),
        is_walk(t, w),
    ensures
        forall|i: int| 0 <= i < w.len() ==> cl.contains(#[trigger] w[i]),
    decreases w.len(),
{
    if w.len() > 0 {
        let front = w.drop_last();
        assert(is_walk(t, front)) by {
            assert forall|i: int| 0 <= i < front.len() implies t.dom().contains(#[trigger] front[i]) by {
                assert(front[i] == w[i]);
            }
            assert forall|i: int| 0 <= i < front.len() - 1 implies t[#[trigger] front[i]].contains(front[i + 1]) by {
                assert(front[i] == w[i] && front[i + 1] == w[i + 1]);
            }
            if front.len() > 0 {
                assert(front[0] == w[0]);
            }
        }
        lemma_walk_stays_closed(t, cl, front);
        if w.len() == 1 {
            assert(t.dom().contains(w[0]));
        } else {
            let p = w.len() - 2;
            assert(front[p] == w[p]);
            assert(cl.contains(w[p]));
            assert(t[w[p]].contains(w[p + 1]));
            let j = choose|j: int| 0 <= j < t[w[p]].len() && t[w[p]][j] == w[p + 1];
            assert(cl.contains(t[w[p]][j]));
        }
        assert forall|i: int| 0 <= i < w.len() implies cl.contains(#[trigger] w[i]) by {
            if i < w.len() - 1 {
                assert(front[i] == w[i]);
            }
        }
    }
}

/// The notes a walk plays are notes of codes of the walk.
pub proof fn lemma_notes_of_codes(cl: Set<u8>, w: Seq<u8>)
    requires
        forall|i: int| 0 <= i < w.len() ==> cl.contains(#[trigger] w[i]),
    ensures
        forall|i: int| 0 <= i < notes_of(w).len() ==> cl.contains(note_code(#[trigger] notes_of(w)[i])),
    decreases w.len(),
{
    if w.len() > 0 {
        let rest = w.drop_last();
        assert forall|i: int| 0 <= i < rest.len() implies cl.contains(#[trigger] rest[i]) by {
            assert(rest[i] == w[i]);
        }
        lemma_notes_of_codes(cl, rest);
        let c = w.last();
        assert(cl.contains(w[w.len() - 1]));
        let before = notes_of(rest);
        if c <= 7 {
            lemma_code_round_trip(c);
            assert(notes_of(w) == before.push(note_of_code(c)->0));
            assert forall|i: int| 0 <= i < notes_of(w).len() implies cl.contains(note_code(#[trigger] notes_of(w)[i])) by {
                if i < before.len() {
                    assert(notes_of(w)[i] == before[i]);
                }
            }
        } else {
            assert(notes_of(w) == before);
        }
    }
}

/// Learning a melody whose notes are codes of a set closed for walks on a
/// table keeps that set closed for walks (so a ready table stays ready),
/// with the same codes, each list only growing at its end.
pub proof fn lemma_learning_keeps_ready(t: Map<u8, Seq<u8>>, cl: Set<u8>, notes: Seq<Note>, n: int)
    requires
        walk_closed(t, cl),
        forall|i: int| 0 <= i < notes.len() ==> cl.contains(note_code(#[trigger] notes[i])),
        0 <= n <= notes.len() - 1,
    ensures
        walk_closed(learned(t, codes(notes), n), cl),
        ready_table(t) ==> ready_table(learned(t, codes(notes), n)),
        learned(t, codes(notes), n).dom() == t.dom(),
        forall|k: u8| #[trigger] t.dom().contains(k) ==> t[k].is_prefix_of(learned(t, codes(notes), n)[k]),
    decreases n,
{
    let c = codes(notes);
    if n == 0 {
        assert forall|k: u8| #[trigger] t.dom().contains(k) implies t[k].is_prefix_of(t[k]) by {
            assert(t[k].take(t[k].len() as int) =~= t[k]);
        }
    } else {
        lemma_learning_keeps_ready(t, cl, notes, n - 1);
        let before = learned(t, c, n - 1);
        let k = c[n - 1];
        assert(c[n - 1] == note_code(notes[n - 1]));
        assert(cl.contains(note_code(notes[n - 1])));
        assert(cl.contains(note_code(notes[n])));
        assert(before.dom().contains(k));
        let after = before.insert(k, before[k].push(c[n]));
        assert(after.dom() =~= t.dom());
        assert forall|q: u8| #[trigger] t.dom().contains(q) implies t[q].is_prefix_of(after[q]) by {
            if q == k {
                assert(t[q].is_prefix_of(before[q]));
                assert(before[q].push(c[n]).take(t[q].len() as int) =~= before[q].take(t[q].len() as int));
            }
        }
        assert forall|q: u8| #[trigger] cl.contains(q) implies after.dom().contains(q) && after[q].len() > 0 by {
            assert(before.dom().contains(q) && before[q].len() > 0);
        }
        assert forall|q: u8, j: int| cl.contains(q) && 0 <= j < after[q].len() implies cl.contains(#[trigger] after[q][j]) by {
            if q == k && j == after[q].len() - 1 {
            } else {
                assert(after[q][j] == before[q][j]);
                assert(cl.contains(before[q][j]));
            }
        }
        assert forall|q: u8| q < 7 && #[trigger] after.dom().contains(q) implies cl.contains(q) by {
            assert(before.dom().contains(q));
        }
        if ready_table(t) {
            let w = choose|q: u8| q < 7 && #[trigger] t.dom().contains(q);
            assert(after.dom().contains(w));
        }
    }
}

/// The notes of the table (codes up to 7, the pause included) list only
/// notes: a walk never leaves the notes, so it plays every code it takes.
pub open spec fn notes_only(t: Map<u8, Seq<u8>>) -> bool {
    forall|k: u8, j: int| k <= 7 && t.dom().contains(k) && 0 <= j < t[k].len() ==> #[trigger] t[k][j] <= 7
}

/// A table training with walks of `d` codes can use: ready for walks of
/// any length (see `ready_table`), or ready for walks of `d` codes with
/// its notes listing only notes (so that learning a walk adds only
/// transitions the table already has).
pub open spec fn trainable(t: Map<u8, Seq<u8>>, d: int) -> bool {
    ready_table(t) || (walkable(t, d) && notes_only(t))
}

/// Whether the notes of the table list only notes (see `notes_only`).
pub fn table_notes_only(m: &HashMap<u8, Vec<u8>>) -> (b: bool)
    ensures
        b == notes_only(table(m@)),
{
    let ghost t = table(m@);
    let mut k: u8 = 0;
    while k <= 7
        invariant
            k <= 8,
            t == table(m@),
            forall|q: u8, j: int| q < k && t.dom().contains(q) && 0 <= j < t[q].len() ==> #[trigger] t[q][j] <= 7,
        decreases 8 - k,
    {
        match m.get(&k) {
            Some(v) => {
                assert(v@ == t[k]);
                let mut j: usize = 0;
                while j < v.len()
                    invariant
                        j <= v@.len(),
                        k <= 7,
                        t == table(m@),
                        v@ == t[k],
                        t.dom().contains(k),
                        forall|jj: int| 0 <= jj < j ==> #[trigger] t[k][jj] <= 7,
                    decreases v@.len() - j,
                {
                    if v[j] > 7 {
                        assert(t[k][j as int] > 7);
                        return false;
                    }
                    j = j + 1;
                }
            },
            None => {},
        }
        k = k + 1;
    }
    true
}

/// Whether training with walks of `d` codes can use the table (see `trainable`).
pub fn table_trainable(m: &HashMap<u8, Vec<u8>>, d: u8) -> (b: bool)
    ensures
        b == trainable(table(m@), d as int),
{
    table_ready(m) || (table_walkable(m, d as u16) && table_notes_only(m))
}

/// A walk on a table whose notes list only notes plays each of its codes.
proof fn lemma_walk_plays_its_codes(t: Map<u8, Seq<u8>>, w: Seq<u8>)
    requires
        notes_only(t),
        is_walk(t, w),
    ensures
        forall|i: int| 0 <= i < w.len() ==> #[trigger] w[i] <= 7,
        codes(notes_of(w)) == w,
    decreases w.len(),
{
    if w.len() > 0 {
        let front = w.drop_last();
        assert(is_walk(t, front)) by {
            assert forall|i: int| 0 <= i < front.len() implies t.dom().contains(#[trigger] front[i]) by {
                assert(front[i] == w[i]);
            }
            assert forall|i: int| 0 <= i < front.len() - 1 implies t[#[trigger] front[i]].contains(front[i + 1]) by {
                assert(front[i] == w[i] && front[i + 1] == w[i + 1]);
            }
            if front.len() > 0 {
                assert(front[0] == w[0]);
            }
        }
        lemma_walk_plays_its_codes(t, front);
        let c = w.last();
        if w.len() > 1 {
            let a = w.len() - 2;
            assert(front[a] == w[a]);
            assert(w[a] <= 7);
            assert(t[w[a]].contains(w[a + 1]));
            let j = choose|j: int| 0 <= j < t[w[a]].len() && t[w[a]][j] == w[a + 1];
            assert(t[w[a]][j] <= 7);
        }
        assert(c <= 7);
        lemma_code_round_trip(c);
        assert forall|i: int| 0 <= i < w.len() implies #[trigger] w[i] <= 7 by {
            if i < front.len() {
                assert(front[i] == w[i]);
            }
        }
        assert(codes(notes_of(w)) =~= w) by {
            assert(notes_of(w) == notes_of(front).push(note_of_code(c)->0));
            assert forall|i: int| 0 <= i < w.len() implies codes(notes_of(w))[i] == w[i] by {
                if i < front.len() {
                    assert(notes_of(w)[i] == notes_of(front)[i]);
                    assert(codes(notes_of(front))[i] == front[i]);
                }
            }
        }
    }
}

proof fn lemma_push_contains(v: Seq<u8>, a: u8, x: u8)
    ensures
        v.push(a).contains(x) <==> (v.contains(x) || x == a),
{
    let w = v.push(a);
    if v.contains(x) {
        let i = choose|i: int| 0 <= i < v.len() && v[i] == x;
        assert(w[i] == x);
    }
    if x == a {
        assert(w[v.len() as int] == x);
    }
    if w.contains(x) && x != a {
        let i = choose|i: int| 0 <= i < w.len() && w[i] == x;
        assert(i < v.len());
        assert(v[i] == x);
    }
}

/// Learning the transitions of a walk adds to each list only codes it
/// already holds: every list keeps the codes it holds, and grows at its end.
proof fn lemma_learning_walk_same_codes(t: Map<u8, Seq<u8>>, w: Seq<u8>, n: int)
    requires
        is_walk(t, w),
        0 <= n <= w.len() - 1,
    ensures
        learned(t, w, n).dom() == t.dom(),
        forall|k: u8, x: u8| t.dom().contains(k) ==> (#[trigger] learned(t, w, n)[k].contains(x) <==> t[k].contains(x)),
        forall|k: u8| #[trigger] t.dom().contains(k) ==> t[k].is_prefix_of(learned(t, w, n)[k]),
    decreases n,
{
    if n == 0 {
        assert forall|k: u8| #[trigger] t.dom().contains(k) implies t[k].is_prefix_of(t[k]) by {
            assert(t[k].take(t[k].len() as int) =~= t[k]);
        }
    } else {
        lemma_learning_walk_same_codes(t, w, n - 1);
        let before = learned(t, w, n - 1);
        let k0 = w[n - 1];
        assert(t.dom().contains(w[n - 1]));
        assert(before.dom().contains(k0));
        let after = before.insert(k0, before[k0].push(w[n]));
        assert(learned(t, w, n) == after);
        assert(after.dom() =~= t.dom());
        assert(t[w[n - 1]].contains(w[n]));
        assert forall|k: u8, x: u8| t.dom().contains(k) implies (#[trigger] after[k].contains(x) <==> t[k].contains(x)) by {
            if k == k0 {
                lemma_push_contains(before[k0], w[n], x);
                assert(before[k0].contains(x) <==> t[k0].contains(x));
                assert(before[k0].contains(w[n]) <==> t[k0].contains(w[n]));
            } else {
                assert(after[k] == before[k]);
                assert(before[k].contains(x) <==> t[k].contains(x));
            }
        }
        assert forall|q: u8| #[trigger] t.dom().contains(q) implies t[q].is_prefix_of(after[q]) by {
            if q == k0 {
                assert(t[q].is_prefix_of(before[q]));
                assert(before[q].push(w[n]).take(t[q].len() as int) =~= before[q].take(t[q].len() as int));
            }
        }
    }
}

/// Learning a walk keeps a table whose notes list only notes ready for walks of `d` codes.
pub proof fn lemma_learning_keeps_walkable(t: Map<u8, Seq<u8>>, w: Seq<u8>, d: int)
    requires
        walkable(t, d),
        notes_only(t),
        is_walk(t, w),
        w.len() >= 1,
    ensures
        walkable(learned(t, w, w.len() - 1), d),
        notes_only(learned(t, w, w.len() - 1)),
        learned(t, w, w.len() - 1).dom() == t.dom(),
        forall|k: u8| #[trigger] t.dom().contains(k) ==> t[k].is_prefix_of(learned(t, w, w.len() - 1)[k]),
{
    let l = learned(t, w, w.len() - 1);
    lemma_learning_walk_same_codes(t, w, w.len() - 1);
    assert forall|k: u8, j: int| k <= 7 && l.dom().contains(k) && 0 <= j < l[k].len() implies #[trigger] l[k][j] <= 7 by {
        let x = l[k][j];
        assert(l[k].contains(x));
        assert(t[k].contains(x));
        let i = choose|i: int| 0 <= i < t[k].len() && t[k][i] == x;
        assert(t[k][i] <= 7);
    }
    assert forall|p: Seq<u8>| #[trigger] is_path(l, p) && 0 < p.len() <= d implies l.dom().contains(p.last()) && l[p.last()].len() > 0 by {
        assert(is_path(t, p)) by {
            assert forall|i: int| 0 <= i < p.len() - 1 implies t.dom().contains(#[trigger] p[i]) && t[p[i]].contains(p[i + 1]) by {
                assert(l.dom().contains(p[i]) && l[p[i]].contains(p[i + 1]));
            }
        }
        assert(t.dom().contains(p.last()) && t[p.last()].len() > 0);
        assert(t[p.last()].is_prefix_of(l[p.last()]));
    }
    let k = choose|k: u8| k < 7 && #[trigger] t.dom().contains(k);
    assert(l.dom().contains(k));
}

/// Learning transitions between codes of the table appends only codes of
/// the table, and adds no code.
proof fn lemma_learned_appends_keys(t: Map<u8, Seq<u8>>, c: Seq<u8>, n: int)
    requires
        0 <= n < c.len(),
        forall|i: int| 0 <= i < c.len() ==> t.dom().contains(#[trigger] c[i]),
    ensures
        learned(t, c, n).dom() == t.dom(),
        forall|k: u8| #[trigger] t.dom().contains(k) ==> t[k].len() <= learned(t, c, n)[k].len()
            && learned(t, c, n)[k].take(t[k].len() as int) == t[k],
        forall|k: u8, j: int| t.dom().contains(k) && t[k].len() <= j < learned(t, c, n)[k].len()
            ==> t.dom().contains(#[trigger] learned(t, c, n)[k][j]),
    decreases n,
{
    if n == 0 {
        assert forall|k: u8| #[trigger] t.dom().contains(k) implies t[k].len() <= t[k].len()
            && t[k].take(t[k].len() as int) == t[k] by {
            assert(t[k].take(t[k].len() as int) =~= t[k]);
        }
    } else {
        lemma_learned_appends_keys(t, c, n - 1);
        let before = learned(t, c, n - 1);
        let k0 = c[n - 1];
        assert(t.dom().contains(c[n - 1]));
        assert(t.dom().contains(c[n]));
        let after = before.insert(k0, before[k0].push(c[n]));
        assert(learned(t, c, n) == after);
        assert(after.dom() =~= t.dom());
        assert forall|k: u8| #[trigger] t.dom().contains(k) implies t[k].len() <= after[k].len()
            && after[k].take(t[k].len() as int) == t[k] by {
            if k == k0 {
                assert(before[k].push(c[n]).take(t[k].len() as int) =~= before[k].take(t[k].len() as int));
            }
        }
        assert forall|k: u8, j: int| t.dom().contains(k) && t[k].len() <= j < after[k].len()
            implies t.dom().contains(#[trigger] after[k][j]) by {
            if k == k0 && j == after[k].len() - 1 {
            } else {
                assert(after[k][j] == before[k][j]);
            }
        }
    }
}

/// The table after learning the notes a walk plays (see `notes_of`, `learned`).
pub open spec fn learned_walk(t: Map<u8, Seq<u8>>, w: Seq<u8>) -> Map<u8, Seq<u8>> {
    learned(t, codes(notes_of(w)), notes_of(w).len() - 1)
}

/// A training run from table `t0`: `tables` are the table before each
/// epoch and after the last; epoch `i` draws a walk `walks[i]` of `d` codes
/// on the table of that moment and learns the notes it plays.
pub open spec fn is_training(t0: Map<u8, Seq<u8>>, walks: Seq<Seq<u8>>, tables: Seq<Map<u8, Seq<u8>>>, d: int) -> bool {
    &&& tables.len() == walks.len() + 1
    &&& tables[0] == t0
    &&& forall|i: int| 0 <= i < walks.len() ==> {
        &&& (#[trigger] walks[i]).len() == d
        &&& is_walk(tables[i], walks[i])
        &&& tables[i + 1] == learned_walk(tables[i], walks[i])
    }
}

/// Trains the table on `epoch` random melodies drawn from `duration`-code
/// walks: each walk is drawn on the table (see `random_notes`) and the
/// transitions of its notes are learned (see `is_training`). The table
/// keeps its codes and stays usable for training (see `trainable`), ready
/// for walks of any length if it was; each list only grows at its end,
/// by codes of the table. With no epoch the table is left as it is.
pub fn train_data(matrix_transition: &mut HashMap<u8, Vec<u8>>, epoch: u32, duration: u8)
    requires
        epoch > 0 ==> trainable(table(old(matrix_transition)@), duration as int),
        epoch > 0 ==> duration >= 1,
    ensures
        exists|walks: Seq<Seq<u8>>, tables: Seq<Map<u8, Seq<u8>>>|
            walks.len() == epoch && #[trigger] is_training(table(old(matrix_transition)@), walks, tables, duration as int)
                && table(final(matrix_transition)@) == tables.last(),
        epoch == 0 ==> final(matrix_transition)@ == old(matrix_transition)@,
        epoch > 0 ==> trainable(table(final(matrix_transition)@), duration as int),
        markov_ready(old(matrix_transition)@) ==> markov_ready(final(matrix_transition)@),
        final(matrix_transition)@.dom() == old(matrix_transition)@.dom(),
        forall|k: u8| #[trigger] old(matrix_transition)@.dom().contains(k) ==>
            old(matrix_transition)@[k]@.is_prefix_of(final(matrix_transition)@[k]@),
        forall|k: u8, j: int| old(matrix_transition)@.dom().contains(k)
            && old(matrix_transition)@[k]@.len() <= j < final(matrix_transition)@[k]@.len()
            ==> old(matrix_transition)@.dom().contains(#[trigger] final(matrix_transition)@[k]@[j]),
{
    let ghost t0 = table(matrix_transition@);
    let ghost mut walks: Seq<Seq<u8>> = Seq::empty();
    let ghost mut tables: Seq<Map<u8, Seq<u8>>> = seq![t0];
    if epoch == 0 {
        proof {
            assert(is_training(t0, walks, tables, duration as int));
            assert forall|k: u8| #[trigger] old(matrix_transition)@.dom().contains(k) implies
                old(matrix_transition)@[k]@.is_prefix_of(matrix_transition@[k]@) by {
                assert(matrix_transition@[k]@.take(matrix_transition@[k]@.len() as int) =~= matrix_transition@[k]@);
            }
        }
        return;
    }
    let ghost ready0 = ready_table(t0);
    let ghost cl = choose|s: Set<u8>| #[trigger] walk_closed(t0, s);
    let mut x: u32 = 0;
    while x < epoch
        invariant
            x <= epoch,
            duration >= 1,
            ready0 == ready_table(t0),
            ready0 ==> markov_ready(matrix_transition@) && walk_closed(table(matrix_transition@), cl),
            !ready0 ==> walkable(table(matrix_transition@), duration as int) && notes_only(table(matrix_transition@)),
            table(matrix_transition@).dom() == t0.dom(),
            forall|k: u8| #[trigger] t0.dom().contains(k) ==> t0[k].is_prefix_of(table(matrix_transition@)[k]),
            forall|k: u8, j: int| t0.dom().contains(k) && t0[k].len() <= j < table(matrix_transition@)[k].len()
                ==> t0.dom().contains(#[trigger] table(matrix_transition@)[k][j]),
            walks.len() == x,
            is_training(t0, walks, tables, duration as int),
            tables.last() == table(matrix_transition@),
        decreases epoch - x,
    {
        proof {
            if ready0 {
                lemma_ready_walkable(table(matrix_transition@), duration as int);
            }
        }
        let notes = random_notes(matrix_transition, duration as u16);
        let ghost t1 = table(matrix_transition@);
        let ghost w = choose|w: Seq<u8>| w.len() == duration && #[trigger] is_walk(t1, w) && notes@ == notes_of(w);
        proof {
            lemma_notes_of(t1, w);
            if ready0 {
                lemma_walk_stays_closed(t1, cl, w);
                lemma_notes_of_codes(cl, w);
            } else {
                lemma_walk_plays_its_codes(t1, w);
            }
        }
        learn_walk(matrix_transition, &notes);
        proof {
            if ready0 {
                lemma_learning_keeps_ready(t1, cl, notes@, notes@.len() - 1);
            } else {
                assert(codes(notes@) == w);
                lemma_learning_keeps_walkable(t1, w, duration as int);
            }
            let c = codes(notes@);
            assert forall|i: int| 0 <= i < c.len() implies t1.dom().contains(#[trigger] c[i]) by {
                assert(c[i] == note_code(notes@[i]));
            }
            lemma_learned_appends_keys(t1, c, c.len() - 1);
            let t2 = table(matrix_transition@);
            assert forall|k: u8, j: int| t0.dom().contains(k) && t0[k].len() <= j < t2[k].len()
                implies t0.dom().contains(#[trigger] t2[k][j]) by {
                if j < t1[k].len() {
                    assert(t2[k].take(t1[k].len() as int)[j] == t1[k][j]);
                    assert(t0.dom().contains(t1[k][j]));
                } else {
                    assert(t1.dom().contains(t2[k][j]));
                }
            }
            assert forall|k: u8| #[trigger] t0.dom().contains(k) implies t0[k].is_prefix_of(table(matrix_transition@)[k]) by {
                assert(t0[k].is_prefix_of(t1[k]));
                assert(t1[k].is_prefix_of(table(matrix_transition@)[k]));
                assert(t0[k] =~= t1[k].take(t0[k].len() as int));
                assert(table(matrix_transition@)[k].take(t0[k].len() as int) =~= table(matrix_transition@)[k].take(t1[k].len() as int).take(t0[k].len() as int));
            }
            let walks1 = walks.push(w);
            let tables1 = tables.push(table(matrix_transition@));
            assert(table(matrix_transition@) == learned_walk(t1, w));
            assert forall|i: int| 0 <= i < walks1.len() implies {
                &&& (#[trigger] walks1[i]).len() == duration as int
                &&& is_walk(tables1[i], walks1[i])
                &&& tables1[i + 1] == learned_walk(tables1[i], walks1[i])
            } by {
                if i < walks.len() {
                    assert(walks1[i] == walks[i]);
                    assert(tables1[i] == tables[i] && tables1[i + 1] == tables[i + 1]);
                } else {
                    assert(walks1[i] == w);
                    assert(tables1[i] == t1);
                }
            }
            walks = walks1;
            tables = tables1;
        }
        x = x + 1;
    }
    proof {
        assert(matrix_transition@.dom() =~= table(matrix_transition@).dom());
        assert(old(matrix_transition)@.dom() =~= t0.dom());
        assert forall|k: u8| #[trigger] old(matrix_transition)@.dom().contains(k) implies
            old(matrix_transition)@[k]@.is_prefix_of(matrix_transition@[k]@) by {
            assert(t0[k] == old(matrix_transition)@[k]@);
            assert(table(matrix_transition@)[k] == matrix_transition@[k]@);
        }
    }
}

} // verus!
