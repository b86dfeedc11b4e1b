use vstd::prelude::*;
use std::collections::HashMap;
use crate::melody::table;

verus! {

broadcast use vstd::std_specs::hash::group_hash_axioms;

/// The state of the training-file reader: whether a key is expected next,
/// the current key, the codes read for it, the table so far, and whether
/// every digit met so far was a digit or above (the reader subtracts `'0'`
/// from each key and code byte).
pub struct ReadState {
    pub expect_key: bool,
    pub key: u8,
    pub notes: Seq<u8>,
    pub table: Map<u8, Seq<u8>>,
    pub ok: bool,
}

/// The reader's state after one byte.
pub open spec fn read_step(st: ReadState, b: u8) -> ReadState {
    let after = if st.expect_key && b != 10 {
        let t = if st.notes.len() > 0 { st.table.insert(st.key, st.notes) } else { st.table };
        ReadState {
            expect_key: false,
            key: if b >= 48 { (b - 48) as u8 } else { st.key },
            notes: Seq::<u8>::empty(),
            table: t,
            ok: st.ok && b >= 48,
        }
    } else if b != 32 && b != 10 && b != 58 && !st.expect_key {
        ReadState {
            notes: if b >= 48 { st.notes.push((b - 48) as u8) } else { st.notes },
            ok: st.ok && b >= 48,
            ..st
        }
    } else {
        st
    };
    if b == 10 { ReadState { expect_key: true, ..after } } else { after }
}

/// The reader's state after the first `n` bytes of `bytes`.
pub open spec fn read_run(bytes: Seq<u8>, n: int) -> ReadState
    decreases n,
{
    if n <= 0 {
        ReadState { expect_key: true, key: 0, notes: Seq::<u8>::empty(), table: Map::<u8, Seq<u8>>::empty(), ok: true }
    } else {
        read_step(read_run(bytes, n - 1), bytes[n - 1])
    }
}

/// The bytes the reader handles: the file, then its last byte once more
/// (the byte-by-byte read loop handles the stale buffer again after the
/// read that gets nothing).
pub open spec fn bytes_handled(file: Seq<u8>) -> Seq<u8> {
    file.push(file.last())
}

/// The table a training file holds: lines `k:codes`, a key digit, a colon,
/// then one digit per code; a key without codes is left out, a repeated
/// key keeps its last codes.
pub open spec fn read_table(file: Seq<u8>) -> Map<u8, Seq<u8>> {
    let st = read_run(bytes_handled(file), file.len() + 1int);
    if st.notes.len() > 0 { st.table.insert(st.key, st.notes) } else { st.table }
}

/// Whether a training file can be read: it is not empty, and every key or
/// code byte is at least `'0'`.
pub open spec fn readable(file: Seq<u8>) -> bool {
    file.len() > 0 && read_run(bytes_handled(file), file.len() + 1int).ok
}

proof fn lemma_run_ok_prefix(bytes: Seq<u8>, n: int, m: int)
    requires
        0 <= n <= m,
        read_run(bytes, m).ok,
    ensures
        read_run(bytes, n).ok,
    decreases m - n,
{
    if n < m {
        lemma_run_ok_prefix(bytes, n, m - 1);
    }
}

/// Handles one byte of a training file (see `read_step`).
fn read_byte(matrix_transition: &mut HashMap<u8, Vec<u8>>, key: &mut bool, key_val: &mut u8, notes: &mut Vec<u8>, b: u8)
    requires
        read_step(ReadState {
            expect_key: *old(key),
            key: *old(key_val),
            notes: old(notes)@,
            table: table(old(matrix_transition)@),
            ok: true,
        }, b).ok,
    ensures
        ({
            let st = read_step(ReadState {
                expect_key: *old(key),
                key: *old(key_val),
                notes: old(notes)@,
                table: table(old(matrix_transition)@),
                ok: true,
            }, b);
            &&& st.expect_key == *final(key)
            &&& st.key == *final(key_val)
            &&& st.notes == final(notes)@
            &&& st.table == table(final(matrix_transition)@)
        }),
{
    let ghost t0 = table(matrix_transition@);
    if *key && b != 10 {
        if notes.len() > 0 {
            let v = notes.clone();
            *notes = Vec::new();
            matrix_transition.insert(*key_val, v);
            assert(table(matrix_transition@) =~= t0.insert(*old(key_val), old(notes)@));
        }
        *key_val = b - 48;
        *key = false;
    } else if b != 32 && b != 10 && b != 58 && !*key {
        notes.push(b - 48);
    }
    if b == 10 {
        *key = true;
    }
}

/// Reads a transition table from the bytes of a training file (see `read_table`).
pub fn load_data(file: &[u8]) -> (r: HashMap<u8, Vec<u8>>)
    requires
        readable(file@),
    ensures
        table(r@) == read_table(file@),
{
    let ghost handled = bytes_handled(file@);
    let len = file.len();
    let mut matrix_transition: HashMap<u8, Vec<u8>> = HashMap::new();
    let mut key = true;
    let mut notes: Vec<u8> = Vec::new();
    let mut key_val: u8 = 0;
    let mut k: usize = 0;
    assert(table(matrix_transition@) =~= Map::<u8, Seq<u8>>::empty());
    while k < len
        invariant
            len == file@.len(),
            len > 0,
            handled == bytes_handled(file@),
            k <= len,
            read_run(handled, len + 1).ok,
            ({
                let st = read_run(handled, k as int);
                &&& st.expect_key == key
                &&& st.key == key_val
                &&& st.notes == notes@
                &&& st.table == table(matrix_transition@)
                &&& st.ok
            }),
        decreases len - k,
    {
        proof {
            lemma_run_ok_prefix(handled, k + 1, len + 1);
        }
        let b: u8 = file[k];
        assert(handled[k as int] == b);
        read_byte(&mut matrix_transition, &mut key, &mut key_val, &mut notes, b);
        k = k + 1;
    }
    let b: u8 = file[len - 1];
    assert(handled[len as int] == b);
    read_byte(&mut matrix_transition, &mut key, &mut key_val, &mut notes, b);
    if notes.len() > 0 {
        matrix_transition.insert(key_val, notes);
    }
    assert(table(matrix_transition@) =~= read_table(file@));
    matrix_transition
}

/// The reader's key state and validity after one more byte (see `read_step`).
fn check_step(expect_key: bool, ok: bool, b: u8) -> (r: (bool, bool))
    ensures
        ({
            let st = ReadState { expect_key, key: 0, notes: Seq::<u8>::empty(), table: Map::<u8, Seq<u8>>::empty(), ok };
            r.0 == read_step(st, b).expect_key && r.1 == read_step(st, b).ok
        }),
{
    let mut e = expect_key;
    let mut o = ok;
    if e && b != 10 {
        o = o && b >= 48;
        e = false;
    } else if b != 32 && b != 10 && b != 58 && !e {
        o = o && b >= 48;
    }
    if b == 10 {
        e = true;
    }
    (e, o)
}

/// The key state and validity of `read_step` depend on those alone.
proof fn lemma_step_flags(st: ReadState, b: u8)
    ensures
        ({
            let bare = ReadState { expect_key: st.expect_key, key: 0, notes: Seq::<u8>::empty(), table: Map::<u8, Seq<u8>>::empty(), ok: st.ok };
            &&& read_step(st, b).expect_key == read_step(bare, b).expect_key
            &&& read_step(st, b).ok == read_step(bare, b).ok
        }),
{
}

/// Whether a training file can be read (see `readable`): follows the
/// reader's key/code states over the file and its last byte once more,
/// checking that every key or code byte is at least `'0'`.
pub fn training_readable(file: &[u8]) -> (b: bool)
    ensures
        b == readable(file@),
{
    let len = file.len();
    if len == 0 {
        return false;
    }
    let ghost handled = bytes_handled(file@);
    let mut expect_key = true;
    let mut ok = true;
    let mut k: usize = 0;
    while k < len
        invariant
            len == file@.len(),
            0 < len,
            handled == bytes_handled(file@),
            k <= len,
            expect_key == read_run(handled, k as int).expect_key,
            ok == read_run(handled, k as int).ok,
        decreases len - k,
    {
        let b: u8 = file[k];
        assert(handled[k as int] == b);
        proof {
            lemma_step_flags(read_run(handled, k as int), b);
        }
        let (e, o) = check_step(expect_key, ok, b);
        expect_key = e;
        ok = o;
        k = k + 1;
    }
    let b: u8 = file[len - 1];
    assert(handled[len as int] == b);
    proof {
        lemma_step_flags(read_run(handled, len as int), b);
    }
    let (_e, o) = check_step(expect_key, ok, b);
    o
}

/// The decimal digits of a byte value, as ASCII.
pub open spec fn decimal(x: u8) -> Seq<u8> {
    if x < 10 {
        seq![(48 + x) as u8]
    } else if x < 100 {
        seq![(48 + x / 10) as u8, (48 + x % 10) as u8]
    } else {
        seq![(48 + x / 100) as u8, (48 + (x / 10) % 10) as u8, (48 + x % 10) as u8]
    }
}

/// The decimal digits of each code, laid end to end.
pub open spec fn decimals(v: Seq<u8>) -> Seq<u8>
    decreases v.len(),
{
    if v.len() == 0 { Seq::<u8>::empty() } else { decimals(v.drop_last()) + decimal(v.last()) }
}

/// The training-file text of the table's keys below `n`, in increasing
/// order: per key, its decimal value, a colon, its codes in decimal with
/// nothing between them, and a newline.
pub open spec fn table_text(t: Map<u8, Seq<u8>>, n: int) -> Seq<u8>
    decreases n,
{
    if n <= 0 {
        Seq::<u8>::empty()
    } else {
        let k = (n - 1) as u8;
        let before = table_text(t, n - 1);
        if t.dom().contains(k) {
            before + decimal(k) + seq![58u8] + decimals(t[k]) + seq![10u8]
        } else {
            before
        }
    }
}

/// The decimal digits of a byte value.
fn push_decimal(out: &mut Vec<u8>, x: u8)
    ensures
        final(out)@ == old(out)@ + decimal(x),
{
    if x < 10 {
        out.push(48 + x);
    } else if x < 100 {
        out.push(48 + x / 10);
        out.push(48 + x % 10);
    } else {
        out.push(48 + x / 100);
        out.push(48 + (x / 10) % 10);
        out.push(48 + x % 10);
    }
}

/// The text of a training file holding the table (see `table_text`), keys
/// in increasing order.
pub fn training_text(matrix_transition: &HashMap<u8, Vec<u8>>) -> (r: Vec<u8>)
    ensures
        r@ == table_text(table(matrix_transition@), 256),
{
    let ghost t = table(matrix_transition@);
    let mut out: Vec<u8> = Vec::new();
    let mut key: u16 = 0;
    while key < 256
        invariant
            key <= 256,
            t == table(matrix_transition@),
            out@ == table_text(t, key as int),
        decreases 256 - key,
    {
        let k = key as u8;
        match matrix_transition.get(&k) {
            Some(v) => {
                push_decimal(&mut out, k);
                out.push(58);
                let ghost head = out@;
                let mut j: usize = 0;
                while j < v.len()
                    invariant
                        j <= v@.len(),
                        out@ == head + decimals(v@.take(j as int)),
                    decreases v@.len() - j,
                {
                    let ghost before = out@;
                    push_decimal(&mut out, v[j]);
                    assert(v@.take(j + 1).drop_last() =~= v@.take(j as int));
                    j = j + 1;
                }
                assert(v@.take(v@.len() as int) =~= v@);
                out.push(10);
                assert(out@ =~= table_text(t, key + 1));
            },
            None => {
            },
        }
        key = key + 1;
    }
    out
}

} // verus!
