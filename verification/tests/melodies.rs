use std::collections::HashMap;

use echo::melody::{learn_walk, random_notes, train_data, transition_matrix, Note};
use echo::training::{load_data, training_text};
use echo::training::training_readable;
use echo::melody::{table_notes_only, table_ready, table_trainable, table_walkable};

fn two_note_table() -> HashMap<u8, Vec<u8>> {
    let mut m = HashMap::new();
    m.insert(0u8, vec![4u8]);
    m.insert(4u8, vec![0u8]);
    m
}

#[test]
fn note_codes() {
    assert_eq!(Note::Do.code(), 0);
    assert_eq!(Note::Fa.code(), 1);
    assert_eq!(Note::La.code(), 2);
    assert_eq!(Note::Mi.code(), 3);
    assert_eq!(Note::Re.code(), 4);
    assert_eq!(Note::Si.code(), 5);
    assert_eq!(Note::Sol.code(), 6);
    assert_eq!(Note::Pause.code(), 7);
}

#[test]
fn notes_from_codes() {
    assert_eq!(Note::from_code(6), Some(Note::Sol));
    assert_eq!(Note::from_code(7), Some(Note::Pause));
    assert_eq!(Note::from_code(8), None);
    for c in 0u8..8 {
        assert_eq!(Note::from_code(c).map(|n| n.code()), Some(c));
    }
}

#[test]
fn transition_matrix_lists_followers_in_order() {
    let m = transition_matrix(vec![Note::Do, Note::Re, Note::Do, Note::Mi]);
    assert_eq!(m.len(), 2);
    assert_eq!(m[&0], vec![4, 3]);
    assert_eq!(m[&4], vec![0]);
}

#[test]
fn transition_matrix_of_one_note_is_empty() {
    assert!(transition_matrix(vec![Note::La]).is_empty());
}

#[test]
fn random_notes_walk_the_table() {
    let m = two_note_table();
    let notes = random_notes(&m, 6);
    assert_eq!(notes.len(), 6);
    assert!(notes[0] == Note::Do || notes[0] == Note::Re);
    for i in 0..5 {
        let next = m[&notes[i].code()][0];
        assert_eq!(notes[i + 1].code(), next);
    }
    assert!(random_notes(&m, 0).is_empty());
}

#[test]
fn random_notes_never_start_with_a_pause() {
    let mut m = HashMap::new();
    m.insert(7u8, vec![2u8]);
    m.insert(2u8, vec![7u8]);
    for _ in 0..20 {
        let notes = random_notes(&m, 3);
        assert_eq!(notes, vec![Note::La, Note::Pause, Note::La]);
    }
}

#[test]
fn learning_appends_followers_of_known_notes() {
    let mut m = two_note_table();
    learn_walk(&mut m, &vec![Note::Do, Note::Re, Note::Do]);
    assert_eq!(m[&0], vec![4, 4]);
    assert_eq!(m[&4], vec![0, 0]);
}

#[test]
fn learning_an_unknown_note_gives_it_no_followers() {
    let mut m = HashMap::new();
    m.insert(0u8, vec![4u8]);
    learn_walk(&mut m, &vec![Note::Re, Note::Do]);
    assert_eq!(m[&4], Vec::<u8>::new());
    assert_eq!(m[&0], vec![4]);
}

#[test]
fn training_keeps_keys_and_grows_lists() {
    let mut m = two_note_table();
    train_data(&mut m, 3, 5);
    assert_eq!(m.len(), 2);
    assert!(m[&0].iter().all(|&c| c == 4));
    assert!(m[&4].iter().all(|&c| c == 0));
    assert_eq!(m[&0].len() + m[&4].len(), 2 + 3 * 4);
}

#[test]
fn training_zero_epochs_changes_nothing() {
    let mut m = two_note_table();
    train_data(&mut m, 0, 5);
    assert_eq!(m, two_note_table());
}

#[test]
fn training_text_lists_keys_in_order() {
    let mut m = HashMap::new();
    m.insert(4u8, vec![0u8]);
    m.insert(0u8, vec![4u8, 1u8]);
    m.insert(1u8, vec![0u8]);
    assert_eq!(training_text(&m), b"0:41\n1:0\n4:0\n".to_vec());
    assert!(training_text(&HashMap::new()).is_empty());
}

#[test]
fn training_text_writes_codes_in_decimal() {
    let mut m = HashMap::new();
    m.insert(12u8, vec![10u8, 255u8]);
    assert_eq!(training_text(&m), b"12:10255\n".to_vec());
}

#[test]
fn load_reads_lines_of_digits() {
    let m = load_data(b"2:13\n");
    assert_eq!(m.len(), 1);
    assert_eq!(m[&2], vec![1, 3]);
}

#[test]
fn load_reads_the_last_byte_twice_without_final_newline() {
    let m = load_data(b"3:12");
    assert_eq!(m[&3], vec![1, 2, 2]);
}

#[test]
fn load_leaves_out_keys_without_codes() {
    let m = load_data(b"5:\n6:1\n");
    assert_eq!(m.len(), 1);
    assert_eq!(m[&6], vec![1]);
}

#[test]
fn load_keeps_the_last_line_of_a_repeated_key() {
    let m = load_data(b"1:2\n1:34\n");
    assert_eq!(m[&1], vec![3, 4]);
}

#[test]
fn saved_table_loads_back() {
    let mut m = HashMap::new();
    m.insert(0u8, vec![4u8, 1u8, 7u8]);
    m.insert(1u8, vec![0u8]);
    m.insert(4u8, vec![0u8, 0u8]);
    m.insert(7u8, vec![1u8]);
    let text = training_text(&m);
    assert_eq!(load_data(&text), m);
}

#[test]
fn trained_table_saves_and_loads_back() {
    let mut m = two_note_table();
    train_data(&mut m, 4, 6);
    let text = training_text(&m);
    assert_eq!(load_data(&text), m);
}

#[test]
fn readable_training_files() {
    assert!(training_readable(b"2:13\n"));
    assert!(training_readable(b"2:1 3\n"));
    assert!(training_readable(b"\n\n"));
    assert!(!training_readable(b""));
    assert!(!training_readable(b" 2:1\n"));
    assert!(!training_readable(b"2:1/\n"));
    assert!(load_data(b"\n\n").is_empty());
}

#[test]
fn ready_tables() {
    assert!(table_ready(&two_note_table()));
    let mut pause_only = HashMap::new();
    pause_only.insert(7u8, vec![7u8]);
    assert!(!table_ready(&pause_only));
    let mut dangling = two_note_table();
    dangling.insert(2u8, vec![5u8]);
    assert!(!table_ready(&dangling));
    let mut empty_list = two_note_table();
    empty_list.insert(3u8, vec![]);
    assert!(!table_ready(&empty_list));
    let mut big_key = two_note_table();
    big_key.insert(9u8, vec![0u8]);
    assert!(table_ready(&big_key));
    assert!(!table_ready(&HashMap::new()));
    // A key that no walk from a note reaches may list anything.
    let mut unreachable = two_note_table();
    unreachable.insert(9u8, vec![12u8]);
    unreachable.insert(10u8, vec![]);
    assert!(table_ready(&unreachable));
    // A code reached from a note must have codes listed.
    let mut reached = two_note_table();
    reached.insert(0u8, vec![4u8, 7u8]);
    assert!(!table_ready(&reached));
    reached.insert(7u8, vec![7u8]);
    assert!(table_ready(&reached));
}

#[test]
fn codes_without_a_note_play_nothing() {
    let mut m = HashMap::new();
    m.insert(0u8, vec![9u8]);
    m.insert(9u8, vec![0u8]);
    assert_eq!(random_notes(&m, 5), vec![Note::Do, Note::Do, Note::Do]);
    assert_eq!(random_notes(&m, 4), vec![Note::Do, Note::Do]);
}

#[test]
fn training_through_codes_without_a_note() {
    let mut m = HashMap::new();
    m.insert(0u8, vec![9u8]);
    m.insert(9u8, vec![0u8]);
    train_data(&mut m, 1, 4);
    assert_eq!(m[&0], vec![9, 0]);
    assert_eq!(m[&9], vec![0]);
}

#[test]
fn walkable_tables_depend_on_the_walk_length() {
    let mut m = HashMap::new();
    m.insert(0u8, vec![1u8]);
    m.insert(1u8, vec![5u8]);
    assert!(table_walkable(&m, 0));
    assert!(table_walkable(&m, 1));
    assert!(!table_walkable(&m, 2));
    assert!(!table_ready(&m));
    assert!(table_walkable(&two_note_table(), 1000));
    let mut pause_only = HashMap::new();
    pause_only.insert(7u8, vec![7u8]);
    assert!(!table_walkable(&pause_only, 3));
    let mut chain = HashMap::new();
    chain.insert(0u8, vec![8u8]);
    chain.insert(8u8, vec![9u8]);
    chain.insert(9u8, vec![10u8]);
    assert!(table_walkable(&chain, 3));
    assert!(!table_walkable(&chain, 4));
}

#[test]
fn trainable_tables() {
    // Not closed (5 is listed but no key), yet every walk of one code works.
    let mut m = HashMap::new();
    m.insert(0u8, vec![1u8]);
    m.insert(1u8, vec![5u8]);
    assert!(table_notes_only(&m));
    assert!(table_trainable(&m, 1));
    assert!(!table_trainable(&m, 2));
    train_data(&mut m, 3, 1);
    assert_eq!(m.get(&0), Some(&vec![1u8]));
    assert_eq!(m.get(&1), Some(&vec![5u8]));
    // A note listing a code above 7 needs a table ready for any walk.
    let mut far = HashMap::new();
    far.insert(0u8, vec![8u8]);
    far.insert(8u8, vec![0u8]);
    assert!(!table_notes_only(&far));
    assert!(table_trainable(&far, 4));
    far.insert(8u8, vec![9u8]);
    assert!(!table_trainable(&far, 3));
    assert!(table_trainable(&two_note_table(), 7));
}

#[test]
fn training_lines_load_in_any_order() {
    let m = load_data(b"3:12\n0:3\n2:\n");
    let mut expected = HashMap::new();
    expected.insert(3u8, vec![1u8, 2u8]);
    expected.insert(0u8, vec![3u8]);
    assert_eq!(m, expected);
    assert_eq!(load_data(b"0:3\n2:\n3:12\n"), expected);
}
