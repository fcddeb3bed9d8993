use phone_encoding::decomp::process_sequence;
use phone_encoding::trie::Trie;

#[test]
fn test_simple_find_occurrences() {
    let mut trie = Trie::new();
    let buf = vec![1, 2, 3, 1, 2, 4];
    trie.add_seq(&buf[0..2], "kek".to_string());
    trie.add_seq(&buf[0..3], "mem".to_string());
    trie.add_seq(&buf[1..3], "lol".to_string());
    trie.build();
    let occurrences = trie.find_all_occurrences(&buf);

    assert_eq!(
        occurrences,
        vec![
            Vec::new(),
            Vec::new(),
            Vec::from([(2, vec!["kek".to_string()])]),
            Vec::from([
                (3, vec!["mem".to_string()]),
                (2, vec!["lol".to_string()])
            ]),
            Vec::from([]),
            Vec::from([(2, vec!["kek".to_string()])]),
            Vec::from([]),
        ]
    );
}

#[test]
fn test_another() {
    let mut trie = Trie::new();

    let buf = vec![5, 6, 2, 4, 8, 2];
    trie.add_seq(&buf[0..3], "mix".to_string());
    trie.add_seq(&buf[3..], "Tor".to_string());
    trie.build();
    let occurrences = trie.find_all_occurrences(&buf);
    assert_eq!(
        occurrences,
        vec![
            Vec::new(),
            Vec::new(),
            Vec::new(),
            Vec::from([(3, vec!["mix".to_string()])]),
            Vec::new(),
            Vec::new(),
            Vec::from([(3, vec!["Tor".to_string()])]),
        ]
    );
}

#[test]
fn test_scan_twice_identical() {
    let mut trie = Trie::new();
    let buf = vec![1, 2, 3, 1, 2, 4];
    trie.add_seq(&buf[0..2], "kek".to_string());
    trie.add_seq(&buf[0..3], "mem".to_string());
    trie.add_seq(&buf[1..3], "lol".to_string());
    trie.build();
    let first = trie.find_all_occurrences(&buf);
    let second = trie.find_all_occurrences(&buf);
    assert_eq!(first, second);
}

#[test]
fn test_empty_dictionary_scan() {
    let mut trie = Trie::new();
    trie.build();
    let occurrences = trie.find_all_occurrences(&[1, 2, 3]);
    assert_eq!(
        occurrences,
        vec![Vec::new(), Vec::new(), Vec::new(), Vec::new()]
    );
}

#[test]
fn test_empty_encoding_is_skipped() {
    let mut trie = Trie::new();
    trie.add_seq(&[], "ghost".to_string());
    trie.add_seq(&[7], "real".to_string());
    trie.build();
    let occurrences = trie.find_all_occurrences(&[7]);
    assert_eq!(
        occurrences,
        vec![Vec::new(), Vec::from([(1, vec!["real".to_string()])])]
    );
}

#[test]
fn test_single_word_decomposition() {
    let mut trie = Trie::new();
    trie.add_seq(&[2, 2], "aa".to_string());
    trie.build();
    let lines = process_sequence(&trie, &[2, 2], "22".to_string());
    assert_eq!(lines, vec!["22: aa".to_string()]);
}

#[test]
fn test_no_trailing_skip() {
    let mut trie = Trie::new();
    trie.add_seq(&[2, 2], "aa".to_string());
    trie.build();
    let lines = process_sequence(&trie, &[2, 2, 2], "222".to_string());
    assert_eq!(lines, Vec::<String>::new());
}

#[test]
fn test_empty_input_no_decompositions() {
    let mut trie = Trie::new();
    trie.add_seq(&[2, 2], "aa".to_string());
    trie.build();
    let lines = process_sequence(&trie, &[], "".to_string());
    assert_eq!(lines, Vec::<String>::new());
}

#[test]
fn test_skip_between_words() {
    let mut trie = Trie::new();
    trie.add_seq(&[1, 2], "ab".to_string());
    trie.build();
    let lines = process_sequence(&trie, &[1, 2, 5, 1, 2], "12512".to_string());
    assert_eq!(lines, vec!["12512: ab 5 ab".to_string()]);
}

#[test]
fn test_homophones_both_reported() {
    let mut trie = Trie::new();
    trie.add_seq(&[2, 3], "xu".to_string());
    trie.add_seq(&[2, 3], "yv".to_string());
    trie.build();
    let lines = process_sequence(&trie, &[2, 3], "23".to_string());
    assert_eq!(lines, vec!["23: xu".to_string(), "23: yv".to_string()]);
}

#[test]
fn test_no_double_skip() {
    let mut trie = Trie::new();
    trie.add_seq(&[1, 2], "ab".to_string());
    trie.build();
    // Two un-encoded digits in a row are never allowed.
    let lines = process_sequence(&trie, &[5, 5, 1, 2], "5512".to_string());
    assert_eq!(lines, Vec::<String>::new());
}

#[test]
fn test_word_then_skip_then_word() {
    let mut trie = Trie::new();
    trie.add_seq(&[1], "a".to_string());
    trie.add_seq(&[1, 2, 1], "cbc".to_string());
    trie.build();
    // Both "a 2 a" (skipping the middle digit) and "cbc" cover the input.
    let lines = process_sequence(&trie, &[1, 2, 1], "121".to_string());
    assert_eq!(
        lines,
        vec!["121: a 2 a".to_string(), "121: cbc".to_string()]
    );
}

#[test]
fn test_overlapping_words_all_decompositions() {
    let mut trie = Trie::new();
    trie.add_seq(&[1], "a".to_string());
    trie.add_seq(&[1, 1], "aa".to_string());
    trie.build();
    let lines = process_sequence(&trie, &[1, 1], "11".to_string());
    // Every decomposition appears exactly once.
    assert_eq!(lines, vec!["11: a a".to_string(), "11: aa".to_string()]);
}
