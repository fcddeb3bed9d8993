use phone_encoding::scoring_table::{score, transform, transform_iter};

fn test_data() -> Vec<(u32, Vec<char>)> {
    vec![
        (1, vec!['A', 'E', 'I', 'O', 'U', 'L', 'N', 'R', 'S', 'T']),
        (2, vec!['D', 'G']),
        (3, vec!['B', 'C', 'M', 'P']),
        (4, vec!['F', 'H', 'V', 'W', 'Y']),
        (5, vec!['K']),
        (8, vec!['J', 'X']),
        (10, vec!['Q', 'Z']),
    ]
}

#[test]
fn test_transform() {
    let data = test_data();

    let new_data = transform(&data);
    assert_eq!(new_data[&('a' as u32)], 1);
    assert_eq!(new_data[&('b' as u32)], 3);
    assert_eq!(new_data[&('c' as u32)], 3);
    assert_eq!(new_data[&('q' as u32)], 10);
    assert_eq!(new_data[&('k' as u32)], 5);
    assert_eq!(new_data[&('t' as u32)], 1);
    assert_eq!(new_data.len(), 26);
}

#[test]
fn test_score() {
    let input = "The quick brown fox jumps over the lazy dog";
    assert_eq!(score(&input, &transform(&test_data())), 99);
}

#[test]
fn test_transform_iter_accumulates() {
    // The same letter in two rows is credited both scores.
    let rows = vec![(2, vec!['a']), (3, vec!['a', 'B'])];
    let table = transform_iter(&rows);
    assert_eq!(table[&('a' as u32)], 5);
    assert_eq!(table[&('b' as u32)], 3);
    assert_eq!(table.len(), 2);
}

#[test]
fn test_score_ignores_unknown_chars() {
    let table = transform(&vec![(4, vec!['z'])]);
    assert_eq!(score("z!? Zz", &table), 12);
}
