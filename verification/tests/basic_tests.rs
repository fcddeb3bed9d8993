use phone_encoding::basic_algs::{find_num, max_element, nth_prime};
use phone_encoding::guessing::{random_int, scramble};
use phone_encoding::keypad::{convert_encoding, convert_string};

#[test]
fn test_max_element() {
    let arr = [3, 45, 2, 1, 4, -1, 2, -44, 9, 0];
    assert_eq!(max_element(&arr), 45);
    let all_negative = [-3, -45, -2, -1, -4, -10, -2, -44, -9, -7];
    assert_eq!(max_element(&all_negative), -1);
}

#[test]
fn test_find_num() {
    let arr = [-44, -1, 0, 1, 2, 2, 3, 4, 9, 45];
    assert_eq!(find_num(&arr, &4), Some(7));
    assert_eq!(find_num(&arr, &5), None);
    assert_eq!(find_num(&arr, &-44), Some(0));
    assert_eq!(find_num(&arr, &45), Some(9));
}

#[test]
fn test_nth_prime() {
    assert_eq!(nth_prime(0), 2);
    assert_eq!(nth_prime(1), 2);
    assert_eq!(nth_prime(2), 3);
    assert_eq!(nth_prime(4), 7);
    assert_eq!(nth_prime(10), 29);
    assert_eq!(nth_prime(325), 2153);
}

#[test]
fn test_scramble_deterministic() {
    assert_eq!(scramble(7), scramble(7));
    // One xorshift round by hand: 7 ^ (7 << 21), then the other two rounds.
    let a: u64 = 7 ^ (7 << 21);
    let b: u64 = a ^ (a >> 35);
    assert_eq!(scramble(7), b ^ (b << 4));
}

#[test]
fn test_random_int_runs() {
    let x = random_int();
    let y = x ^ x;
    assert_eq!(y, 0);
}

fn keypad_rows() -> Vec<(usize, Vec<char>)> {
    vec![
        (0, vec!['e']),
        (1, vec!['j', 'n', 'q']),
        (2, vec!['r', 'w', 'x']),
        (3, vec!['d', 's', 'y']),
        (4, vec!['f', 't']),
        (5, vec!['a', 'm']),
        (6, vec!['c', 'i', 'v']),
        (7, vec!['b', 'k', 'u']),
        (8, vec!['l', 'o', 'p']),
        (9, vec!['g', 'h', 'z']),
    ]
}

#[test]
fn test_convert_encoding() {
    let enc = convert_encoding(&keypad_rows());
    assert_eq!(enc[&('e' as u32)], 0);
    assert_eq!(enc[&('q' as u32)], 1);
    assert_eq!(enc[&('z' as u32)], 9);
    assert_eq!(enc.len(), 26);
}

#[test]
fn test_convert_string() {
    let enc = convert_encoding(&keypad_rows());
    assert_eq!(convert_string("an", &enc), vec![5, 1]);
    assert_eq!(convert_string("Mix", &enc), vec![5, 6, 2]);
    assert_eq!(convert_string("Tor", &enc), vec![4, 8, 2]);
    assert_eq!(convert_string("a-b c1d", &enc), vec![5, 7, 6, 3]);
    assert_eq!(convert_string("123 .,!", &enc), Vec::<usize>::new());
}
