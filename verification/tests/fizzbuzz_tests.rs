use phone_encoding::fizzbuzz::{fizz_buzz, Fizzy, Matcher};

#[test]
fn test_simple() {
    let expect = vec![
        "1", "2", "fizz", "4", "buzz", "fizz", "7", "8", "fizz", "buzz", "11", "fizz", "13", "14",
        "fizzbuzz", "16",
    ];
    let got = fizz_buzz::<i32>().apply((1..=16).collect());
    assert_eq!(expect, got);
}

#[test]
fn test_u8() {
    let expect = vec![
        "1", "2", "fizz", "4", "buzz", "fizz", "7", "8", "fizz", "buzz", "11", "fizz", "13", "14",
        "fizzbuzz", "16",
    ];
    let got = fizz_buzz::<u8>().apply((1_u8..=16).collect());
    assert_eq!(expect, got);
}

#[test]
fn test_u64() {
    let expect = vec![
        "1", "2", "fizz", "4", "buzz", "fizz", "7", "8", "fizz", "buzz", "11", "fizz", "13", "14",
        "fizzbuzz", "16",
    ];
    let got = fizz_buzz::<u64>().apply((1_u64..=16).collect());
    assert_eq!(expect, got);
}

#[test]
fn test_nonsequential() {
    let collatz_12 = &[12, 6, 3, 10, 5, 16, 8, 4, 2, 1];
    let expect = vec![
        "fizz", "fizz", "fizz", "buzz", "buzz", "16", "8", "4", "2", "1",
    ];
    let got = fizz_buzz::<i32>().apply(collatz_12.to_vec());
    assert_eq!(expect, got);
}

#[test]
fn test_custom() {
    let expect = vec![
        "1", "2", "Fizz", "4", "Buzz", "Fizz", "Bam", "8", "Fizz", "Buzz", "11", "Fizz", "13",
        "Bam", "BuzzFizz", "16",
    ];
    let fizzer: Fizzy<i32> = Fizzy::new()
        .add_matcher(Matcher::new(5, "Buzz"))
        .add_matcher(Matcher::new(3, "Fizz"))
        .add_matcher(Matcher::new(7, "Bam"));
    let got = fizzer.apply((1..=16).collect());
    assert_eq!(expect, got);
}

#[test]
fn test_map() {
    let fizzbuzz = fizz_buzz::<i32>();
    let expect = vec![
        "1", "2", "fizz", "4", "buzz", "fizz", "7", "8", "fizz", "buzz", "11", "fizz", "13", "14",
        "fizzbuzz", "16",
    ];
    let got = (1..=16)
        .map(|x| fizzbuzz.apply_elem(&x))
        .collect::<Vec<_>>();
    assert_eq!(expect, got);
}

#[test]
fn test_negative_values() {
    let fizzbuzz = fizz_buzz::<i32>();
    assert_eq!(fizzbuzz.apply_elem(&-7), "-7");
    assert_eq!(fizzbuzz.apply_elem(&-9), "fizz");
    assert_eq!(fizzbuzz.apply_elem(&-10), "buzz");
    assert_eq!(fizzbuzz.apply_elem(&-15), "fizzbuzz");
    assert_eq!(fizzbuzz.apply_elem(&i32::MIN), "-2147483648");
}

#[test]
fn test_large_u64() {
    let fizzbuzz = fizz_buzz::<u64>();
    assert_eq!(fizzbuzz.apply_elem(&u64::MAX), "fizzbuzz");
    assert_eq!(fizzbuzz.apply_elem(&(u64::MAX - 2)), "18446744073709551613");
}

#[test]
fn test_zero_matches_everything() {
    let fizzbuzz = fizz_buzz::<i32>();
    assert_eq!(fizzbuzz.apply_elem(&0), "fizzbuzz");
}
