use pascal_row::generate_row;

#[test]
fn empty_row() {
    assert_eq!(generate_row(0), Vec::<u32>::new());
}

#[test]
fn single_row() {
    assert_eq!(generate_row(1), vec![1u32]);
}

#[test]
fn row_of_five() {
    assert_eq!(generate_row(5), vec![1u32, 4, 6, 4, 1]);
}

#[test]
fn row_of_six() {
    assert_eq!(generate_row(6), vec![1u32, 5, 10, 10, 5, 1]);
}

#[test]
fn length_matches_input() {
    for n in 0usize..50 {
        assert_eq!(generate_row(n).len(), n);
    }
}

#[test]
fn rows_are_palindromic() {
    for n in [1usize, 2, 3, 7, 12, 36, 40] {
        let row = generate_row(n);
        for i in 0usize..n {
            assert_eq!(row[i], row[n - 1 - i]);
        }
    }
}

#[test]
fn recurrence_across_calls() {
    for n in 2usize..40 {
        let row = generate_row(n);
        let prev = generate_row(n - 1);
        for i in 1usize..n - 1 {
            let expected: u64 = (prev[i - 1] as u64 + prev[i] as u64) % 0x1_0000_0000;
            assert_eq!(row[i] as u64, expected);
        }
    }
}

#[test]
fn repeated_calls_are_identical() {
    for n in [0usize, 1, 9, 36] {
        assert_eq!(generate_row(n), generate_row(n));
    }
}

#[test]
fn large_coefficients_wrap_modulo_two_to_the_32() {
    // C(35, 17) = C(35, 18) = 4537567650 is the first coefficient to
    // exceed u32::MAX; the stored entry is its value modulo 2^32.
    let row = generate_row(36);
    assert_eq!(row[17], (4537567650u64 % 0x1_0000_0000) as u32);
    assert_eq!(row[17], 242600354u32);
    assert_eq!(row[18], 242600354u32);
    // C(35, 16) = 4059928950 still fits and is stored exactly.
    assert_eq!(row[16], 4059928950u32);
    assert_eq!(row[0], 1u32);
    assert_eq!(row[35], 1u32);
}
