use rainbowtable::reduction::{reduction_function1, ReductionError};

#[test]
fn reduce_exact_value() {
    // bytes of "ab" are 97, 98 -> numeral 9798; base-26 digits of 9798,
    // least significant first: 22 ('w'), 12 ('m'), 14 ('o').
    let r = reduction_function1("ab", 3, 0).unwrap();
    assert_eq!(r, "wmo");
}

#[test]
fn reduce_empty_digest_is_format_error() {
    let r = reduction_function1("", 5, 1);
    assert_eq!(r, Err(ReductionError::Format));
}

#[test]
fn reduce_deterministic() {
    let a = reduction_function1("0f3a9c21", 8, 7).unwrap();
    let b = reduction_function1("0f3a9c21", 8, 7).unwrap();
    assert_eq!(a, b);
}

#[test]
fn reduce_column_sensitivity() {
    // Neighbouring column indices must give different plaintexts for a
    // fixed digest, for the vast majority of indices.
    let digest = "9c21ab3f";
    let mut differing = 0;
    for i in 0..50u32 {
        let a = reduction_function1(digest, 8, i).unwrap();
        let b = reduction_function1(digest, 8, i + 1).unwrap();
        if a != b {
            differing += 1;
        }
    }
    assert!(differing >= 49);
}

#[test]
fn reduce_output_shape() {
    for digest in ["00", "ffffffffffffffff", "a", "deadbeef"] {
        for length in [1u32, 4, 8, 12] {
            let r = reduction_function1(digest, length, 3).unwrap();
            assert_eq!(r.chars().count(), length as usize);
            assert!(r.chars().all(|c| c.is_ascii_lowercase()));
        }
    }
}

#[test]
fn reduce_index_wraps_at_space_size() {
    // The column index only matters modulo 26^length.
    let a = reduction_function1("xy", 1, 3).unwrap();
    let b = reduction_function1("xy", 1, 29).unwrap();
    assert_eq!(a, b);
    let c = reduction_function1("xy", 2, 5).unwrap();
    let d = reduction_function1("xy", 2, 5 + 26 * 26).unwrap();
    assert_eq!(c, d);
}
