use elias_fano::utils::{get_next_set, set_bits};
use elias_fano::{geometry_fits, EliasFano};
use fixedbitset::FixedBitSet;

#[test]
fn test_single_element() {
    let mut ef = EliasFano::new(2, 1);
    ef.compress(&[2]);
    assert_eq!(ef.value(), 2);
    assert_eq!(ef.position(), 0);

    let mut ef = EliasFano::new(2, 1);
    ef.compress(&[0]);
    assert_eq!(ef.value(), 0);

    let mut ef = EliasFano::new(2, 1);
    ef.compress(&[1]);
    assert_eq!(ef.value(), 1);
}

#[test]
fn test_next_boundary() {
    let mut ef = EliasFano::new(10, 3);
    ef.compress(&[1, 4, 7]);
    assert_eq!(ef.next().unwrap(), 4);
    assert_eq!(ef.next().unwrap(), 7);
    assert_eq!(ef.position(), 2);
    // A step past the last valid index fails and leaves the cursor in place.
    assert!(ef.next().is_err());
    assert_eq!(ef.position(), 2);
    assert_eq!(ef.value(), 7);
    assert!(ef.next().is_err());
}

#[test]
fn test_visit_out_of_bounds() {
    let mut ef = EliasFano::new(10, 3);
    ef.compress(&[1, 4, 7]);
    assert_eq!(ef.visit(1).unwrap(), 4);
    // Valid indices are 0..count: count itself holds no value.
    assert!(ef.visit(3).is_err());
    assert!(ef.visit(100).is_err());
    assert_eq!(ef.position(), 1);
    assert_eq!(ef.value(), 4);
}

#[test]
fn test_reset_idempotent_repeated() {
    let mut ef = EliasFano::new(1000, 5);
    ef.compress(&[3, 5, 9, 800, 1000]);
    assert_eq!(ef.visit(3).unwrap(), 800);
    ef.reset();
    ef.reset();
    ef.reset();
    assert_eq!(ef.position(), 0);
    assert_eq!(ef.value(), 3);
}

#[test]
fn test_visit_symmetry_values() {
    let mut ef = EliasFano::new(1000, 5);
    ef.compress(&[0, 5, 9, 800, 1000]);
    let first = ef.visit(3).unwrap();
    let _ = ef.visit(1).unwrap();
    assert_eq!(ef.visit(3).unwrap(), first);
    let _ = ef.visit(4).unwrap();
    assert_eq!(ef.visit(3).unwrap(), first);
    assert_eq!(first, 800);
}

#[test]
fn test_duplicates_round_trip() {
    let values = [2u64, 2, 2, 7, 7, 100];
    let mut ef = EliasFano::new(100, values.len() as u64);
    ef.compress(&values);
    for (i, v) in values.iter().enumerate() {
        assert_eq!(ef.visit(i as u64).unwrap(), *v, "mismatch at index {}", i);
    }
    for (i, v) in values.iter().enumerate().rev() {
        assert_eq!(ef.visit(i as u64).unwrap(), *v, "mismatch at index {}", i);
    }
}

#[test]
fn test_universe_equals_count() {
    // No low bits at all: every value is recovered from the high region alone.
    let values = [0u64, 1, 2, 3, 5];
    let mut ef = EliasFano::new(5, 5);
    ef.compress(&values);
    for (i, v) in values.iter().enumerate() {
        assert_eq!(ef.visit(i as u64).unwrap(), *v);
    }
}

#[test]
fn test_universe_zero() {
    let mut ef = EliasFano::new(0, 2);
    ef.compress(&[0, 0]);
    assert_eq!(ef.value(), 0);
    assert_eq!(ef.next().unwrap(), 0);
    assert!(ef.visit(1).is_ok());
    assert_eq!(ef.value(), 0);
}

#[test]
fn test_geometry() {
    // universe = 1000, count = 5: low width is msb(200) = 7, so the high
    // region holds 5 + (1000 >> 7) + 2 = 14 bits and the low region 35.
    let ef = EliasFano::new(1000, 5);
    assert_eq!(ef.size(), 5);
    assert_eq!(ef.bit_size(), 49);

    assert!(geometry_fits(1000, 5));
    assert!(!geometry_fits(1000, 0));
}

#[test]
fn test_info_text() {
    let ef = EliasFano::new(1000, 5);
    let text = ef.info();
    assert!(text.contains("Universe: 1000"));
    assert!(text.contains("Elements: 5"));
}

#[test]
fn test_set_bits_and_scan() {
    let mut b = FixedBitSet::with_capacity(16);
    // 0b101 written big-endian at offset 3 sets bits 3 and 5 only.
    set_bits(&mut b, 3, 0b101, 3);
    assert!(b.contains(3));
    assert!(!b.contains(4));
    assert!(b.contains(5));
    assert!(!b.contains(2));
    assert!(!b.contains(6));
    assert_eq!(get_next_set(&b, 0), 3);
    assert_eq!(get_next_set(&b, 4), 5);
    assert_eq!(get_next_set(&b, 6), 0);
}

#[test]
fn test_sequential_matches_random_access() {
    let values = [1u64, 3, 3, 60, 61, 61, 200, 500, 999, 1000];
    let mut ef = EliasFano::new(1000, values.len() as u64);
    ef.compress(&values);

    let mut scanned = vec![ef.value()];
    while let Ok(v) = ef.next() {
        scanned.push(v);
    }

    let mut visited = Vec::new();
    for i in 0..values.len() {
        visited.push(ef.visit(i as u64).unwrap());
    }

    assert_eq!(scanned, visited);
    assert_eq!(scanned, values.to_vec());
}
