//! The counting part of the byte statistics.

use imghex_core::stats::byte_counts;

#[test]
fn empty_is_none() {
    assert!(byte_counts(&[]).is_none());
}

#[test]
fn constant_data_has_zero_entropy() {
    let s = byte_counts(&[7u8; 100]).unwrap();
    assert_eq!(s.count, 100);
    assert_eq!(s.min, 7);
    assert_eq!(s.max, 7);
    assert_eq!(s.distinct, 1);
    // One value makes up every byte: its share is 1, so the entropy is 0.
    assert_eq!(s.most_common, 7);
    assert_eq!(s.most_common_count, 100);
    assert_eq!(s.histogram[7], 100);
}

#[test]
fn two_equal_values_give_one_bit_of_entropy() {
    let s = byte_counts(&[0, 255, 0, 255]).unwrap();
    assert_eq!(s.min, 0);
    assert_eq!(s.max, 255);
    assert_eq!(s.sum as f64 / s.count as f64, 127.5);
    assert_eq!(s.distinct, 2);
    assert_eq!((s.histogram[0], s.histogram[255]), (2, 2));
}

#[test]
fn uniform_bytes_reach_max_entropy() {
    let data: Vec<u8> = (0..=255).collect();
    let s = byte_counts(&data).unwrap();
    assert_eq!(s.distinct, 256);
    assert!(s.histogram.iter().all(|&c| c == 1));
    assert_eq!(s.sum as f64 / s.count as f64, 127.5);
}
