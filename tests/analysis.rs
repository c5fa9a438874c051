use avalanche_effect::automatic::{scan, summarize, trial, trial_samples, Statistics, DIGEST_POSITIONS};
use avalanche_effect::digest::{binary_digest, to_binary_string};
use avalanche_effect::manipulations::{bits_to_bytes, reverse_bit, str_to_bits, FlipError};
use avalanche_effect::manual::analyze_single_flip;
use avalanche_effect::reverse;
use avalanche_effect::statistics::{percent_difference, Classification, ClassifiedChar};

fn percent(count: usize, positions: usize) -> f64 {
    if positions == 0 {
        0.0
    } else {
        count as f64 / positions as f64 * 100.0
    }
}

#[test]
fn binary_string_of_bytes() {
    assert_eq!(to_binary_string(&[0xA5, 0x01]), "1010010100000001");
    assert_eq!(to_binary_string(&[]), "");
}

#[test]
fn digest_of_empty_message() {
    let d = binary_digest(&[]);
    assert_eq!(d.len(), 256);
    assert!(d.starts_with("11100011"));
    assert!(d.ends_with("01010101"));
}

#[test]
fn digest_of_abc() {
    let d = binary_digest("abc".as_bytes());
    assert_eq!(d.len(), 256);
    assert!(d.starts_with("1011101001111000"));
    assert!(d.ends_with("10101101"));
    assert!(d.chars().all(|c| c == '0' || c == '1'));
}

#[test]
fn compare_classifies_each_position() {
    let r = percent_difference("0101", "0110");
    assert_eq!(r.mismatches, 2);
    assert_eq!(r.total, 4);
    assert_eq!(percent(r.mismatches, r.total), 50.0);
    let classes: Vec<Classification> = r.original.iter().map(|c| c.class).collect();
    assert_eq!(
        classes,
        vec![
            Classification::Match,
            Classification::Match,
            Classification::Mismatch,
            Classification::Mismatch
        ]
    );
    assert_eq!(
        r.changed[3],
        ClassifiedChar { ch: '0', class: Classification::Mismatch }
    );
    assert_eq!(r.original[3], ClassifiedChar { ch: '1', class: Classification::Mismatch });
}

#[test]
fn compare_different_lengths_is_empty() {
    let r = percent_difference("01", "011");
    assert_eq!(r.mismatches, 0);
    assert_eq!(r.total, 0);
    assert!(r.original.is_empty());
    assert!(r.changed.is_empty());
}

#[test]
fn compare_empty_strings() {
    let r = percent_difference("", "");
    assert_eq!(percent(r.mismatches, r.total), 0.0);
    assert!(r.original.is_empty());
    assert!(r.changed.is_empty());
}

#[test]
fn compare_all_positions_differ() {
    let r = percent_difference("abc", "xyz");
    assert_eq!(r.mismatches, 3);
    assert_eq!(r.total, 3);
    assert_eq!(percent(r.mismatches, r.total), 100.0);
    let a = binary_digest("x".as_bytes());
    let b: String = a.chars().map(|c| if c == '0' { '1' } else { '0' }).collect();
    let r = percent_difference(&a, &b);
    assert_eq!(percent(r.mismatches, r.total), 100.0);
}

#[test]
fn compare_same_digest_is_zero() {
    let a = binary_digest("hello".as_bytes());
    let b = binary_digest("hello".as_bytes());
    let r = percent_difference(&a, &b);
    assert_eq!(r.mismatches, 0);
    assert_eq!(r.total, 256);
    assert!(r.original.iter().all(|c| c.class == Classification::Match));
}

#[test]
fn bits_round_trip() {
    let bits = str_to_bits("hello");
    assert_eq!(bits.len(), 40);
    assert_eq!(bits_to_bytes(&bits), "hello".as_bytes().to_vec());
    assert_eq!(str_to_bits("é"), vec![1, 1, 0, 0, 0, 0, 1, 1, 1, 0, 1, 0, 1, 0, 0, 1]);
}

#[test]
fn flip_twice_restores() {
    let bits = str_to_bits("ab");
    for idx in 0..bits.len() {
        let once = reverse_bit(&bits, idx).unwrap();
        assert_ne!(once, bits);
        let twice = reverse_bit(&once, idx).unwrap();
        assert_eq!(twice, bits);
    }
    assert_eq!(reverse_bit(&bits, 16), Err(FlipError::IndexOutOfRange));
}

#[test]
fn checked_flip_in_range() {
    let bits = vec![0, 0, 1, 1];
    assert_eq!(reverse::reverse_bit(&bits, 0), vec![0, 0, 1, 0]);
    assert_eq!(reverse::reverse_bit(&bits, 3), vec![1, 0, 1, 1]);
}

#[test]
fn single_flip_out_of_range() {
    assert!(matches!(analyze_single_flip("ab", Some(1000)), Err(FlipError::IndexOutOfRange)));
    assert!(matches!(analyze_single_flip("ab", Some(16)), Err(FlipError::IndexOutOfRange)));
    assert!(analyze_single_flip("ab", Some(15)).is_ok());
    assert!(matches!(analyze_single_flip("", Some(0)), Err(FlipError::IndexOutOfRange)));
}

#[test]
fn single_flip_changes_digest() {
    let r = analyze_single_flip("hello", Some(0)).unwrap();
    assert_eq!(r.total, 256);
    assert!(r.mismatches > 0);
    assert!(percent(r.mismatches, r.total) > 0.0);
    assert_eq!(r.original.len(), 256);
    assert_eq!(r.changed.len(), 256);
}

#[test]
fn single_flip_matches_trial() {
    let text = "hello";
    let bits = str_to_bits(text);
    let baseline = binary_digest(text.as_bytes());
    for idx in [0usize, 7, 8, 39] {
        let r = analyze_single_flip(text, Some(idx)).unwrap();
        assert_eq!(trial(&bits, &baseline, idx), r.mismatches);
    }
}

#[test]
fn single_flip_without_index() {
    let r = analyze_single_flip("test", None).unwrap();
    assert_eq!(r.mismatches, 0);
    assert_eq!(r.total, 256);
    let r = analyze_single_flip("", None).unwrap();
    assert_eq!(r.mismatches, 0);
}

#[test]
fn summarize_counts() {
    let st = summarize(&vec![3, 1, 2], 4);
    assert_eq!(st, Statistics { trials: 3, positions: 4, min: 1, max: 3, total: 6 });
    let st = summarize(&vec![5], 8);
    assert_eq!(st, Statistics { trials: 1, positions: 8, min: 5, max: 5, total: 5 });
}

#[test]
fn summarize_nothing() {
    let st = summarize(&vec![], 256);
    assert_eq!(st, Statistics { trials: 0, positions: 256, min: 0, max: 0, total: 0 });
}

#[test]
fn scan_sample_count() {
    assert_eq!(trial_samples("ab").len(), 16);
    assert_eq!(trial_samples("").len(), 0);
    let samples = trial_samples("hi");
    let bits = str_to_bits("hi");
    let baseline = binary_digest("hi".as_bytes());
    for (idx, s) in samples.iter().enumerate() {
        assert_eq!(*s, trial(&bits, &baseline, idx));
        assert!(*s <= DIGEST_POSITIONS);
    }
}

#[test]
fn scan_of_test() {
    let st = scan("test");
    assert_eq!(st.trials, 32);
    assert_eq!(st.positions, 256);
    let avg = st.total as f64 / st.trials as f64;
    for v in [st.min as f64, st.max as f64, avg] {
        let p = v / st.positions as f64 * 100.0;
        assert!((0.0..=100.0).contains(&p));
    }
    assert!(st.min as f64 <= avg && avg <= st.max as f64);
    assert_eq!(st.total, trial_samples("test").iter().map(|&s| s as u128).sum::<u128>());
}

#[test]
fn scan_of_empty_text() {
    let st = scan("");
    assert_eq!(st, Statistics { trials: 0, positions: 256, min: 0, max: 0, total: 0 });
}

#[test]
fn test_manual_mode_with_invalid_bit_index() {
    let r = analyze_single_flip("ab", Some(1000));
    assert!(matches!(r, Err(FlipError::IndexOutOfRange)));
}

#[test]
fn test_manual_mode_without_bit_flip() {
    let r = analyze_single_flip("test", None).unwrap();
    assert_eq!(percent(r.mismatches, r.total), 0.0);
}

#[test]
fn test_colored_text_generation() {
    let r = analyze_single_flip("test", Some(0)).unwrap();
    assert!(!r.original.is_empty());
    assert!(!r.changed.is_empty());
}

#[test]
fn test_automatic_mode_complete_workflow() {
    let st = scan("test");
    assert_eq!(st.trials, 32);
    assert!(st.min <= st.max);
    assert!(st.max <= st.positions);
}

#[test]
fn test_automatic_mode_parallel_processing() {
    let st = scan("test string");
    assert_eq!(st.trials, 88);
    assert!((st.min * st.trials) as u128 <= st.total);
    assert!(st.total <= (st.max * st.trials) as u128);
    assert!(st.max <= st.positions);
}

