use kernel_frc::proof_enum::witness::WitnessEnumerator;

#[test]
fn first_is_empty() {
    let mut e = WitnessEnumerator::new();
    let (rank, bytes) = e.next().unwrap();
    assert_eq!(rank, 0);
    assert_eq!(bytes, Vec::<u8>::new());
}

#[test]
fn second_is_zero_byte() {
    let mut e = WitnessEnumerator::new();
    e.next(); // skip empty
    let (rank, bytes) = e.next().unwrap();
    assert_eq!(rank, 1);
    assert_eq!(bytes, vec![0x00]);
}

#[test]
fn rank_256_is_0xff() {
    let mut e = WitnessEnumerator::new();
    let mut last = (0, vec![]);
    for _ in 0..=256 {
        last = e.next().unwrap();
    }
    assert_eq!(last.0, 256);
    assert_eq!(last.1, vec![0xFF]);
}

#[test]
fn rank_257_is_length_2() {
    let mut e = WitnessEnumerator::new();
    let mut last = (0, vec![]);
    for _ in 0..=257 {
        last = e.next().unwrap();
    }
    assert_eq!(last.0, 257);
    assert_eq!(last.1, vec![0x00, 0x00]);
}

#[test]
fn rank_258_is_0x0001() {
    let mut e = WitnessEnumerator::new();
    let mut last = (0, vec![]);
    for _ in 0..=258 {
        last = e.next().unwrap();
    }
    assert_eq!(last.0, 258);
    assert_eq!(last.1, vec![0x00, 0x01]);
}

#[test]
fn all_length_1_strings_appear() {
    let mut e = WitnessEnumerator::new();
    e.next(); // skip empty (rank 0)
    let length_1: Vec<Vec<u8>> = (0..256).map(|_| e.next().unwrap().1).collect();
    // Should be [0x00], [0x01], ..., [0xFF]
    for i in 0..256u16 {
        assert_eq!(length_1[i as usize], vec![i as u8]);
    }
}

#[test]
fn enumerator_is_infinite() {
    let mut e = WitnessEnumerator::new();
    // Take 100000 elements — should never return None
    for _ in 0..100_000 {
        assert!(e.next().is_some());
    }
}

#[test]
fn no_duplicates_in_first_1000() {
    let mut e = WitnessEnumerator::new();
    let witnesses: Vec<Vec<u8>> = (0..1000).map(|_| e.next().unwrap().1).collect();
    for i in 0..witnesses.len() {
        for j in (i + 1)..witnesses.len() {
            assert_ne!(witnesses[i], witnesses[j], "duplicate at ranks {} and {}", i, j);
        }
    }
}
