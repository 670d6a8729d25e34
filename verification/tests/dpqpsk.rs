use r4w_core::dpqpsk::QpskDetector;

#[test]
fn test_qpsk_symbols_to_bits() {
    let bits = QpskDetector::symbols_to_bits(&[0, 1, 2, 3]);
    assert_eq!(bits, vec![false, false, false, true, true, false, true, true]);
}

#[test]
fn test_differential_decode_identity() {
    let mut det = QpskDetector::new();
    let symbols = vec![0u8, 1, 2, 3];
    let decoded = det.differential_decode(&symbols);
    assert_eq!(decoded[0], 0);
    assert_eq!(decoded[1], 1);
    assert_eq!(decoded[2], 1);
}

#[test]
fn test_differential_decode_constant_symbol() {
    let mut det = QpskDetector::new();
    let symbols = vec![2u8; 10];
    let decoded = det.differential_decode(&symbols);
    assert_eq!(decoded[0], 2);
    for &d in &decoded[1..] {
        assert_eq!(d, 0, "Constant symbol should decode to 0 after first");
    }
}

#[test]
fn test_differential_decode_phase_ambiguity() {
    let data = vec![0u8, 1, 2, 3, 0, 1];
    let mut det1 = QpskDetector::new();
    let mut det2 = QpskDetector::new();
    let rotated: Vec<u8> = data.iter().map(|&s| (s + 1) & 3).collect();
    let decoded_orig = det1.differential_decode(&data);
    let decoded_rot = det2.differential_decode(&rotated);
    assert_eq!(&decoded_orig[1..], &decoded_rot[1..]);
}

#[test]
fn differential_decode_wraps_and_remembers() {
    let mut det = QpskDetector::default();
    assert_eq!(det.differential_decode(&[3, 0, 1]), vec![3, 1, 1]);
    // The last symbol carries over to the next call.
    assert_eq!(det.differential_decode(&[0]), vec![3]);
    assert_eq!(det.differential_decode(&[]), Vec::<u8>::new());
    assert_eq!(det.differential_decode(&[2]), vec![2]);
}
