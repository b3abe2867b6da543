use durapack::fuzz::{fuzz_decode, fuzz_scan};

#[test]
fn test_fuzz_decode_empty() {
    fuzz_decode(&[]);
}

#[test]
fn test_fuzz_decode_random() {
    fuzz_decode(&[0x12, 0x34, 0x56, 0x78]);
}

#[test]
fn test_fuzz_scan_empty() {
    fuzz_scan(&[]);
}

#[test]
fn test_fuzz_scan_random() {
    fuzz_scan(&[0xFF; 1024]);
}
