use sigscan::image::LogicalImage;
use sigscan::scan::{find_signature, sig_matches};
use sigscan::sigbyte::SigByte;

fn image(start: u64, bytes: Vec<u8>) -> LogicalImage {
    LogicalImage { bytes, start }
}

#[test]
fn matcher_literal_and_wildcard() {
    let buf = vec![0x48u8, 0x8B, 0x05, 0x00];
    let sig = vec![SigByte::Match(0x8B), SigByte::Wildcard];
    assert!(sig_matches(&sig, &buf, 1));
    assert!(!sig_matches(&sig, &buf, 0));
    assert!(!sig_matches(&sig, &buf, 2));
}

#[test]
fn matcher_all_wildcards_match_everywhere_valid() {
    let buf = vec![1u8, 2, 3, 4];
    let sig = vec![SigByte::Wildcard, SigByte::Wildcard];
    for off in 0..=2u64 {
        assert!(sig_matches(&sig, &buf, off));
    }
    // the signature no longer fits here
    assert!(!sig_matches(&sig, &buf, 3));
}

#[test]
fn matcher_rejects_out_of_range_offsets() {
    let buf = vec![0u8; 4];
    let sig = vec![SigByte::Wildcard];
    assert!(sig_matches(&sig, &buf, 3));
    assert!(!sig_matches(&sig, &buf, 4));
    assert!(!sig_matches(&sig, &buf, u64::MAX));
}

#[test]
fn matcher_empty_signature_matches_inside_buffer() {
    let buf = vec![7u8, 8];
    let sig: Vec<SigByte> = vec![];
    assert!(sig_matches(&sig, &buf, 0));
    assert!(sig_matches(&sig, &buf, 2));
    assert!(!sig_matches(&sig, &buf, 3));
}

#[test]
fn scan_two_matches_example() {
    let img = image(
        0x1000,
        vec![0x90, 0x90, 0x90, 0x01, 0x90, 0x90, 0x90, 0x01, 0x90, 0x90],
    );
    let sig = vec![SigByte::Match(0x01)];
    let found = find_signature(&sig, &img, 5);
    assert_eq!(found, vec![0x1003, 0x1007]);
}

#[test]
fn scan_honours_the_cap() {
    let img = image(
        0x1000,
        vec![0x90, 0x90, 0x90, 0x01, 0x90, 0x90, 0x90, 0x01, 0x90, 0x90],
    );
    let sig = vec![SigByte::Match(0x01)];
    let found = find_signature(&sig, &img, 1);
    assert_eq!(found, vec![0x1003]);
    let none = find_signature(&sig, &img, 0);
    assert!(none.is_empty());
}

#[test]
fn scan_skips_the_final_fitting_offset() {
    // candidate offsets stop one short of the last place the signature fits
    let img = image(0, vec![0x11, 0x22, 0x33, 0x44]);
    let sig = vec![SigByte::Match(0x44)];
    assert!(find_signature(&sig, &img, 10).is_empty());
    let sig2 = vec![SigByte::Match(0x33)];
    assert!(find_signature(&sig2, &img, 10).is_empty());
    let sig3 = vec![SigByte::Match(0x22)];
    assert_eq!(find_signature(&sig3, &img, 10), vec![1]);
}

#[test]
fn scan_signature_longer_than_image_finds_nothing() {
    let img = image(0, vec![0x11]);
    let sig = vec![SigByte::Wildcard, SigByte::Wildcard];
    assert!(find_signature(&sig, &img, 3).is_empty());
}
