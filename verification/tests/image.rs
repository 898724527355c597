use sigscan::image::{build_logical_image, LogicalImage, Segment};

#[test]
fn build_fills_gaps_with_zeros() {
    let segments = vec![
        Segment { start: 0x100, bytes: vec![1, 2] },
        Segment { start: 0x105, bytes: vec![9] },
    ];
    let img = build_logical_image(&segments, 0x100);
    assert_eq!(img.start, 0x100);
    assert_eq!(img.bytes, vec![1, 2, 0, 0, 0, 9]);
}

#[test]
fn build_pads_before_the_first_segment() {
    let segments = vec![Segment { start: 0x102, bytes: vec![7, 8] }];
    let img = build_logical_image(&segments, 0x100);
    assert_eq!(img.bytes, vec![0, 0, 7, 8]);
}

#[test]
fn build_of_no_segments_is_empty() {
    let img = build_logical_image(&vec![], 0x400);
    assert_eq!(img.start, 0x400);
    assert!(img.bytes.is_empty());
}

#[test]
fn build_keeps_adjacent_segments_contiguous() {
    let segments = vec![
        Segment { start: 0x10, bytes: vec![0xAA] },
        Segment { start: 0x11, bytes: vec![0xBB, 0xCC] },
    ];
    let img = build_logical_image(&segments, 0x10);
    assert_eq!(img.bytes, vec![0xAA, 0xBB, 0xCC]);
}

#[test]
fn image_offsets_track_addresses() {
    let img = LogicalImage { bytes: vec![5, 6, 7], start: 0x1000 };
    // offset i stands for address start + i
    assert_eq!(img.bytes[(0x1002u64 - img.start) as usize], 7);
}
