use sigscan::generate::{consume_instruction, find_func_end, ConstantRef, InstructionInfo};
use sigscan::sigbyte::{SigByte, SigError};

fn info(
    length: Option<usize>,
    bytes: Vec<u8>,
    constants: Option<Vec<ConstantRef>>,
) -> InstructionInfo {
    InstructionInfo { length, bytes, constants }
}

#[test]
fn consume_without_constants_is_all_literal() {
    let r = consume_instruction(&info(Some(3), vec![0x48, 0x8B, 0x05], None)).unwrap();
    assert_eq!(
        r,
        vec![SigByte::Match(0x48), SigByte::Match(0x8B), SigByte::Match(0x05)]
    );
}

#[test]
fn consume_wildcards_the_tail() {
    let constants = vec![ConstantRef { size: 2, is_pointer: true, value: 0x1234 }];
    let r = consume_instruction(&info(Some(4), vec![0xE8, 0x10, 0x20, 0x30], Some(constants)))
        .unwrap();
    assert_eq!(
        r,
        vec![
            SigByte::Match(0xE8),
            SigByte::Match(0x10),
            SigByte::Wildcard,
            SigByte::Wildcard,
        ]
    );
}

#[test]
fn consume_ignores_non_pointer_and_zero_constants() {
    let constants = vec![
        ConstantRef { size: 2, is_pointer: false, value: 0x1234 },
        ConstantRef { size: 1, is_pointer: true, value: 0 },
    ];
    let r = consume_instruction(&info(Some(2), vec![0xAA, 0xBB], Some(constants))).unwrap();
    assert_eq!(r, vec![SigByte::Match(0xAA), SigByte::Match(0xBB)]);
}

#[test]
fn consume_sums_qualifying_constants() {
    let constants = vec![
        ConstantRef { size: 1, is_pointer: true, value: 5 },
        ConstantRef { size: 2, is_pointer: true, value: -1 },
    ];
    let r = consume_instruction(&info(Some(5), vec![1, 2, 3, 4, 5], Some(constants))).unwrap();
    assert_eq!(
        r,
        vec![
            SigByte::Match(1),
            SigByte::Match(2),
            SigByte::Wildcard,
            SigByte::Wildcard,
            SigByte::Wildcard,
        ]
    );
}

#[test]
fn consume_fails_when_wildcards_cover_the_instruction() {
    // an instruction of length 4 with one pointer constant of size 4 and
    // nonzero value cannot be represented
    let constants = vec![ConstantRef { size: 4, is_pointer: true, value: 0xDEAD }];
    let r = consume_instruction(&info(Some(4), vec![0, 1, 2, 3], Some(constants)));
    assert!(matches!(r, Err(SigError::OversizedWildcard)));
}

#[test]
fn consume_fails_without_a_length() {
    let r = consume_instruction(&info(None, vec![], None));
    assert!(matches!(r, Err(SigError::InvalidInstruction)));
}

#[test]
fn consume_fails_on_zero_length() {
    let r = consume_instruction(&info(Some(0), vec![], None));
    assert!(matches!(r, Err(SigError::InvalidInstruction)));
}

#[test]
fn func_end_is_the_highest_block_end() {
    assert_eq!(find_func_end(&vec![0x1005, 0x1020, 0x1010]), 0x1020);
    assert_eq!(find_func_end(&vec![]), 0);
}
