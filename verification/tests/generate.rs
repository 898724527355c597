use sigscan::generate::{generate_signature, ConstantRef, InstructionInfo};
use sigscan::image::LogicalImage;
use sigscan::linear_generate::linear_generate_signature;
use sigscan::sigbyte::{SigByte, SigError};

fn byte_instr(b: u8) -> InstructionInfo {
    InstructionInfo { length: Some(1), bytes: vec![b], constants: None }
}

fn image(start: u64, bytes: Vec<u8>) -> LogicalImage {
    LogicalImage { bytes, start }
}

#[test]
fn incremental_unique_after_first_instruction() {
    let img = image(0x100, vec![0xAA, 0xBB, 0xCC, 0xAA, 0xBB, 0x11, 0x22, 0x33]);
    let chain = vec![byte_instr(0x11), byte_instr(0x22), byte_instr(0x33)];
    let r = generate_signature(&img, 0x105, 0x108, &chain).unwrap();
    assert_eq!(r, vec![SigByte::Match(0x11)]);
}

#[test]
fn incremental_grows_until_unique() {
    let img = image(0x200, vec![0xAA, 0xBB, 0xAA, 0xBB, 0xCC, 0xDD]);
    let chain = vec![
        byte_instr(0xAA),
        byte_instr(0xBB),
        byte_instr(0xCC),
        byte_instr(0xDD),
    ];
    let r = generate_signature(&img, 0x202, 0x206, &chain).unwrap();
    assert_eq!(
        r,
        vec![SigByte::Match(0xAA), SigByte::Match(0xBB), SigByte::Match(0xCC)]
    );
}

#[test]
fn incremental_fails_at_the_function_end() {
    let img = image(0, vec![0x90; 8]);
    let chain = vec![byte_instr(0x90), byte_instr(0x90)];
    let r = generate_signature(&img, 0, 2, &chain);
    assert!(matches!(r, Err(SigError::FuncLimitExceeded)));
}

#[test]
fn incremental_fails_at_the_iteration_cap() {
    let img = image(0, vec![0x90; 64]);
    let chain: Vec<InstructionInfo> = (0..64).map(|_| byte_instr(0x90)).collect();
    let r = generate_signature(&img, 0, 64, &chain);
    assert!(matches!(r, Err(SigError::IterLimitExceeded)));
}

#[test]
fn incremental_propagates_a_consume_failure() {
    let img = image(0, vec![0x01, 0x02, 0x03]);
    let chain = vec![InstructionInfo { length: None, bytes: vec![], constants: None }];
    let r = generate_signature(&img, 0, 3, &chain);
    assert!(matches!(r, Err(SigError::InvalidInstruction)));
}

#[test]
fn incremental_wildcards_pointer_constants() {
    // one three-byte instruction whose last two bytes are a pointer constant
    let img = image(0x40, vec![0x01, 0x02, 0xE8, 0x10, 0x20]);
    let chain = vec![InstructionInfo {
        length: Some(3),
        bytes: vec![0xE8, 0x10, 0x20],
        constants: Some(vec![ConstantRef { size: 2, is_pointer: true, value: 0x99 }]),
    }];
    let r = generate_signature(&img, 0x42, 0x45, &chain).unwrap();
    assert_eq!(
        r,
        vec![SigByte::Match(0xE8), SigByte::Wildcard, SigByte::Wildcard]
    );
}

#[test]
fn linear_resolves_collisions_and_hardens() {
    let img = image(0x100, vec![0xAA, 0xBB, 0xCC, 0xDD, 0xEE]);
    let chain = vec![byte_instr(0xCC), byte_instr(0xDD), byte_instr(0xEE)];
    let r = linear_generate_signature(&img, 0x102, 0x105, &chain).unwrap();
    // the empty signature collides at the first candidate; one instruction
    // resolves it, and hardening appends the rest of the function
    assert_eq!(
        r,
        vec![SigByte::Match(0xCC), SigByte::Match(0xDD), SigByte::Match(0xEE)]
    );
}

#[test]
fn linear_fails_when_a_collision_cannot_be_resolved() {
    let img = image(0x300, vec![0x90, 0x90, 0x90]);
    let chain = vec![byte_instr(0x90)];
    let r = linear_generate_signature(&img, 0x300, 0x301, &chain);
    assert!(matches!(r, Err(SigError::FuncLimitExceeded)));
}

#[test]
fn linear_on_an_empty_image_returns_an_empty_signature() {
    let img = image(0x10, vec![]);
    let chain: Vec<InstructionInfo> = vec![];
    let r = linear_generate_signature(&img, 0x10, 0x10, &chain).unwrap();
    assert!(r.is_empty());
}
