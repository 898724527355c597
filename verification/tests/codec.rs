use sigscan::sigbyte::{parse_signature, ParseCause, SigByte, SigError};
use sigscan::sigbyte::{render_signature_generic, render_signature_sm};

#[test]
fn parse_generic_example() {
    let r = parse_signature("48 8B ?? 00".to_string()).unwrap();
    assert_eq!(
        r,
        vec![
            SigByte::Match(0x48),
            SigByte::Match(0x8B),
            SigByte::Wildcard,
            SigByte::Match(0x00),
        ]
    );
}

#[test]
fn render_generic_example() {
    let sig = vec![
        SigByte::Match(0x48),
        SigByte::Match(0x8B),
        SigByte::Wildcard,
        SigByte::Match(0x00),
    ];
    assert_eq!(render_signature_generic(&sig), "48 8B ?? 00 ");
}

#[test]
fn parse_escaped_example() {
    let r = parse_signature("\\x48\\x2A\\x00".to_string()).unwrap();
    assert_eq!(
        r,
        vec![SigByte::Match(0x48), SigByte::Wildcard, SigByte::Match(0x00)]
    );
}

#[test]
fn render_escaped_example() {
    let sig = vec![SigByte::Match(0x48), SigByte::Wildcard, SigByte::Match(0x00)];
    assert_eq!(render_signature_sm(&sig), "\\x48\\x2A\\x00");
}

#[test]
fn per_byte_renderings() {
    assert_eq!(SigByte::Wildcard.to_str_generic(), "?? ");
    assert_eq!(SigByte::Match(0x0F).to_str_generic(), "0F ");
    assert_eq!(SigByte::Wildcard.to_str_sm(), "\\x2A");
    assert_eq!(SigByte::Match(0xB7).to_str_sm(), "\\xB7");
}

#[test]
fn round_trip_generic() {
    let sig = vec![
        SigByte::Match(0x00),
        SigByte::Wildcard,
        SigByte::Match(0xFF),
        SigByte::Match(0x2A),
        SigByte::Match(0x3F),
    ];
    let text = render_signature_generic(&sig);
    assert_eq!(parse_signature(text).unwrap(), sig);
}

#[test]
fn round_trip_escaped() {
    let sig = vec![SigByte::Match(0x90), SigByte::Wildcard, SigByte::Match(0x01)];
    let text = render_signature_sm(&sig);
    assert_eq!(parse_signature(text).unwrap(), sig);
}

#[test]
fn escaped_wildcard_byte_reads_back_as_wildcard() {
    // the escaped notation reserves \x2A, so a literal 0x2A byte cannot
    // survive the escaped round trip: it comes back as the wildcard
    let sig = vec![SigByte::Match(0x2A)];
    let text = render_signature_sm(&sig);
    assert_eq!(text, "\\x2A");
    assert_eq!(parse_signature(text).unwrap(), vec![SigByte::Wildcard]);
}

#[test]
fn parse_accepts_single_question_mark_and_lower_case() {
    let r = parse_signature(" ? ab ".to_string()).unwrap();
    assert_eq!(r, vec![SigByte::Wildcard, SigByte::Match(0xAB)]);
}

#[test]
fn parse_empty_is_empty() {
    assert_eq!(parse_signature("   ".to_string()).unwrap(), vec![]);
    assert_eq!(parse_signature(String::new()).unwrap(), vec![]);
}

#[test]
fn parse_rejects_non_hex_token() {
    let r = parse_signature("48 GG".to_string());
    match r {
        Err(SigError::ParseError { token, cause }) => {
            assert_eq!(token, "GG");
            assert_eq!(cause, ParseCause::InvalidDigit);
        }
        other => panic!("expected a parse error, got {:?}", other),
    }
}

#[test]
fn parse_rejects_oversized_token() {
    let r = parse_signature("123".to_string());
    match r {
        Err(SigError::ParseError { token, cause }) => {
            assert_eq!(token, "123");
            assert_eq!(cause, ParseCause::Overflow);
        }
        other => panic!("expected a parse error, got {:?}", other),
    }
}

#[test]
fn parse_error_message_names_token_and_cause() {
    let r = parse_signature("zz".to_string());
    match r {
        Err(e) => {
            let msg = e.message();
            assert_eq!(msg, "Failed to parse zz: invalid digit found in string");
        }
        other => panic!("expected a parse error, got {:?}", other),
    }
}

#[test]
fn error_messages_exist_for_each_kind() {
    assert_eq!(SigError::InvalidInstruction.message(), "Invalid instruction size");
    assert!(SigError::OversizedWildcard.message().contains("wildcard"));
    assert!(SigError::AddressNotInFunction.message().contains("function"));
    assert_eq!(
        SigError::FuncLimitExceeded.message(),
        "Not enough unique bytes in the remainder of the subroutine"
    );
    assert_eq!(SigError::IterLimitExceeded.message(), "Hit iteration limit");
}
