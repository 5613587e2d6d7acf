use bms_keysounds::bms::{as_id, as_str, DecodeError};

#[test]
fn every_id_round_trips_through_two_characters() {
    for id in 0..1296u64 {
        let token = as_str(id);
        assert_eq!(token.len(), 2);
        assert_eq!(as_id(&token), Ok(id));
    }
}

#[test]
fn decoding_ignores_case() {
    assert_eq!(as_id("s2"), as_id("S2"));
    assert_eq!(as_id("S2"), Ok(1010));
    assert_eq!(as_id("zz"), Ok(1295));
}

#[test]
fn encoding_pads_and_uses_upper_case() {
    assert_eq!(as_str(0), "00");
    assert_eq!(as_str(5), "05");
    assert_eq!(as_str(35), "0Z");
    assert_eq!(as_str(36), "10");
    assert_eq!(as_str(1010), "S2");
    assert_eq!(as_str(1295), "ZZ");
}

#[test]
fn decoding_reads_numerals_of_any_length() {
    assert_eq!(as_id("7"), Ok(7));
    assert_eq!(as_id("100"), Ok(1296));
    assert_eq!(as_id("ZZZZZZZZZZZZ"), Ok(4738381338321616895));
}

#[test]
fn decoding_errors() {
    assert_eq!(as_id(""), Err(DecodeError::Empty));
    assert_eq!(as_id("+5"), Err(DecodeError::InvalidDigit));
    assert_eq!(as_id("0 "), Err(DecodeError::InvalidDigit));
    assert_eq!(as_id("ß"), Err(DecodeError::InvalidDigit));
    assert_eq!(as_id("ZZZZZZZZZZZZZ"), Err(DecodeError::PosOverflow));
    assert_eq!(as_id("3W5E11264SGSG"), Err(DecodeError::PosOverflow));
    assert_eq!(as_id("3W5E11264SGSF"), Ok(u64::MAX));
}
