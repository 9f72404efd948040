use librespot::{IdError, SpotifyId};

const SAMPLES: [u128; 7] = [
    0,
    1,
    42,
    61,
    62,
    0x0123_4567_89ab_cdef_fedc_ba98_7654_3210,
    u128::MAX,
];

#[test]
fn base16_round_trip() {
    for v in SAMPLES {
        let id = SpotifyId(v);
        assert_eq!(SpotifyId::from_base16(&id.to_base16()), Ok(id));
    }
}

#[test]
fn base62_round_trip() {
    for v in SAMPLES {
        let id = SpotifyId(v);
        assert_eq!(SpotifyId::from_base62(&id.to_base62()), Ok(id));
    }
}

#[test]
fn raw_round_trip() {
    for v in SAMPLES {
        let id = SpotifyId(v);
        assert_eq!(SpotifyId::from_raw(&id.to_raw()), Ok(id));
    }
}

#[test]
fn fixed_widths() {
    for v in SAMPLES {
        let id = SpotifyId(v);
        assert_eq!(id.to_base16().len(), 32);
        assert_eq!(id.to_base62().len(), 22);
        assert_eq!(id.to_raw().len(), 16);
    }
}

#[test]
fn zero_is_padded() {
    assert_eq!(SpotifyId(0).to_base16(), "0".repeat(32));
    assert_eq!(SpotifyId(0).to_base62(), "0".repeat(22));
    assert_eq!(SpotifyId(0).to_raw(), [0u8; 16]);
}

#[test]
fn base62_alphabet_order() {
    assert_eq!(SpotifyId::from_base62("0000000000000000000001"), Ok(SpotifyId(1)));
    assert_eq!(SpotifyId::from_base62("000000000000000000000a"), Ok(SpotifyId(10)));
    assert_eq!(SpotifyId::from_base62("000000000000000000000A"), Ok(SpotifyId(36)));
    assert_eq!(SpotifyId::from_base62("000000000000000000000Z"), Ok(SpotifyId(61)));
    assert_eq!(SpotifyId::from_base62("0000000000000000000010"), Ok(SpotifyId(62)));
}

#[test]
fn base62_short_text_is_rejected() {
    assert_eq!(SpotifyId::from_base62("1"), Err(IdError::InvalidLength));
}

#[test]
fn base62_exact_values() {
    assert_eq!(SpotifyId(61).to_base62(), "000000000000000000000Z");
    assert_eq!(SpotifyId(62).to_base62(), "0000000000000000000010");
    assert_eq!(SpotifyId(36).to_base62(), "000000000000000000000A");
    assert_eq!(SpotifyId(62 * 62 + 10).to_base62(), "000000000000000000010a");
}

#[test]
fn hex_known_vector() {
    assert_eq!(
        SpotifyId::from_base16("0000000000000000000000000000002a"),
        Ok(SpotifyId(42))
    );
    assert_eq!(SpotifyId(42).to_base16(), "0000000000000000000000000000002a");
    assert_eq!(
        SpotifyId(0x0123_4567_89ab_cdef_fedc_ba98_7654_3210).to_base16(),
        "0123456789abcdeffedcba9876543210"
    );
    assert_eq!(SpotifyId(u128::MAX).to_base16(), "f".repeat(32));
}

#[test]
fn raw_known_vector() {
    let raw = SpotifyId(42).to_raw();
    let mut expected = [0u8; 16];
    expected[15] = 0x2a;
    assert_eq!(raw, expected);
    let mut bytes = [0u8; 16];
    bytes[0] = 0x01;
    bytes[14] = 0x01;
    assert_eq!(SpotifyId::from_raw(&bytes), Ok(SpotifyId((1u128 << 120) + 256)));
}

#[test]
fn hex_invalid_digit() {
    assert_eq!(
        SpotifyId::from_base16("000000000000000000000000000000g0"),
        Err(IdError::InvalidDigit)
    );
    assert_eq!(
        SpotifyId::from_base16("0000000000000000000000000000002A"),
        Err(IdError::InvalidDigit)
    );
}

#[test]
fn hex_invalid_encoding() {
    assert_eq!(
        SpotifyId::from_base16("00000000000000000000000000000\u{e9}0"),
        Err(IdError::InvalidEncoding)
    );
    assert_eq!(SpotifyId::from_base16("\u{e9}"), Err(IdError::InvalidEncoding));
}

#[test]
fn hex_invalid_length() {
    assert_eq!(SpotifyId::from_base16("2a"), Err(IdError::InvalidLength));
    assert_eq!(SpotifyId::from_base16(&"0".repeat(33)), Err(IdError::InvalidLength));
    assert_eq!(SpotifyId::from_base16(""), Err(IdError::InvalidLength));
}

#[test]
fn base62_errors() {
    assert_eq!(
        SpotifyId::from_base62("000000000000000000000-"),
        Err(IdError::InvalidDigit)
    );
    assert_eq!(SpotifyId::from_base62(&"Z".repeat(22)), Err(IdError::InvalidDigit));
    assert_eq!(
        SpotifyId::from_base62("00000000000000000000\u{e9}"),
        Err(IdError::InvalidEncoding)
    );
}

#[test]
fn base62_largest_value() {
    let text = SpotifyId(u128::MAX).to_base62();
    assert_eq!(SpotifyId::from_base62(&text), Ok(SpotifyId(u128::MAX)));
    let mut bumped = text.into_bytes();
    bumped[21] += 1;
    let bumped = String::from_utf8(bumped).unwrap();
    assert_eq!(SpotifyId::from_base62(&bumped), Err(IdError::InvalidDigit));
}

#[test]
fn raw_invalid_length() {
    assert_eq!(SpotifyId::from_raw(&[0u8; 15]), Err(IdError::InvalidLength));
    assert_eq!(SpotifyId::from_raw(&[0u8; 17]), Err(IdError::InvalidLength));
    assert_eq!(SpotifyId::from_raw(&[]), Err(IdError::InvalidLength));
}
