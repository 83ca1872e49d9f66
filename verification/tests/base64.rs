use cipher_modes::base64::{base64_decode, base64_encode, Error, Kind};

// Encode some data that results in a Base64 String with 0 padding characters
#[test]
fn encode_basic_zero_pad() {
    let data = "aaa";
    let r = base64_encode(Kind::Basic, data.as_bytes());
    assert_eq!("YWFh", r);
}

// Encode some data that results in a Base64 String with 1 padding character
#[test]
fn encode_basic_one_pad() {
    let data = "aa";
    let r = base64_encode(Kind::Basic, data.as_bytes());
    assert_eq!("YWE=", r);
}

// Encode some data that results in a Base64 String with 2 padding characters
#[test]
fn encode_two_pad() {
    let data = "a";
    let r = base64_encode(Kind::Basic, data.as_bytes());
    assert_eq!("YQ==", r);
}

// Decode a Base64 String with 0 padding characters
#[test]
fn decode_basic_zero_pad() {
    let data = "aaa";
    let encoded = base64_encode(Kind::Basic, data.as_bytes());

    match base64_decode(Kind::Basic, &encoded) {
        Ok(v) => assert_eq!(data.as_bytes(), v),
        Err(_) => assert!(false),
    };
}

// Decode a Base64 String with 1 padding character
#[test]
fn decode_basic_one_pad() {
    let data = "aa";
    let encoded = base64_encode(Kind::Basic, data.as_bytes());

    match base64_decode(Kind::Basic, &encoded) {
        Ok(v) => assert_eq!(data.as_bytes(), v),
        Err(_) => assert!(false),
    };
}

// Decode a Base64 String with 2 padding characters
#[test]
fn decode_basic_two_pad() {
    let data = "a";
    let encoded = base64_encode(Kind::Basic, data.as_bytes());

    match base64_decode(Kind::Basic, &encoded) {
        Ok(v) => assert_eq!(data.as_bytes(), v),
        Err(_) => assert!(false),
    };
}

// Attempt to decode a string with invalid input length
#[test]
fn decode_basic_invalid_length() {
    let data = "a";

    match base64_decode(Kind::Basic, &data) {
        Ok(_) => assert!(false),
        Err(e) => match e {
            Error::InvalidFormat(_) => assert!(false),
            Error::InvalidInputLength(s) => assert_eq!(s, 1),
        },
    }
}

// Attempt to decode a string with invalid formatting, but valid length
#[test]
fn decode_basic_invalid_fmt() {
    let data = "A=AA==AA";

    match base64_decode(Kind::Basic, &data) {
        Ok(_) => assert!(false),
        Err(e) => match e {
            Error::InvalidInputLength(_) => assert!(false),
            Error::InvalidFormat(_) => assert!(true),
        },
    }
}

// The URL-safe alphabet replaces '+' and '/' with '-' and '_'.
#[test]
fn encode_url_safe_alphabet() {
    let data: Vec<u8> = vec![0xFB, 0xEF, 0xFF];
    assert_eq!("--__", base64_encode(Kind::UrlSafe, &data));
    assert_eq!("++//", base64_encode(Kind::Basic, &data));
    assert_eq!(
        data,
        base64_decode(Kind::UrlSafe, "--__").unwrap()
    );
}

// Characters outside the alphabet are discarded before decoding: text with
// foreign characters interleaved decodes as the stripped text does.
#[test]
fn decode_skips_foreign_characters() {
    let with_junk = base64_decode(Kind::Basic, "YW.,Fh......").unwrap();
    let stripped = base64_decode(Kind::Basic, "YWFh").unwrap();
    assert_eq!(with_junk, stripped);
    assert_eq!(with_junk, "aaa".as_bytes());
}

// The alphabet tables and their inverse agree, across both alphabets.
#[test]
fn alphabet_round_trip() {
    for ix in 0..64usize {
        let basic = Kind::Basic.value_at(ix);
        assert_eq!(Kind::Basic.is_b64(basic), Some(ix as u8));
        let url = Kind::UrlSafe.value_at(ix);
        assert_eq!(Kind::UrlSafe.is_b64(url), Some(ix as u8));
    }
    assert_eq!(Kind::Basic.is_b64('='), None);
    assert_eq!(Kind::Basic.is_b64('-'), None);
    assert_eq!(Kind::UrlSafe.is_b64('+'), None);
}
