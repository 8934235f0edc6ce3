use brightness_control::decode::decode;

#[test]
fn well_formed_bytes_give_their_text() {
    assert_eq!(decode(b""), Ok(""));
    assert_eq!(decode(b"eDP-1 connected\n"), Ok("eDP-1 connected\n"));
    assert_eq!(decode("Écran 😀 \u{3000}".as_bytes()), Ok("Écran 😀 \u{3000}"));
}

#[test]
fn other_bytes_give_the_length_of_their_longest_text_prefix() {
    assert_eq!(decode(b"\xff"), Err(0));
    assert_eq!(decode(b"abc\xff"), Err(3));
    assert_eq!(decode(b"abc\xffdef"), Err(3));
    assert_eq!(decode(b"\xc3"), Err(0));
    assert_eq!(decode(b"\xc3\xa9\xa9"), Err(2));
    assert_eq!(decode(b"ab\xed\xa0\x80cd"), Err(2));
    assert_eq!(decode(b"\xf0\x9f\x98"), Err(0));
    assert_eq!(decode(b"\xf0\x9f\x98\x80\x80"), Err(4));
    assert_eq!(decode(b"\xc0\x80"), Err(0));
    assert_eq!(decode(b"a\xf4\x90\x80\x80"), Err(1));
    assert_eq!(decode(&[0xff, 0xfe, 0x0a]), Err(0));
}

#[test]
fn position_is_the_one_that_the_decoder_names() {
    let samples: [&[u8]; 8] = [
        b"\xff",
        b"abc\xff",
        b"\xc3",
        b"\xc3\xa9\xa9",
        b"ab\xed\xa0\x80cd",
        b"\xf0\x9f\x98",
        b"\xe2\x82\xac\xe2\x82",
        b"plain text then \x80",
    ];
    for bytes in samples {
        let expected = std::str::from_utf8(bytes).unwrap_err().valid_up_to();
        assert_eq!(decode(bytes), Err(expected));
        for length in 0..=bytes.len() {
            let is_text = std::str::from_utf8(&bytes[..length]).is_ok();
            assert!(!is_text || length <= expected);
        }
        assert!(std::str::from_utf8(&bytes[..expected]).is_ok());
    }
}
