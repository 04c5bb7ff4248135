use rc4_cipher::hex::{as_char, as_hex, as_num, char_is_white_space, parse_hex_token};

#[test]
fn as_hex_writes_upper_case_cells() {
    assert_eq!(as_hex("AB\n"), "41 42 0A ");
    assert_eq!(as_hex(""), "");
    assert_eq!(as_hex("\u{ff}\u{100}"), "FF 00 ");
    assert_eq!(as_hex("ł"), "42 ");
}

#[test]
fn as_num_reads_tokens() {
    assert_eq!(as_num("41 zz 0a +7f 100"), vec![0x41, 0, 0x0a, 0x7f, 0]);
    assert_eq!(as_num("  \t\n "), Vec::<u8>::new());
    assert_eq!(as_num("0001\u{3000}ff"), vec![1, 0xff]);
    assert_eq!(as_num("+ - -1 ++1"), vec![0, 0, 0, 0]);
}

#[test]
fn as_char_reads_tokens() {
    assert_eq!(as_char("48 69"), "Hi");
    assert_eq!(as_char("  c5\n"), "\u{c5}");
}

#[test]
fn hex_round_trip() {
    let text = "Litwo, ojczyzno moja \u{e9}\u{0}";
    assert_eq!(as_char(&as_hex(text)), text);
    let bytes: Vec<u8> = text.chars().map(|c| c as u8).collect();
    assert_eq!(as_num(&as_hex(text)), bytes);
    // Above 255 only the low byte survives.
    assert_eq!(as_num(&as_hex("ę")), vec![0x19]);
}

#[test]
fn white_space_matches_std() {
    for x in 0u32..0x110000 {
        if let Some(c) = char::from_u32(x) {
            assert_eq!(char_is_white_space(c), c.is_whitespace(), "{:x}", x);
        }
    }
}

#[test]
fn parse_hex_token_matches_from_str_radix() {
    let samples = [
        "", "+", "-", "0", "00", "ff", "FF", "fF", "100", "+ff", "++1", "-1", "-0", "g", "0x1", "000000ff",
        "0000100", "1g", "+0", "ł", "9", "a", "AbC",
    ];
    for s in samples.iter() {
        let v: Vec<char> = s.chars().collect();
        assert_eq!(parse_hex_token(&v), u8::from_str_radix(s, 16).ok(), "{:?}", s);
    }
}
