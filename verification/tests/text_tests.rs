use just_voip::text::chars_of;
use just_voip::text::char_is_white_space;
use just_voip::text::decimal_string;
use just_voip::text::parse_u16;
use just_voip::text::split_words;
use just_voip::text::string_of;

#[test]
fn parse_u16_accepts_plain_and_plus_signed_digits() {
    assert_eq!(parse_u16("5000"), Some(5000));
    assert_eq!(parse_u16("+7"), Some(7));
    assert_eq!(parse_u16("0"), Some(0));
    assert_eq!(parse_u16("00042"), Some(42));
    assert_eq!(parse_u16("65535"), Some(65535));
}

#[test]
fn parse_u16_rejects_what_str_parse_rejects() {
    for bad in ["", "+", "-1", "-0", "65536", "99999999", "12a", " 5", "5 ", "++5", "1_000"] {
        assert_eq!(parse_u16(bad), None, "{:?}", bad);
        assert_eq!(parse_u16(bad), bad.parse::<u16>().ok(), "{:?}", bad);
    }
}

#[test]
fn parse_u16_agrees_with_std_on_many_inputs() {
    for n in (0u32..70000).step_by(7) {
        let s = n.to_string();
        assert_eq!(parse_u16(&s), s.parse::<u16>().ok());
    }
}

#[test]
fn decimal_string_matches_to_string() {
    for n in [0u16, 7, 10, 99, 100, 5000, 49999, 65535] {
        assert_eq!(decimal_string(n), n.to_string());
        assert_eq!(parse_u16(&decimal_string(n)), Some(n));
    }
}

#[test]
fn chars_round_trip_through_string_of() {
    let s = "héllo\u{3000}wörld";
    let cs = chars_of(s);
    assert_eq!(cs, s.chars().collect::<Vec<char>>());
    assert_eq!(string_of(&cs), s);
}

#[test]
fn white_space_matches_char_is_whitespace() {
    for v in 0u32..0x3100 {
        if let Some(c) = char::from_u32(v) {
            assert_eq!(char_is_white_space(c), c.is_whitespace(), "{:#x}", v);
        }
    }
}

#[test]
fn split_words_matches_split_whitespace() {
    for s in ["", "   ", "a", " a  b\tc\n", "x\u{a0}y\u{3000}z ", "HELLO ab12 5000"] {
        let cs = chars_of(s);
        let got: Vec<String> = split_words(&cs, 0).iter().map(|w| string_of(w)).collect();
        let want: Vec<String> = s.split_whitespace().map(|w| w.to_string()).collect();
        assert_eq!(got, want, "{:?}", s);
    }
}
