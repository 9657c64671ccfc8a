use pixel_canvas::rgba::{CharsToRgbaError, Color, Rgba, TomlToRgbaError};

fn parse(s: &str) -> Result<Rgba, CharsToRgbaError> {
    let chars: Vec<char> = s.chars().collect();
    Rgba::try_from_chars(&chars)
}

#[test]
fn packed_layout() {
    let c = Rgba::new(0x11, 0x22, 0x33, 0x44);
    assert_eq!(c.to_u32(), 0x4411_2233);
    let o = Rgba::new_opaque(1, 2, 3);
    assert_eq!(o.to_u32(), 0xFF01_0203);
}

#[test]
fn packed_round_trip() {
    let cases = [
        (0u8, 0u8, 0u8, 0u8),
        (255, 255, 255, 255),
        (1, 2, 3, 4),
        (0xAB, 0xCD, 0xEF, 0x12),
    ];
    for (r, g, b, a) in cases {
        let c = Rgba::new(r, g, b, a);
        let back = Rgba::from_u32(c.to_u32());
        assert_eq!(back, c);
        assert_eq!(back.channel(Color::Red), r);
        assert_eq!(back.channel(Color::Green), g);
        assert_eq!(back.channel(Color::Blue), b);
        assert_eq!(back.channel(Color::Alpha), a);
    }
}

#[test]
fn channel_and_byte_access() {
    let mut c = Rgba::new(10, 20, 30, 40);
    // packed layout is [blue, green, red, alpha]
    assert_eq!(c.byte(0), 30);
    assert_eq!(c.byte(1), 20);
    assert_eq!(c.byte(2), 10);
    assert_eq!(c.byte(3), 40);
    assert_eq!(Color::Red.byte_index(), 2);
    assert_eq!(Color::Green.byte_index(), 1);
    assert_eq!(Color::Blue.byte_index(), 0);
    assert_eq!(Color::Alpha.byte_index(), 3);
    c.set_byte(0, 99);
    assert_eq!(c.channel(Color::Blue), 99);
    c.set_channel(Color::Red, 77);
    assert_eq!(c.byte(2), 77);
}

#[test]
fn blend_boundary() {
    let black = Rgba::black();
    let white = Rgba::white();
    assert_eq!(black.blend(white, 0), black);
    // the +1 fixed-point rounding keeps full proportion one step short of
    // the right endpoint on saturated channels
    assert_eq!(black.blend(white, 255), Rgba::new(254, 254, 254, 255));
    // alpha is never blended
    let a = Rgba::new(10, 20, 30, 77);
    for t in [0u8, 1, 128, 200, 255] {
        assert_eq!(a.blend(white, t).channel(Color::Alpha), 77);
    }
}

#[test]
fn blend_exact_values() {
    let black = Rgba::new(0, 0, 0, 255);
    let white = Rgba::new(255, 255, 255, 255);
    let mid = black.blend(white, 128);
    // (255*128 + 0*127 + 1) / 256 == 127
    assert_eq!(mid.channel(Color::Red), 127);
    assert_eq!(mid.channel(Color::Green), 127);
    assert_eq!(mid.channel(Color::Blue), 127);
    assert_eq!(mid.channel(Color::Alpha), 255);
}

#[test]
fn blend_monotonic() {
    let a = Rgba::new(10, 240, 128, 200);
    let b = Rgba::new(250, 5, 128, 9);
    let mut prev = a.blend(b, 0);
    let mut t: u16 = 1;
    while t <= 255 {
        let cur = a.blend(b, t as u8);
        // red increases from a to b, green decreases, blue is constant
        assert!(cur.channel(Color::Red) >= prev.channel(Color::Red));
        assert!(cur.channel(Color::Green) <= prev.channel(Color::Green));
        assert_eq!(cur.channel(Color::Alpha), 200);
        prev = cur;
        t += 1;
    }
}

#[test]
fn hex_round_trip_six() {
    let c = parse("40E0D0").unwrap();
    assert_eq!(c, Rgba::new_opaque(0x40, 0xE0, 0xD0));
    let lower = parse("40e0d0").unwrap();
    assert_eq!(lower, c);
}

#[test]
fn hex_round_trip_eight() {
    let c = parse("11223344").unwrap();
    assert_eq!(c, Rgba::new(0x11, 0x22, 0x33, 0x44));
    assert_eq!(c.to_u32(), Rgba::new(0x11, 0x22, 0x33, 0x44).to_u32());
}

#[test]
fn hex_insufficient_length() {
    assert_eq!(
        parse("12345"),
        Err(CharsToRgbaError::InsufficientLength(5))
    );
    assert_eq!(parse(""), Err(CharsToRgbaError::InsufficientLength(0)));
    assert_eq!(parse("1"), Err(CharsToRgbaError::InsufficientLength(1)));
    assert_eq!(parse("1234"), Err(CharsToRgbaError::InsufficientLength(4)));
}

#[test]
fn hex_invalid_digit() {
    assert_eq!(
        parse("GGRRBB"),
        Err(CharsToRgbaError::InvalidStr(String::from("GG")))
    );
    // an invalid pair is reported even when the input is also short
    assert_eq!(
        parse("GG123"),
        Err(CharsToRgbaError::InvalidStr(String::from("GG")))
    );
    assert_eq!(
        parse("11XY33"),
        Err(CharsToRgbaError::InvalidStr(String::from("XY")))
    );
}

#[test]
fn hex_optional_alpha() {
    // seven characters: the dangling one is ignored, alpha defaults opaque
    assert_eq!(parse("1122334").unwrap(), Rgba::new(0x11, 0x22, 0x33, 0xFF));
    // a non-hex alpha pair also defaults to opaque rather than failing
    assert_eq!(parse("112233ZZ").unwrap(), Rgba::new(0x11, 0x22, 0x33, 0xFF));
    // characters beyond the eighth are ignored
    assert_eq!(
        parse("11223344ABCDEF").unwrap(),
        Rgba::new(0x11, 0x22, 0x33, 0x44)
    );
}

#[test]
fn hex_code_helpers() {
    assert_eq!(pixel_canvas::rgba::hex_code_to_u4('0'), Some(0));
    assert_eq!(pixel_canvas::rgba::hex_code_to_u4('f'), Some(15));
    assert_eq!(pixel_canvas::rgba::hex_code_to_u4('F'), Some(15));
    assert_eq!(pixel_canvas::rgba::hex_code_to_u4('g'), None);
    assert_eq!(pixel_canvas::rgba::hex_code_to_u8(['a', '0']), Some(0xA0));
    assert_eq!(pixel_canvas::rgba::hex_code_to_u8(['a', 'z']), None);
}

#[test]
fn named_colors() {
    assert_eq!(Rgba::black(), Rgba::new(0, 0, 0, 255));
    assert_eq!(Rgba::white(), Rgba::new(255, 255, 255, 255));
    assert_eq!(Rgba::gray(), Rgba::new(0xAA, 0xAA, 0xAA, 255));
    assert_eq!(Rgba::dark_gray(), Rgba::new(55, 55, 55, 255));
    assert_eq!(Rgba::pure_red(), Rgba::new(255, 0, 0, 255));
    assert_eq!(Rgba::pure_green(), Rgba::new(0, 255, 0, 255));
    assert_eq!(Rgba::pure_blue(), Rgba::new(0, 0, 255, 255));
    assert_eq!(Rgba::magenta(), Rgba::new(255, 0, 255, 255));
    assert_eq!(Rgba::cyan(), Rgba::new(0, 255, 255, 255));
    assert_eq!(Rgba::yellow(), Rgba::new(255, 255, 0, 255));
    assert_eq!(Rgba::default(), Rgba::new(0, 0, 0, 255));
}

#[test]
fn blend_color_function() {
    assert_eq!(pixel_canvas::rgba::blend_color(0, 255, 128), 127);
    assert_eq!(pixel_canvas::rgba::blend_color(0, 0, 77), 0);
    assert_eq!(pixel_canvas::rgba::blend_color(255, 255, 1), 254);
}

#[test]
fn toml_error_conversions() {
    let e = TomlToRgbaError::from(CharsToRgbaError::InsufficientLength(4));
    assert_eq!(e, TomlToRgbaError::InsufficientStrLen(4));
    let e = TomlToRgbaError::from(CharsToRgbaError::InvalidStr(String::from("ZZ")));
    assert_eq!(e, TomlToRgbaError::InvalidStr(String::from("ZZ")));
    let bad: Result<u8, _> = u8::try_from(300i32);
    let e = TomlToRgbaError::from(bad.unwrap_err());
    assert_eq!(e, TomlToRgbaError::IntConversionFail);
}

#[test]
fn error_descriptions() {
    let e = CharsToRgbaError::InsufficientLength(4);
    assert!(e.describe().contains("insufficient"));
    let e = CharsToRgbaError::InvalidStr(String::from("ZZ"));
    assert!(e.describe().contains("hex"));
}
