use teems::{AppError, Alpha, ColorEntry, Theme, RGBA};

fn alpha(a: f32) -> Alpha {
    Alpha::parse(&format!("{}", a)).unwrap()
}

/// Reads a theme document the way a catalogue loader hands entries to the
/// library: strings as hexadecimal colours, four-element arrays as channels.
fn theme_from_json(s: &str) -> Result<Theme, AppError> {
    let v: serde_json::Value = serde_json::from_str(s).unwrap();
    let name = v["name"].as_str().unwrap().to_string();
    let mut theme = Theme::new(name);
    for (role, c) in v["colors"].as_object().unwrap() {
        let entry = match c {
            serde_json::Value::String(h) => ColorEntry::Hex(h.clone()),
            serde_json::Value::Array(a) => ColorEntry::Channels(
                a[0].as_u64().unwrap() as u8,
                a[1].as_u64().unwrap() as u8,
                a[2].as_u64().unwrap() as u8,
                alpha(a[3].as_f64().unwrap() as f32),
            ),
            _ => panic!("unexpected colour entry"),
        };
        theme.insert(role.clone(), RGBA::from_entry(entry)?);
    }
    Ok(theme)
}

#[test]
fn it_parses_rgba_str() {
    let s = r##"
        {
          "name": "foo",
          "colors": {
            "color1": "#FFAABB"
          }
        }"##;

    let res: Theme = theme_from_json(s).unwrap();
    let colors = vec![(String::from("color1"), RGBA(255, 170, 187, alpha(1.0)))];

    let expect = Theme {
        name: String::from("foo"),
        colors,
    };

    assert_eq!(res, expect);
}

#[test]
fn it_parses_rgba_array() {
    let s = r##"
        {
          "name": "foo",
          "colors": {
            "color1": [255, 170, 187, 1.0]
          }
        }"##;

    let res: Theme = theme_from_json(s).unwrap();
    let colors = vec![(String::from("color1"), RGBA(255, 170, 187, alpha(1.0)))];

    let expect = Theme {
        name: String::from("foo"),
        colors,
    };

    assert_eq!(res, expect);
}

#[test]
fn hex_and_channels_give_the_same_colour() {
    let a = RGBA::from_entry(ColorEntry::Hex(String::from("#FFAABB"))).unwrap();
    let b = RGBA::from_entry(ColorEntry::Channels(255, 170, 187, alpha(1.0))).unwrap();
    assert_eq!(a, RGBA(255, 170, 187, Alpha::opaque()));
    assert_eq!(a, b);
}

#[test]
fn hex_of_wrong_length_is_rejected() {
    for s in ["#FFAAB", "#FFAABBC", "", "#"] {
        match RGBA::from_hex(s) {
            Err(AppError::ConversionError { msg }) => {
                assert_eq!(msg, "Hex color string must be of format #ABCDEF")
            }
            Ok(c) => panic!("{} gave {:?}", s, c),
        }
    }
    assert!(RGBA::from_entry(ColorEntry::Hex(String::from("#FFF"))).is_err());
}

#[test]
fn hex_with_bad_digits_or_prefix_is_rejected() {
    assert!(RGBA::from_hex("#GGAABB").is_err());
    assert!(RGBA::from_hex("XFFAABB").is_err());
    assert!(RGBA::from_hex("#FFAAB\u{e9}").is_err());
}

#[test]
fn hex_digits_of_either_case_are_read() {
    assert_eq!(RGBA::from_hex("#0a0B1c").unwrap(), RGBA(10, 11, 28, Alpha::opaque()));
}

#[test]
fn to_hex_is_lower_case_and_padded() {
    assert_eq!(RGBA(255, 170, 187, alpha(0.5)).to_hex(), "#ffaabb");
    assert_eq!(RGBA(0, 10, 1, alpha(1.0)).to_hex(), "#000a01");
}

#[test]
fn to_rgba_gives_channels_in_order() {
    assert_eq!(RGBA(255, 255, 255, alpha(1.0)).to_rgba(), "rgba(255,255,255,1)");
    assert_eq!(RGBA(1, 2, 3, alpha(0.5)).to_rgba(), "rgba(1,2,3,0.5)");
    assert_eq!(RGBA(10, 0, 200, alpha(0.05)).to_rgba(), "rgba(10,0,200,0.05)");
    assert_eq!(RGBA(0, 0, 0, alpha(-1.5)).to_rgba(), "rgba(0,0,0,-1.5)");
}

#[test]
fn alpha_reads_decimal_forms() {
    assert_eq!(
        Alpha::parse("1"),
        Some(Alpha { negative: false, mantissa: 1, scale: 0 })
    );
    assert_eq!(
        Alpha::parse("0.25"),
        Some(Alpha { negative: false, mantissa: 25, scale: 2 })
    );
    assert_eq!(
        Alpha::parse("-0.5"),
        Some(Alpha { negative: true, mantissa: 5, scale: 1 })
    );
    assert_eq!(Alpha::parse(""), None);
    assert_eq!(Alpha::parse("."), None);
    assert_eq!(Alpha::parse("1."), None);
    assert_eq!(Alpha::parse(".5"), None);
    assert_eq!(Alpha::parse("1e5"), None);
    assert_eq!(Alpha::parse("NaN"), None);
    assert_eq!(Alpha::parse("99999999999999999999"), None);
    assert_eq!(
        Alpha::parse("18446744073709551615"),
        Some(Alpha { negative: false, mantissa: u64::MAX, scale: 0 })
    );
}

#[test]
fn alpha_of_small_floats_renders_back() {
    for a in [0.0f32, 0.1, 0.3, 0.75, 1.0, 0.0001] {
        let text = format!("{}", a);
        let c = RGBA(0, 0, 0, alpha(a));
        assert_eq!(c.to_rgba(), format!("rgba(0,0,0,{})", text));
    }
}

#[test]
fn theme_lookup_takes_the_last_entry() {
    let mut t = Theme::new(String::from("t"));
    assert_eq!(t.get(&String::from("color1")), None);
    t.insert(String::from("color1"), RGBA(1, 1, 1, alpha(1.0)));
    t.insert(String::from("color2"), RGBA(2, 2, 2, alpha(1.0)));
    t.insert(String::from("color1"), RGBA(9, 9, 9, alpha(1.0)));
    assert_eq!(t.get(&String::from("color1")), Some(RGBA(9, 9, 9, alpha(1.0))));
    assert_eq!(t.get(&String::from("color2")), Some(RGBA(2, 2, 2, alpha(1.0))));
    assert_eq!(t.get(&String::from("color3")), None);
    assert_eq!(t.name, "t");
}
