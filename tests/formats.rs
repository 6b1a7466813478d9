use teems::apps::alacritty::{self, get_theme_color, Mode};
use teems::apps::{kitty, termite, x, xterm};
use teems::{Alpha, Theme, RGBA};

fn alpha(a: f32) -> Alpha {
    Alpha::parse(&format!("{}", a)).unwrap()
}

fn theme_of(entries: &[(&str, RGBA)]) -> Theme {
    let mut t = Theme::new(String::from("t"));
    for (k, v) in entries {
        t.insert(String::from(*k), *v);
    }
    t
}

fn grey(n: u8) -> RGBA {
    RGBA(n, n, n, alpha(1.0))
}

#[test]
fn alacritty_black_under_normal_scenario() {
    let theme = theme_of(&[("color0", RGBA(0, 0, 0, alpha(1.0)))]);
    let cfg = "normal:\n    black:       '0x3B4252'";
    let out = alacritty::convert_colors(&theme, cfg).unwrap();
    assert_eq!(out, "normal:\n    black:       '0x000000'");
}

#[test]
fn alacritty_modes_switch_back_and_forth() {
    let theme = theme_of(&[("color0", grey(0)), ("color8", grey(8)), ("color9", grey(9))]);
    let cfg = "colors:\n  black: '0x111111'\nbright:\n  black: '0x111111'\n  red: \"0x222222\" # x\nnormal:\n  black: '0x111111'";
    let out = alacritty::convert_colors(&theme, cfg).unwrap();
    assert_eq!(
        out,
        "colors:\n  black: '0x000000'\nbright:\n  black: '0x080808'\n  red: \"0x090909\" # x\nnormal:\n  black: '0x000000'"
    );
}

#[test]
fn alacritty_comment_and_missing_role_are_kept() {
    let theme = theme_of(&[("color1", grey(1))]);
    let cfg = "  # black: '0x123456'\n  black: '0x123456'\n  red: '0x123456'\n  red: '0x12345'";
    let out = alacritty::convert_colors(&theme, cfg).unwrap();
    assert_eq!(
        out,
        "  # black: '0x123456'\n  black: '0x123456'\n  red: '0x010101'\n  red: '0x12345'"
    );
}

#[test]
fn alacritty_twice_is_once() {
    let theme = theme_of(&[("color0", grey(0)), ("color12", grey(12)), ("foreground", grey(200))]);
    let cfg = "foreground: '0xABCDEF'\nbright:\n  blue: '0xABCDEF'\n  black: '0xABCDEF'\n";
    let once = alacritty::convert_colors(&theme, cfg).unwrap();
    let twice = alacritty::convert_colors(&theme, &once).unwrap();
    assert_eq!(once, "foreground: '0xc8c8c8'\nbright:\n  blue: '0x0c0c0c'\n  black: '0xABCDEF'\n");
    assert_eq!(once, twice);
}

#[test]
fn alacritty_keeps_line_breaks() {
    let theme = theme_of(&[("color0", grey(0))]);
    let cfg = "\r\n\nblack: '0x123456'\n\n";
    let out = alacritty::convert_colors(&theme, cfg).unwrap();
    assert_eq!(out, "\r\n\nblack: '0x000000'\n\n");
    assert_eq!(alacritty::convert_colors(&theme, "").unwrap(), "");
}

#[test]
fn get_theme_color_maps_names_by_mode() {
    assert_eq!(get_theme_color("black", &Mode::Normal), "color0");
    assert_eq!(get_theme_color("black", &Mode::Bright), "color8");
    assert_eq!(get_theme_color("white", &Mode::Normal), "color7");
    assert_eq!(get_theme_color("white", &Mode::Bright), "color15");
    assert_eq!(get_theme_color("foreground", &Mode::Bright), "foreground");
    assert_eq!(get_theme_color("cursor", &Mode::Normal), "cursor");
    assert_eq!(get_theme_color("purple", &Mode::Bright), "color0");
}

#[test]
fn kitty_missing_role_and_trailing_text() {
    let theme = theme_of(&[("color1", grey(1)), ("url_color", grey(2))]);
    let cfg = "  color1\t#ABCDEF trailing\ncolor2 #ABCDEF\nurl_color #zzzzzz1\ncolor #ABCDEF\ncolor3 ABCDEF";
    let out = kitty::convert_colors(&theme, cfg).unwrap();
    assert_eq!(
        out,
        "  color1\t#010101 trailing\ncolor2 #ABCDEF\nurl_color #0202021\ncolor #ABCDEF\ncolor3 ABCDEF"
    );
    assert_eq!(kitty::convert_colors(&theme, &out).unwrap(), out);
}

#[test]
fn termite_hex_source_becomes_functional() {
    let theme = theme_of(&[("foreground", RGBA(255, 255, 255, alpha(1.0)))]);
    let out = termite::convert_colors(&theme, "foreground = #ffffff").unwrap();
    assert_eq!(out, "foreground = rgba(255,255,255,1)");
}

#[test]
fn termite_functional_values_and_case() {
    let theme = theme_of(&[
        ("color4", RGBA(1, 2, 3, alpha(0.5))),
        ("Cursor", RGBA(9, 8, 7, alpha(1.0))),
    ]);
    let cfg = "color4=RGBA(0, 0, 0, 1) (x)\nCursor   =   #abcdef\ncolor5 = rgba(1,1,1,1)\n color4 = #abcdef\ncolor4 = rgba(1,2";
    let out = termite::convert_colors(&theme, cfg).unwrap();
    assert_eq!(
        out,
        "color4=rgba(1,2,3,0.5) (x)\nCursor   =   rgba(9,8,7,1)\ncolor5 = rgba(1,1,1,1)\n color4 = #abcdef\ncolor4 = rgba(1,2"
    );
    assert_eq!(termite::convert_colors(&theme, &out).unwrap(), out);
}

#[test]
fn x_other_names_are_kept() {
    let theme = theme_of(&[("foreground", grey(1)), ("color3", grey(3))]);
    let cfg = "URxvt.foreground: #afb7c0\n*.foreground: #afb7c0\n*xcolor3:#afb7c0 ! c\n*color3: #afb7c0\n *.color3: #afb7c0\nXTerm*color3: #afb7c0";
    let out = x::convert_colors(&theme, cfg).unwrap();
    assert_eq!(
        out,
        "URxvt.foreground: #afb7c0\n*.foreground: #010101\n*xcolor3:#030303 ! c\n*color3: #afb7c0\n *.color3: #afb7c0\nXTerm*color3: #afb7c0"
    );
}

#[test]
fn xterm_prefix_is_normalised() {
    let theme = theme_of(&[("color3", grey(3))]);
    let cfg = "xterm*color3: #afb7c0\nXTERM*color4: #afb7c0\nURxvt*color3: #afb7c0\nXTerm.color3: #afb7c0";
    let out = xterm::convert_colors(&theme, cfg).unwrap();
    assert_eq!(
        out,
        "XTerm*color3: #030303\nXTerm*color4: #afb7c0\nURxvt*color3: #afb7c0\nXTerm.color3: #afb7c0"
    );
    assert_eq!(xterm::convert_colors(&theme, &out).unwrap(), out);
}

#[test]
fn line_count_is_kept() {
    let theme = theme_of(&[("color0", grey(0))]);
    let cfg = "a\n\ncolor0 #123456\n*.color0: #123456\n";
    for out in [
        kitty::convert_colors(&theme, cfg).unwrap(),
        x::convert_colors(&theme, cfg).unwrap(),
        xterm::convert_colors(&theme, cfg).unwrap(),
        termite::convert_colors(&theme, cfg).unwrap(),
        alacritty::convert_colors(&theme, cfg).unwrap(),
    ] {
        assert_eq!(out.split('\n').count(), cfg.split('\n').count());
        assert!(out.starts_with("a\n\n"));
        assert!(out.ends_with('\n'));
    }
}
