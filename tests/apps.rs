use teems::apps::{alacritty, kitty, termite, x, xterm};
use teems::{Alpha, Theme, RGBA};

fn alpha(a: f32) -> Alpha {
    Alpha::parse(&format!("{}", a)).unwrap()
}

fn colors(extra: &[(&str, RGBA)]) -> Vec<(String, RGBA)> {
    let mut c: Vec<(String, RGBA)> = (0u8..16)
        .map(|n| (format!("color{}", n), RGBA(n, n, n, alpha(1.0))))
        .collect();
    c.push((String::from("foreground"), RGBA(255, 255, 255, alpha(1.0))));
    c.push((String::from("background"), RGBA(50, 50, 50, alpha(1.0))));
    c.push((String::from("cursor"), RGBA(60, 60, 60, alpha(1.0))));
    c.push((String::from("text"), RGBA(70, 70, 70, alpha(1.0))));
    for (k, v) in extra {
        c.push((String::from(*k), *v));
    }
    c
}

fn get_theme() -> Theme {
    Theme {
        name: String::from("theme"),
        colors: colors(&[]),
    }
}

fn get_kitty_theme() -> Theme {
    Theme {
        name: String::from("theme"),
        colors: colors(&[
            ("selection_foreground", RGBA(70, 70, 70, alpha(1.0))),
            ("selection_background", RGBA(70, 70, 70, alpha(1.0))),
        ]),
    }
}

#[test]
fn alacritty_it_replaces_colors() {
        let theme = get_theme();

        let cfg = "
        background:     '0x2E3440'
        foreground:     '0xD8DEE9'

        cursor:
            cursor:       '0x3B4252'
            text:         '0xBF616A'

        normal:
            black:       '0x3B4252'
            red:         '0xBF616A'
            green:       '0xA3BE8C'
        #   green:       '0xA3BE8C'
            yellow:      '0xEBCB8B'
            blue:        '0x81A1C1'
            magenta:     '0xB48EAD'
            cyan:        '0x88C0D0'
            white:       '0xE5E9F0'

        # Bright colors
        bright:
            black:       '0x4C566A'
            red:         '0xBF616A'
            green:       '0xA3BE8C'
            yellow:      '0xEBCB8B'
            blue:        '0x81A1C1'
            magenta:     '0xB48EAD'
            cyan:        '0xA3BE8C'
            white:       '0xECEFF4'
        ";

        let cfg_expected = "
        background:     '0x323232'
        foreground:     '0xffffff'

        cursor:
            cursor:       '0x3c3c3c'
            text:         '0x464646'

        normal:
            black:       '0x000000'
            red:         '0x010101'
            green:       '0x020202'
        #   green:       '0xA3BE8C'
            yellow:      '0x030303'
            blue:        '0x040404'
            magenta:     '0x050505'
            cyan:        '0x060606'
            white:       '0x070707'

        # Bright colors
        bright:
            black:       '0x080808'
            red:         '0x090909'
            green:       '0x0a0a0a'
            yellow:      '0x0b0b0b'
            blue:        '0x0c0c0c'
            magenta:     '0x0d0d0d'
            cyan:        '0x0e0e0e'
            white:       '0x0f0f0f'
        ";

        let result = alacritty::convert_colors(&theme, &cfg).unwrap();
        assert_eq!(result, cfg_expected);
    }

#[test]
fn it_keeps_formatting() {
        let theme = get_theme();

        let cfg = "
            normal:
                black: '0x123456'
                red:         '0x123456'
        ";

        let expected = "
            normal:
                black: '0x000000'
                red:         '0x010101'
        ";

        let result = alacritty::convert_colors(&theme, &cfg).unwrap();
        assert_eq!(result, expected);
    }

#[test]
fn kitty_it_replaces_colors() {
        let theme = get_kitty_theme();

        let cfg = "
# The foreground for selections
selection_foreground #000000

# The background for selections
selection_background #FFFACD

# The 16 terminal colors. There are 8 basic colors, each color has a dull and
# bright version. You can also set the remaining colors from the 256 color table
# as color16 to color256.

# black
color0 #1d1f21
color8 #969896

color1 #cc6666
color9 #cc6666

color2 #b5bd68
color3 #f0c674
color4 #81a2be
color5 #b294bb
color6 #8abeb7
color7 #c5c8c6

color10 #b5bd68
color11 #f0c674
color12 #81a2be
color13 #b294bb
color14 #8abeb7
color15 #ffffff
        ";

        let cfg_expected = "
# The foreground for selections
selection_foreground #464646

# The background for selections
selection_background #464646

# The 16 terminal colors. There are 8 basic colors, each color has a dull and
# bright version. You can also set the remaining colors from the 256 color table
# as color16 to color256.

# black
color0 #000000
color8 #080808

color1 #010101
color9 #090909

color2 #020202
color3 #030303
color4 #040404
color5 #050505
color6 #060606
color7 #070707

color10 #0a0a0a
color11 #0b0b0b
color12 #0c0c0c
color13 #0d0d0d
color14 #0e0e0e
color15 #0f0f0f
        ";

        let result = kitty::convert_colors(&theme, &cfg).unwrap();
        assert_eq!(result, cfg_expected);
    }

#[test]
fn kitty_it_does_not_affect_other_apps() {
        let theme = get_kitty_theme();

        let cfg = "
URxvt.foreground: #afb7c0
URxvt.background: #2c2d30
        ";

        let cfg_expected = "
URxvt.foreground: #afb7c0
URxvt.background: #2c2d30
        ";

        let result = kitty::convert_colors(&theme, &cfg).unwrap();
        assert_eq!(result, cfg_expected);
    }

#[test]
fn termite_it_replaces_colors() {
        let theme = get_theme();

        let cfg = "
[colors]
#foreground_bold = #ffffff
#cursor = #dcdccc
#cursor_foreground = #dcdccc
foreground = rgba(175,183,192,1)
background = rgba(44,45,48,1)
#highlight = #242424
color0 = rgba(44,45,48,1)
color1 = rgba(190,134,140,1)
color2 = rgba(127,157,119,1)
color3 = #ffffff
color4 = rgba(117,154,189,1)
color5 = rgba(168,140,179,1)
color6 = rgba(93,161,159,1)
color7 = rgba(175,183,192,1)
color8 = rgba(54,58,62,1)
color9 = rgba(190,134,140,1)
color10 = rgba(127,157,119,1)
color11 = rgba(171,145,109,1)
color12 = rgba(117,154,189,1)
color13 = rgba(168,140,179,1)
color14 = rgba(93,161,159,1)
color15 = rgba(203,210,217,1)
        ";

        let cfg_expected = "
[colors]
#foreground_bold = #ffffff
#cursor = #dcdccc
#cursor_foreground = #dcdccc
foreground = rgba(255,255,255,1)
background = rgba(50,50,50,1)
#highlight = #242424
color0 = rgba(0,0,0,1)
color1 = rgba(1,1,1,1)
color2 = rgba(2,2,2,1)
color3 = rgba(3,3,3,1)
color4 = rgba(4,4,4,1)
color5 = rgba(5,5,5,1)
color6 = rgba(6,6,6,1)
color7 = rgba(7,7,7,1)
color8 = rgba(8,8,8,1)
color9 = rgba(9,9,9,1)
color10 = rgba(10,10,10,1)
color11 = rgba(11,11,11,1)
color12 = rgba(12,12,12,1)
color13 = rgba(13,13,13,1)
color14 = rgba(14,14,14,1)
color15 = rgba(15,15,15,1)
        ";

        let result = termite::convert_colors(&theme, &cfg).unwrap();
        assert_eq!(result, cfg_expected);
    }

#[test]
fn termite_it_does_not_affect_other_apps() {
        let theme = get_theme();

        let cfg = "
URxvt.foreground: #afb7c0
URxvt.background: #2c2d30
        ";

        let cfg_expected = "
URxvt.foreground: #afb7c0
URxvt.background: #2c2d30
        ";

        let result = termite::convert_colors(&theme, &cfg).unwrap();
        assert_eq!(result, cfg_expected);
    }

#[test]
fn x_it_replaces_colors() {
        let theme = get_theme();

        let cfg = "
*.foreground: #afb7c0
*.background: #2c2d30
*.color0: #2c2d30
*.color8: #363a3e
*.color1: #be868c
*.color9: #be868c
*.color2: #7f9d77
*.color10: #7f9d77
*.color3: #ab916d
*.color11: #ab916d
*.color4: #759abd
*.color12: #759abd
*.color5: #a88cb3
*.color13: #a88cb3
*.color6: #5da19f
*.color14: #5da19f
*.color7: #afb7c0
*.color15: #cbd2d9
        ";

        let cfg_expected = "
*.foreground: #ffffff
*.background: #323232
*.color0: #000000
*.color8: #080808
*.color1: #010101
*.color9: #090909
*.color2: #020202
*.color10: #0a0a0a
*.color3: #030303
*.color11: #0b0b0b
*.color4: #040404
*.color12: #0c0c0c
*.color5: #050505
*.color13: #0d0d0d
*.color6: #060606
*.color14: #0e0e0e
*.color7: #070707
*.color15: #0f0f0f
        ";

        let result = x::convert_colors(&theme, &cfg).unwrap();
        assert_eq!(result, cfg_expected);
    }

#[test]
fn x_it_does_not_affect_other_apps() {
        let theme = get_theme();

        let cfg = "
URxvt.foreground: #afb7c0
URxvt.background: #2c2d30
        ";

        let cfg_expected = "
URxvt.foreground: #afb7c0
URxvt.background: #2c2d30
        ";

        let result = x::convert_colors(&theme, &cfg).unwrap();
        assert_eq!(result, cfg_expected);
    }

#[test]
fn xterm_it_replaces_colors() {
        let theme = get_theme();

        let cfg = "
XTerm*foreground: #afb7c0
XTerm*background: #2c2d30
XTerm*color0: #2c2d30
XTerm*color8: #363a3e
XTerm*color1: #be868c
XTerm*color9: #be868c
XTerm*color2: #7f9d77
XTerm*color10: #7f9d77
XTerm*color3: #ab916d
XTerm*color11: #ab916d
XTerm*color4: #759abd
XTerm*color12: #759abd
XTerm*color5: #a88cb3
XTerm*color13: #a88cb3
XTerm*color6: #5da19f
XTerm*color14: #5da19f
XTerm*color7: #afb7c0
XTerm*color15: #cbd2d9
        ";

        let cfg_expected = "
XTerm*foreground: #ffffff
XTerm*background: #323232
XTerm*color0: #000000
XTerm*color8: #080808
XTerm*color1: #010101
XTerm*color9: #090909
XTerm*color2: #020202
XTerm*color10: #0a0a0a
XTerm*color3: #030303
XTerm*color11: #0b0b0b
XTerm*color4: #040404
XTerm*color12: #0c0c0c
XTerm*color5: #050505
XTerm*color13: #0d0d0d
XTerm*color6: #060606
XTerm*color14: #0e0e0e
XTerm*color7: #070707
XTerm*color15: #0f0f0f
        ";

        let result = xterm::convert_colors(&theme, &cfg).unwrap();
        assert_eq!(result, cfg_expected);
    }

#[test]
fn xterm_it_does_not_affect_other_apps() {
        let theme = get_theme();

        let cfg = "
URxvt.foreground: #afb7c0
URxvt.background: #2c2d30
        ";

        let cfg_expected = "
URxvt.foreground: #afb7c0
URxvt.background: #2c2d30
        ";

        let result = xterm::convert_colors(&theme, &cfg).unwrap();
        assert_eq!(result, cfg_expected);
    }
