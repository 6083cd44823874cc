use hyprparser::HyprlandConfig;

fn channels_to_unit(c: Option<(u8, u8, u8, u8)>) -> Option<(f32, f32, f32, f32)> {
    match c {
        Some((r, g, b, a)) => Some((
            r as f32 / 255.0,
            g as f32 / 255.0,
            b as f32 / 255.0,
            a as f32 / 255.0,
        )),
        None => None,
    }
}

#[test]
fn color_parsing() {
    let config = HyprlandConfig::new();

    let expected = Some((0.11764706, 0.27450982, 0.19607843, 1.0));

    let rgba_parsed = channels_to_unit(config.parse_color("rgba(1E4632FF)"));
    let rgb_parsed = channels_to_unit(config.parse_color("rgb(1E4632)"));
    let argb_parsed = channels_to_unit(config.parse_color("0xFF1E4632"));

    assert_eq!(expected, rgba_parsed);
    assert_eq!(expected, rgb_parsed);
    assert_eq!(expected, argb_parsed);
}

#[test]
fn color_parsing_bytes() {
    let config = HyprlandConfig::new();
    assert_eq!(Some((0x1E, 0x46, 0x32, 0xFF)), config.parse_color("rgba(1E4632FF)"));
    assert_eq!(Some((0x1E, 0x46, 0x32, 255)), config.parse_color("rgb(1E4632)"));
    assert_eq!(Some((0x1E, 0x46, 0x32, 0xFF)), config.parse_color("0xFF1E4632"));
    assert_eq!(Some((0, 0, 0, 0)), config.parse_color("rgba(00000000)"));
    assert_eq!(Some((255, 255, 255, 255)), config.parse_color("rgba(ffffffff)"));
}

#[test]
fn color_parsing_rejects_malformed() {
    let config = HyprlandConfig::new();
    assert_eq!(None, config.parse_color(""));
    assert_eq!(None, config.parse_color("rgba(1E4632)"));
    assert_eq!(None, config.parse_color("rgb(1E4632FF)"));
    assert_eq!(None, config.parse_color("rgba(1E4632FX)"));
    assert_eq!(None, config.parse_color("rgba(1E4632FF"));
    assert_eq!(None, config.parse_color("0x1E4632"));
    assert_eq!(None, config.parse_color("0xGG1E4632"));
    assert_eq!(None, config.parse_color("#FF1E4632"));
    assert_eq!(None, config.parse_color("rgb()"));
}

#[test]
fn color_formatting() {
    let config = HyprlandConfig::new();
    assert_eq!("rgba(1e4632ff)", config.format_color(0x1E, 0x46, 0x32, 0xFF));
    assert_eq!("rgba(00000000)", config.format_color(0, 0, 0, 0));
    assert_eq!("rgba(ffffffff)", config.format_color(255, 255, 255, 255));
}

#[test]
fn color_value_round_trip() {
    let config = HyprlandConfig::new();
    for literal in ["rgba(1E4632FF)", "rgb(1E4632)", "0xFF1E4632"] {
        let (r, g, b, a) = config.parse_color(literal).unwrap();
        assert_eq!("rgba(1e4632ff)", config.format_color(r, g, b, a));
    }
}
