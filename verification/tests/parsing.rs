use hyprparser::{parse_config, HyprlandConfig, Section};

const HOME: &str = "/home/user";

fn range_of(sections: &[Section], name: &str) -> (usize, usize) {
    for s in sections {
        if s.name == name {
            return (s.start, s.end);
        }
    }
    panic!("section {} not indexed", name);
}

#[test]
fn parse_render_round_trip() {
    let text = "# header comment\ngeneral {\n    gaps_in = 5\n\n    col.active_border = rgba(33ccffee)\n}\n\nmisc {\n}";
    let config = parse_config(text, HOME);
    assert_eq!(text, config.render());
}

#[test]
fn parse_render_round_trip_trailing_newline() {
    let text = "a {\n}\n";
    let config = parse_config(text, HOME);
    assert_eq!(text, config.render());
}

#[test]
fn parse_indexes_nested_sections() {
    let text = "a {\n    b {\n        k = v\n    }\n}\nc {\n}";
    let config = parse_config(text, HOME);
    assert_eq!((1, 3), range_of(&config.sections, "a.b"));
    assert_eq!((0, 4), range_of(&config.sections, "a"));
    assert_eq!((5, 6), range_of(&config.sections, "c"));
    assert_eq!(3, config.sections.len());
}

#[test]
fn parse_returns_resolved_source_paths() {
    let text = "source = /abs/child.conf\nsource = relative.conf\nsource = ~/tilde.conf";
    let mut config = HyprlandConfig::new();
    let paths = config.parse(text, false, HOME);
    assert_eq!(
        vec![
            "/abs/child.conf".to_string(),
            "/home/user/.config/hypr/relative.conf".to_string(),
            "/home/user/tilde.conf".to_string(),
        ],
        paths
    );
}

#[test]
fn parse_expands_variables_in_source_paths() {
    let text = "$confdir = /etc/hypr\n$name = extra\nsource = $confdir/$name.conf";
    let mut config = HyprlandConfig::new();
    let paths = config.parse(text, false, HOME);
    assert_eq!(vec!["/etc/hypr/extra.conf".to_string()], paths);
}

#[test]
fn parse_expands_home_variable() {
    let text = "source = $HOME/direct.conf";
    let mut config = HyprlandConfig::new();
    let paths = config.parse(text, false, HOME);
    assert_eq!(vec!["/home/user/direct.conf".to_string()], paths);
}

#[test]
fn parse_variable_values_strip_comments() {
    let text = "$dir = /tmp/conf # where fragments live\nsource = $dir/a.conf";
    let mut config = HyprlandConfig::new();
    let paths = config.parse(text, false, HOME);
    assert_eq!(vec!["/tmp/conf/a.conf".to_string()], paths);
}

#[test]
fn parse_later_variables_reference_earlier_ones() {
    let text = "$base = /srv\n$deep = $base/hypr\nsource = $deep/x.conf";
    let mut config = HyprlandConfig::new();
    let paths = config.parse(text, false, HOME);
    assert_eq!(vec!["/srv/hypr/x.conf".to_string()], paths);
}

#[test]
fn sourced_parse_keeps_lines_and_sections() {
    let mut config = HyprlandConfig::new();
    let root = "general {\n}";
    let _ = config.parse(root, false, HOME);
    let child = "xwayland {\n    force_zero_scaling = true\n}";
    let returned = config.parse(child, true, HOME);
    assert!(returned.is_empty());
    config.record_sourced_path("/tmp/child.conf");
    assert_eq!(1, config.sourced_content.len());
    assert_eq!(
        vec![
            "xwayland {".to_string(),
            "    force_zero_scaling = true".to_string(),
            "}".to_string(),
        ],
        config.sourced_content[0]
    );
    assert_eq!(1, config.sourced_sections.len());
    assert_eq!("xwayland", config.sourced_sections[0].name);
    assert_eq!(0, config.sourced_sections[0].buffer);
    assert_eq!((0, 2), (config.sourced_sections[0].start, config.sourced_sections[0].end));
    assert_eq!(vec!["/tmp/child.conf".to_string()], config.sourced_paths);
}

#[test]
fn sourced_parse_does_not_expand_nested_sources() {
    let mut config = HyprlandConfig::new();
    let child = "source = /tmp/grandchild.conf\ninner {\n}";
    let returned = config.parse(child, true, HOME);
    assert!(returned.is_empty());
    assert_eq!(1, config.sourced_content.len());
}

#[test]
fn parse_config_equality_is_primary_text() {
    let a = parse_config("x {\n}", HOME);
    let b = parse_config("x {\n}", HOME);
    let c = parse_config("y {\n}", HOME);
    assert_eq!(a, b);
    assert_ne!(a, c);
}

#[test]
fn empty_text_parses_to_empty_document() {
    let config = parse_config("", HOME);
    assert_eq!("", config.render());
    assert!(config.sections.is_empty());
}

#[test]
fn detect_indentation_reads_first_indented_line() {
    let config = HyprlandConfig::new();
    let two = vec!["top".to_string(), "  two spaces".to_string()];
    assert_eq!(2, config.detect_indentation(&two));
    let none: Vec<String> = Vec::new();
    assert_eq!(4, config.detect_indentation(&none));
}
