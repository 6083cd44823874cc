use hyprparser::{parse_config, HyprlandConfig, Section};

const HOME: &str = "/home/user";

fn range_of(sections: &[Section], name: &str) -> (usize, usize) {
    for s in sections {
        if s.name == name {
            return (s.start, s.end);
        }
    }
    panic!("section {} not indexed", name);
}

#[test]
fn entry_added_to_existing_section() {
    let mut config = parse_config("general {\n    layout = dwindle\n}", HOME);
    let req = config.add_entry("general", "gaps_in = 5");
    assert!(req.is_none());
    assert_eq!("general {\n    layout = dwindle\n    gaps_in = 5\n}", config.render());
}

#[test]
fn entry_replaced_in_place() {
    let mut config = parse_config("general {\n    gaps_in = 5\n    gaps_out = 20\n}", HOME);
    let _ = config.add_entry("general", "gaps_in = 12");
    assert_eq!("general {\n    gaps_in = 12\n    gaps_out = 20\n}", config.render());
}

#[test]
fn entry_adding_is_idempotent() {
    let mut once = HyprlandConfig::new();
    let _ = once.add_entry("general", "gaps_in = 5");
    let mut twice = HyprlandConfig::new();
    let _ = twice.add_entry("general", "gaps_in = 5");
    let _ = twice.add_entry("general", "gaps_in = 5");
    assert_eq!(once, twice);
}

#[test]
fn entry_updated_twice_keeps_final_value() {
    let mut config = HyprlandConfig::new();
    let _ = config.add_entry("general", "gaps_in = 5");
    let _ = config.add_entry("general", "gaps_in = 20");
    assert_eq!("general {\n    gaps_in = 20\n}\n", config.render());
}

#[test]
fn nested_category_created_with_indented_braces() {
    let mut config = HyprlandConfig::new();
    let _ = config.add_entry("a.b.c", "k = v");
    assert_eq!(
        "a {\n\n    b {\n\n        c {\n            k = v\n        }\n\n    }\n\n}\n",
        config.render()
    );
    let a = range_of(&config.sections, "a");
    let ab = range_of(&config.sections, "a.b");
    let abc = range_of(&config.sections, "a.b.c");
    assert_eq!((0, 10), a);
    assert_eq!((2, 8), ab);
    assert_eq!((4, 6), abc);
    assert!(a.0 < ab.0 && ab.1 < a.1);
    assert!(ab.0 < abc.0 && abc.1 < ab.1);
}

#[test]
fn insertion_shifts_later_section_ranges() {
    let mut config = parse_config("a {\n}\nb {\n}", HOME);
    assert_eq!((0, 1), range_of(&config.sections, "a"));
    assert_eq!((2, 3), range_of(&config.sections, "b"));
    let _ = config.add_entry("a", "k = v");
    assert_eq!((0, 2), range_of(&config.sections, "a"));
    assert_eq!((3, 4), range_of(&config.sections, "b"));
    let _ = config.add_entry("a", "k2 = v2");
    assert_eq!((0, 3), range_of(&config.sections, "a"));
    assert_eq!((4, 5), range_of(&config.sections, "b"));
    assert_eq!("a {\n    k = v\n    k2 = v2\n}\nb {\n}", config.render());
}

#[test]
fn headless_entries_append_and_deduplicate() {
    let mut config = HyprlandConfig::new();
    config.add_entry_headless("$terminal", "kitty");
    config.add_entry_headless("", "");
    config.add_entry_headless("$terminal", "kitty");
    config.add_entry_headless("", "");
    config.add_entry_headless("bind", "SUPER, Q, killactive");
    assert_eq!("$terminal = kitty\n\n\nbind = SUPER, Q, killactive", config.render());
}

#[test]
fn sourced_section_edit_returns_write_request() {
    let mut config = HyprlandConfig::new();
    let paths = config.parse("source = /tmp/child.conf\ngeneral {\n}", false, HOME);
    assert_eq!(vec!["/tmp/child.conf".to_string()], paths);
    let _ = config.parse("xwayland {\n}", true, HOME);
    config.record_sourced_path("/tmp/child.conf");

    let before = config.render();
    let req = config.add_entry("xwayland", "force_zero_scaling = true").unwrap();
    assert_eq!("/tmp/child.conf", req.path);
    assert_eq!("xwayland {\n    force_zero_scaling = true\n}", req.content);
    assert_eq!(before, config.render());
}

#[test]
fn sourced_subsection_created_inside_parent() {
    let mut config = HyprlandConfig::new();
    let _ = config.parse("outer {\n    k = v\n}", true, HOME);
    config.record_sourced_path("/tmp/outer.conf");
    let req = config.add_entry("outer.inner", "key = val").unwrap();
    assert_eq!("/tmp/outer.conf", req.path);
    assert_eq!(
        "outer {\n    k = v\n\n    inner {\n        key = val\n    }\n}",
        req.content
    );
}

#[test]
fn synthetic_sourced_buffer_is_never_edited() {
    let mut config = HyprlandConfig::new();
    config.add_sourced(vec!["hidden {".to_string(), "}".to_string()]);
    let req = config.add_entry("hidden", "k = v");
    assert!(req.is_none());
    assert_eq!(vec!["hidden {".to_string(), "}".to_string()], config.sourced_content[0]);
    assert_eq!("hidden {\n    k = v\n}\n", config.render());
}

#[test]
fn sourced_edit_is_idempotent() {
    let mut config = HyprlandConfig::new();
    let _ = config.parse("input {\n}", true, HOME);
    config.record_sourced_path("/tmp/input.conf");
    let first = config.add_entry("input", "accel_profile = flat").unwrap();
    let second = config.add_entry("input", "accel_profile = flat").unwrap();
    assert_eq!(first.path, second.path);
    assert_eq!(first.content, second.content);
    assert_eq!("input {\n    accel_profile = flat\n}", second.content);
}
