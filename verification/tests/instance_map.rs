use figma_code_dl::instance_map::{sanitize_identifier, Entry, InstanceMap};

fn entry(export: &str, alias: Option<&str>) -> Entry {
    Entry {
        module: "x".into(),
        export: export.into(),
        alias: alias.map(String::from),
        preserve_children: false,
    }
}

#[test]
fn sanitize_identifier_basic() {
    assert_eq!(sanitize_identifier("Switch"), "Switch");
    assert_eq!(sanitize_identifier("system/person_add"), "SystemPersonAdd");
    assert_eq!(sanitize_identifier("Frame 9468"), "Frame9468");
    assert_eq!(sanitize_identifier("1"), "_1");
}

#[test]
fn resolve_binding_uses_alias_or_export_or_sanitized() {
    let e = entry("default", None);
    assert_eq!(
        InstanceMap::resolve_binding(&e, "system/person_add"),
        "SystemPersonAdd"
    );

    let e2 = entry("Switch", None);
    assert_eq!(InstanceMap::resolve_binding(&e2, "Switch"), "Switch");

    let e3 = entry("default", Some("MySwitch"));
    assert_eq!(InstanceMap::resolve_binding(&e3, "anything"), "MySwitch");
}

#[test]
fn names_outside_ascii_collapse() {
    assert_eq!(sanitize_identifier("設定"), "Comp");
    assert_eq!(sanitize_identifier("設定 / 画面"), "Comp");
    assert_eq!(sanitize_identifier("設定a"), "A");
}

#[test]
fn names_without_letters_become_an_underscore() {
    assert_eq!(sanitize_identifier(""), "_");
    assert_eq!(sanitize_identifier("--"), "_");
}

#[test]
fn other_characters_do_not_begin_a_word() {
    assert_eq!(sanitize_identifier("a.b-c\td\u{3000}e"), "AbCDE");
    assert_eq!(sanitize_identifier("9/lives"), "_9Lives");
}

#[test]
fn what_comes_out_is_an_identifier() {
    for name in ["", "x", "日本", "9", "a b", "_", "ß1", "-/-", "é"] {
        let id = sanitize_identifier(name);
        assert!(!id.is_empty());
        assert!(!id.starts_with(|c: char| c.is_ascii_digit()));
        assert!(id.chars().all(|c| c.is_ascii_alphanumeric() || c == '_'));
    }
}

#[test]
fn an_empty_map_has_no_entries() {
    let map = InstanceMap::default();
    assert_eq!(map.mappings.len(), 0);
    assert!(map.by_node_id.is_empty());
    assert!(!map.options.pass_class_name);
}

#[test]
fn an_identifier_stays_and_keeps_the_letters() {
    let letters = |s: &str| -> String {
        s.chars().filter(|c| c.is_ascii_alphanumeric()).collect::<String>().to_lowercase()
    };
    for name in ["system/person_add", "9/lives", "設定", "--", "a.b-C\td", "設定x1"] {
        let id = sanitize_identifier(name);
        assert_eq!(sanitize_identifier(&id), id);
        if !letters(name).is_empty() {
            assert_eq!(letters(&id), letters(name));
        }
    }
}
