use figma_code_dl::instance_map::{Entry, InstanceMap, Options};
use figma_code_dl::jsx::{
    attr_value, find_matching_brace, find_outer_brace, find_subtree_end, find_top_level_function,
};
use figma_code_dl::replace::{find_inline_instance_candidates, process};
use figma_code_dl::text_map::TextMap;

fn map_from(entries: Vec<(&str, Entry)>) -> InstanceMap {
    let mut mappings = TextMap::new();
    for (k, v) in entries {
        mappings.insert(k.into(), v);
    }
    InstanceMap {
        mappings,
        by_node_id: TextMap::new(),
        options: Options::default(),
    }
}

fn entry(module: &str, export: &str) -> Entry {
    Entry {
        module: module.into(),
        export: export.into(),
        alias: None,
        preserve_children: false,
    }
}

#[test]
fn replaces_single_subtree_and_imports_named() {
    let code = r#"
<div data-node-id="1:1" data-name="root">
  <div data-node-id="1:2" data-name="Switch">
    <div data-node-id="I1:2;9:9">inner</div>
  </div>
</div>
"#;
    let map = map_from(vec![("Switch", entry("@/ds/Switch", "Switch"))]);
    let out = process(code, &map).unwrap();
    assert!(out.body.contains("<Switch />"));
    assert!(!out.body.contains("I1:2;9:9"));
    assert!(out
        .imports
        .render()
        .contains(r#"import { Switch } from "@/ds/Switch";"#));
    assert_eq!(out.report.replaced.get("Switch"), Some(&1));
}

#[test]
fn replaces_self_closing_tag() {
    let code = r#"<div data-node-id="1:2" data-name="Switch" />"#;
    let map = map_from(vec![("Switch", entry("@/x", "Switch"))]);
    let out = process(code, &map).unwrap();
    assert_eq!(out.body.trim(), "<Switch />");
}

#[test]
fn skips_subnodes_of_inlined_instance() {
    // The Switch root has bare id, its children have I-prefixed ids.
    // Only the root should be replaced.
    let code = r#"<div data-node-id="1:2" data-name="Switch">
  <div data-node-id="I1:2;3:3" data-name="thumb"></div>
</div>"#;
    let map = map_from(vec![
        ("Switch", entry("@/x", "Switch")),
        ("thumb", entry("@/y", "Thumb")),
    ]);
    let out = process(code, &map).unwrap();
    assert!(out.body.contains("<Switch />"));
    assert!(!out.body.contains("data-name=\"thumb\""));
    assert_eq!(out.report.replaced.get("thumb"), None);
}

#[test]
fn default_export_uses_sanitized_local() {
    let code = r#"<div data-node-id="1:2" data-name="system/person_add" />"#;
    let map = map_from(vec![(
        "system/person_add",
        entry("@/icons/PersonAdd", "default"),
    )]);
    let out = process(code, &map).unwrap();
    assert!(out.body.contains("<SystemPersonAdd />"));
    assert!(out
        .imports
        .render()
        .contains(r#"import SystemPersonAdd from "@/icons/PersonAdd";"#));
}

#[test]
fn alias_overrides_export_name_in_import() {
    let code = r#"<div data-node-id="1:2" data-name="Switch" />"#;
    let map = map_from(vec![(
        "Switch",
        Entry {
            module: "@/x".into(),
            export: "Switch".into(),
            alias: Some("DSSwitch".into()),
            preserve_children: false,
        },
    )]);
    let out = process(code, &map).unwrap();
    assert!(out.body.contains("<DSSwitch />"));
    assert!(out
        .imports
        .render()
        .contains(r#"import { Switch as DSSwitch } from "@/x";"#));
}

#[test]
fn unmapped_data_names_are_counted() {
    let code = r#"
<div data-node-id="1:2" data-name="Foo" />
<div data-node-id="1:3" data-name="Foo" />
<div data-node-id="1:4" data-name="Bar" />
"#;
    let map = map_from(vec![]); // empty
    let out = process(code, &map).unwrap();
    assert_eq!(out.report.unmapped.get("Foo"), Some(&2));
    assert_eq!(out.report.unmapped.get("Bar"), Some(&1));
    assert!(out.imports.render().is_empty());
}

#[test]
fn by_node_id_takes_precedence_over_name() {
    let code = r#"<div data-node-id="1:9" data-name="Switch" />"#;
    let mut map = map_from(vec![("Switch", entry("@/general/Switch", "Switch"))]);
    map.by_node_id
        .insert("1:9".into(), entry("@/special/Custom", "Custom"));
    let out = process(code, &map).unwrap();
    assert!(out.body.contains("<Custom />"));
    assert!(out
        .imports
        .render()
        .contains(r#"import { Custom } from "@/special/Custom";"#));
}

#[test]
fn removes_top_level_function_when_mapped() {
    let code = "function Button({ className }: { className?: string }) {\n  return <div className={className} data-node-id=\"x\" data-name=\"Button\">btn</div>;\n}\n\nexport default function Page() {\n  return <Button className=\"foo\" />;\n}\n";
    let map = map_from(vec![("Button", entry("@/ds/Button", "default"))]);
    let out = process(code, &map).unwrap();
    assert!(!out.body.contains("function Button"));
    assert!(out.body.contains("<Button className=\"foo\" />"));
    assert!(out
        .imports
        .render()
        .contains(r#"import Button from "@/ds/Button";"#));
    assert!(out
        .report
        .removed_functions
        .contains(&"Button".to_string()));
}

#[test]
fn finds_subtree_end_with_nested_same_tag() {
    let code = "<div><div>x</div></div>";
    // body_start = index after the first `<div>` (5)
    assert_eq!(find_subtree_end(code, 5, "div"), Some(code.len()));
}

#[test]
fn finds_subtree_end_with_self_closing_nested() {
    let code = r#"<div><img /><div></div></div>"#;
    assert_eq!(find_subtree_end(code, 5, "div"), Some(code.len()));
}

#[test]
fn subtree_end_takes_whole_names_only() {
    assert_eq!(find_subtree_end("<div>x</div >", 5, "div"), Some(13));
    assert_eq!(find_subtree_end("<div>x</div ", 5, "div"), None);
    let code = "<div><divider></divider><div/><div ></div\n></div>tail";
    assert_eq!(find_subtree_end(code, 5, "div"), Some(code.len() - 4));
    assert_eq!(find_subtree_end("<div>", 5, "div"), None);
    assert_eq!(find_subtree_end("<div>", 9, "div"), None);
    assert_eq!(find_subtree_end("<div><div", 5, "div"), None);
    assert_eq!(find_subtree_end("<a>é</a>", 3, "a"), Some(9));
}

#[test]
fn attributes_start_a_word() {
    assert_eq!(attr_value(" a=\"1\" xa=\"2\"", "a"), Some("1"));
    assert_eq!(attr_value(" xa=\"2\" a=\"1\"", "a"), Some("1"));
    assert_eq!(attr_value("xa=\"2\"", "a"), None);
    assert_eq!(attr_value(" a=\"open", "a"), None);
    assert_eq!(attr_value("a=\"é\"", "a"), Some("é"));
    assert_eq!(attr_value(" a=\"\"", "a"), Some(""));
}

#[test]
fn braces_in_strings_and_comments_do_not_count() {
    let code = "{ '}' \"\\\"}\" `}` // }\n /* } */ {} }x";
    assert_eq!(find_matching_brace(code.as_bytes(), 0), Some(code.len() - 2));
    assert_eq!(find_matching_brace(b"{ '", 0), None);
    assert_eq!(find_matching_brace(b"{ '\\", 0), None);
    assert_eq!(find_outer_brace(b"a: { b: c }) {", 0), Some(13));
    assert_eq!(find_outer_brace(b"(", 0), None);
    assert_eq!(find_outer_brace(b"): { a: number } {", 0), Some(17));
    assert_eq!(find_outer_brace(b"): Promise<{ a: {} }> | { b: 1 }[] {", 0), Some(35));
    assert_eq!(find_outer_brace(b"): (a: {}) => { b: 1 } {", 0), Some(23));
    assert_eq!(find_outer_brace(b") // note:\n{", 0), Some(11));
    assert_eq!(find_outer_brace(b"): { a", 0), None);
}

#[test]
fn a_function_is_found_at_the_start_of_a_line() {
    let code = "x function A() {}\nfunction AB() {}\nfunction A(a) { return '}'; }\nrest";
    let (start, end) = find_top_level_function(code, "A").unwrap();
    assert_eq!(&code[start..end], "function A(a) { return '}'; }\n");
    assert_eq!(find_top_level_function(code, "B"), None);
    assert_eq!(find_top_level_function("function A(", "A"), None);
    assert_eq!(find_top_level_function("function A() {}", "A"), Some((0, 15)));
    assert_eq!(
        find_top_level_function("function F(): { a: number } {\n}\n", "F"),
        Some((0, 32))
    );
}

#[test]
fn candidates_have_a_name_and_a_bare_id() {
    let code = r#"<a data-name="x"><b data-name="y" data-node-id="1:1;2"><c data-node-id="1:2" data-name="z"/>"#;
    let found = find_inline_instance_candidates(code);
    assert_eq!(found.len(), 1);
    assert_eq!(found[0].tag, "c");
    assert_eq!(found[0].data_name, "z");
    assert_eq!(found[0].data_node_id, "1:2");
    assert!(found[0].self_close);
    assert_eq!(&code[found[0].tag_start..found[0].tag_end], r#"<c data-node-id="1:2" data-name="z"/>"#);
}

#[test]
fn a_missing_closing_tag_is_an_error() {
    let code = r#"x<div data-node-id="1:2" data-name="Switch">"#;
    let map = map_from(vec![("Switch", entry("@/x", "Switch"))]);
    let err = match process(code, &map) {
        Ok(_) => panic!("no closing tag"),
        Err(e) => e,
    };
    assert_eq!(err.tag, "div");
    assert_eq!(err.at, 1);
    assert_eq!(
        err.message(),
        "could not find closing </div> for opening tag at byte 1"
    );
}

#[test]
fn an_unmapped_element_need_not_end() {
    let code = r#"<div data-node-id="1:2" data-name="Switch">"#;
    let out = process(code, &map_from(vec![])).unwrap();
    assert_eq!(out.body, code);
}

#[test]
fn replacements_count_under_the_key_they_are_mapped_by() {
    let code = r#"<a data-node-id="1:9" data-name="S" /><a data-node-id="1:8" data-name="S" /><a data-node-id="1:7" data-name="T" />"#;
    let mut map = map_from(vec![("S", entry("m", "S"))]);
    map.by_node_id.insert("1:9".into(), entry("n", "N"));
    let out = process(code, &map).unwrap();
    assert_eq!(out.report.replaced.get("1:9"), Some(&1));
    assert_eq!(out.report.replaced.get("S"), Some(&1));
    assert_eq!(out.report.replaced.sum() + out.report.unmapped.sum(), 3);
    assert_eq!(
        out.body,
        r#"<N /><S /><a data-node-id="1:7" data-name="T" />"#
    );
}

#[test]
fn nested_edits_go_with_the_outer_one() {
    let code = r#"<div data-node-id="1:1" data-name="Outer"><div data-node-id="1:2" data-name="Inner" /></div>!"#;
    let map = map_from(vec![("Outer", entry("o", "Outer")), ("Inner", entry("i", "Inner"))]);
    let out = process(code, &map).unwrap();
    assert_eq!(out.body, "<Outer />!");
    assert_eq!(out.report.replaced.get("Outer"), Some(&1));
    assert_eq!(out.report.replaced.get("Inner"), None);
    assert_eq!(out.report.replaced.sum(), 1);
}

#[test]
fn different_nodes_of_one_name_are_reported() {
    let code = r#"<a data-node-id="1:1" data-name="S" /><a data-node-id="1:2" data-name="S" /><a data-node-id="1:1" data-name="S" /><a data-node-id="1:3" data-name="U" /><a data-node-id="1:4" data-name="U" />"#;
    let out = process(code, &map_from(vec![("S", entry("m", "S"))])).unwrap();
    assert_eq!(out.report.collisions.len(), 1);
    let c = &out.report.collisions[0];
    assert_eq!((c.data_name.as_str(), c.first.as_str(), c.other.as_str()), ("S", "1:1", "1:2"));
}

#[test]
fn nothing_mapped_changes_nothing() {
    let code = "function A() {}\n<a data-name=\"x\" data-node-id=\"1\">é</a>";
    let out = process(code, &InstanceMap::default()).unwrap();
    assert_eq!(out.body, code);
    assert!(out.imports.render().is_empty());
    assert!(out.report.replaced.is_empty());
    assert!(out.report.removed_functions.is_empty());
    assert_eq!(out.report.unmapped.get("x"), Some(&1));
}

#[test]
fn references_are_imported() {
    let code = "function Foo() {}\n<a data-node-id=\"1\" data-name=\"Bar\" /><Foo />";
    let map = map_from(vec![("Foo", entry("f", "default")), ("Bar", entry("b", "Baz"))]);
    let out = process(code, &map).unwrap();
    assert_eq!(out.body, "<Baz /><Foo />");
    assert_eq!(
        out.imports.render(),
        "import { Baz } from \"b\";\nimport Foo from \"f\";\n\n"
    );
}

#[test]
fn two_names_for_one_default_export_bind_the_first() {
    let code = "<a data-node-id=\"1\" data-name=\"A\" /><a data-node-id=\"2\" data-name=\"B\" />";
    let map = map_from(vec![("A", entry("m", "default")), ("B", entry("m", "default"))]);
    let out = process(code, &map).unwrap();
    assert_eq!(out.body, "<A /><B />");
    assert_eq!(out.imports.render(), "import A from \"m\";\n\n");
}
