use figma_code_dl::colors::{normalize_hex, process, ColorMap, VariableEntry, VariableFile};

fn file_from(pairs: &[(Option<&str>, &str)]) -> VariableFile {
    VariableFile {
        comment: None,
        generated_at: None,
        variables: pairs
            .iter()
            .map(|(css, hex)| VariableEntry {
                css: css.map(|s| s.to_string()),
                figma_name: None,
                hex: hex.to_string(),
            })
            .collect(),
    }
}

#[test]
fn substitutes_exact_match() {
    // No `/` in the css name → escape is a no-op, output identical to user's
    // preferred `--blue-100` form.
    let file = file_from(&[(Some("--blue-100"), "#DEF4F2")]);
    let map = ColorMap::from_file(&file);
    let src = r#"<div className="bg-[#def4f2] text-[#3D4047]">x</div>"#;
    let (out, r) = process(src, &map);
    assert_eq!(
        out,
        r#"<div className="bg-[var(--blue-100,#def4f2)] text-[#3D4047]">x</div>"#
    );
    assert_eq!(r.substitutions, 1);
}

#[test]
fn case_insensitive_lookup() {
    let file = file_from(&[(Some("--c"), "#def4f2")]);
    let map = ColorMap::from_file(&file);
    let (out, _) = process(r#"className="bg-[#DEF4F2]""#, &map);
    assert!(out.contains("var(--c,#DEF4F2)"));
}

#[test]
fn three_digit_hex_normalized() {
    // The dumped Figma value is full hex; the source may use the 3-digit form.
    let file = file_from(&[(Some("--white"), "#FFFFFF")]);
    let map = ColorMap::from_file(&file);
    let (out, r) = process(r#"className="bg-[#fff]""#, &map);
    assert_eq!(out, r#"className="bg-[var(--white,#fff)]""#);
    assert_eq!(r.substitutions, 1);
}

#[test]
fn variable_without_codesyntax_skipped() {
    let file = file_from(&[(None, "#DEF4F2"), (Some(""), "#CFCFD1")]);
    let map = ColorMap::from_file(&file);
    assert!(map.is_empty());
    let (out, r) = process(r#"className="bg-[#def4f2] border-[#cfcfd1]""#, &map);
    assert_eq!(out, r#"className="bg-[#def4f2] border-[#cfcfd1]""#);
    assert_eq!(r.substitutions, 0);
}

#[test]
fn unmatched_hex_left_alone() {
    let file = file_from(&[(Some("--known"), "#DEF4F2")]);
    let map = ColorMap::from_file(&file);
    let (out, r) = process(r#"className="bg-[#abcdef]""#, &map);
    assert_eq!(out, r#"className="bg-[#abcdef]""#);
    assert_eq!(r.substitutions, 0);
}

#[test]
fn multiple_substitutions_same_hex() {
    let file = file_from(&[(Some("--g"), "#DEF4F2")]);
    let map = ColorMap::from_file(&file);
    let (out, r) = process(
        r#"<div className="bg-[#def4f2]"><span className="text-[#def4f2]" /></div>"#,
        &map,
    );
    assert_eq!(r.substitutions, 2);
    assert_eq!(r.by_hex.get("DEF4F2"), Some(&2));
    assert_eq!(out.matches("var(--g,").count(), 2);
}

#[test]
fn first_entry_wins_on_hex_collision() {
    let file = file_from(&[
        (Some("--primary"), "#CFCFD1"),
        (Some("--secondary"), "#CFCFD1"),
    ]);
    let map = ColorMap::from_file(&file);
    let (out, _) = process(r#"className="border-[#cfcfd1]""#, &map);
    assert!(out.contains("--primary"));
    assert!(!out.contains("--secondary"));
}

#[test]
fn escapes_slashes_to_match_mcp_format() {
    let file = file_from(&[(Some("--color/semantic/background/green"), "#DEF4F2")]);
    let map = ColorMap::from_file(&file);
    let src = r#"className="bg-[#def4f2]""#;
    let (out, _) = process(src, &map);
    assert_eq!(
        out,
        r#"className="bg-[var(--color\/semantic\/background\/green,#def4f2)]""#
    );
}

#[test]
fn does_not_touch_existing_var_form() {
    let file = file_from(&[(Some("--blue-100"), "#DEF4F2")]);
    let map = ColorMap::from_file(&file);
    // MCP already emitted var(...) form. Our regex requires `[#...]` shape,
    // so this should not be re-wrapped.
    let src = r#"className="bg-[var(--color\/semantic\/background\/green,#def4f2)]""#;
    let (out, r) = process(src, &map);
    assert_eq!(out, src);
    assert_eq!(r.substitutions, 0);
}

#[test]
fn colors_are_normalized() {
    assert_eq!(normalize_hex("#abc").as_deref(), Some("AABBCC"));
    assert_eq!(normalize_hex("##aabbcc").as_deref(), Some("AABBCC"));
    assert_eq!(normalize_hex("AABBCC").as_deref(), Some("AABBCC"));
    assert_eq!(normalize_hex("aabbccdd"), None);
    assert_eq!(normalize_hex("xyz"), None);
    assert_eq!(normalize_hex(""), None);
    for s in ["#abc", "DeAdBe", "123"] {
        let once = normalize_hex(s).unwrap();
        assert_eq!(normalize_hex(&once).as_deref(), Some(once.as_str()));
        assert_eq!(normalize_hex(&s.to_ascii_lowercase()), Some(once));
    }
}

#[test]
fn only_usable_entries_count() {
    let map = ColorMap::from_file(&file_from(&[
        (None, "#111111"),
        (Some(""), "#111"),
        (Some("--one"), "#111111"),
        (Some("--two"), "#111"),
        (Some("--bad"), "red"),
    ]));
    assert_eq!(map.len(), 1);
    assert_eq!(map.lookup("#111"), Some("--one"));
    assert_eq!(map.lookup("222222"), None);
    assert_eq!(map.lookup("red"), None);
    assert!(ColorMap::default().is_empty());
}

#[test]
fn without_variables_nothing_is_replaced() {
    let map = ColorMap::from_file(&VariableFile::default());
    let (out, r) = process("é [#fff]", &map);
    assert_eq!(out, "é [#fff]");
    assert_eq!(r.substitutions, 0);
    assert!(r.by_hex.is_empty());
}

#[test]
fn a_second_pass_changes_nothing() {
    let map = ColorMap::from_file(&file_from(&[(Some("--a/b"), "#DEF4F2"), (Some("--w"), "#fff")]));
    let src = "[[#def4f2] é [#FFF][#fff] [#abc] [#def4f] [#def4f2";
    let (once, first) = process(src, &map);
    assert_eq!(first.substitutions, 3);
    assert_eq!(first.by_hex.sum(), 3);
    let (twice, second) = process(&once, &map);
    assert_eq!(once, twice);
    assert_eq!(second.substitutions, 0);
}
