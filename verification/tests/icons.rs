use figma_code_dl::icons::{
    component_names, extract_classname, extract_src_var, has_non_img_reference, is_local_svg_path,
    make_resolved, process, resolve, DirEntry, IconConfig, OverrideValue,
};
use figma_code_dl::text_map::TextMap;

fn cfg_minimal(module: &str, overrides: &[(&str, &str)]) -> IconConfig {
    let mut map = TextMap::new();
    for (k, v) in overrides {
        map.insert(k.to_string(), OverrideValue::Name(v.to_string()));
    }
    IconConfig {
        component_dir: None,
        module: Some(module.into()),
        default_export: "named".into(),
        strip_trailing_digits: true,
        forward_classname: true,
        local_svg_import: false,
        overrides: map,
    }
}

fn none() -> Vec<String> {
    Vec::new()
}

#[test]
fn override_substitutes_img() {
    let src = r#"const imgFoo = "https://x/y.svg";
<img alt="" className="size-[24px]" src={imgFoo} />
"#;
    let cfg = cfg_minimal("@/icons", &[("imgFoo", "Foo")]);
    let out = process(src, &cfg, &none()).unwrap();
    assert!(out.body.contains(r#"<Foo className="size-[24px]" />"#));
    assert!(!out.body.contains("const imgFoo"));
    assert_eq!(out.report.replaced.get("imgFoo"), Some(&1));
    assert_eq!(out.report.const_decls_removed, 1);
}

#[test]
fn classname_dropped_when_disabled() {
    let src = r#"const imgFoo = "x";
<img src={imgFoo} className="big" />
"#;
    let mut cfg = cfg_minimal("@/icons", &[("imgFoo", "Foo")]);
    cfg.forward_classname = false;
    let out = process(src, &cfg, &none()).unwrap();
    assert!(out.body.contains("<Foo />"));
    assert!(!out.body.contains("className"));
}

#[test]
fn multiple_usages_one_import() {
    let src = r#"const imgFoo = "x";
<img src={imgFoo} />
<div><img alt="" src={imgFoo} /></div>
"#;
    let cfg = cfg_minimal("@/icons", &[("imgFoo", "Foo")]);
    let out = process(src, &cfg, &none()).unwrap();
    assert_eq!(out.report.replaced.get("imgFoo"), Some(&2));
    let rendered = out.imports.render();
    assert_eq!(rendered.matches("import").count(), 1);
    assert!(rendered.contains(r#"import { Foo } from "@/icons/Foo";"#));
}

#[test]
fn unmatched_left_alone() {
    let src = r#"const imgKnown = "x";
const imgUnknown = "y";
<img src={imgKnown} />
<img src={imgUnknown} />
"#;
    let cfg = cfg_minimal("@/icons", &[("imgKnown", "Known")]);
    let out = process(src, &cfg, &none()).unwrap();
    assert!(out.body.contains("<Known />"));
    assert!(out.body.contains("const imgUnknown"));
    assert!(out.body.contains("src={imgUnknown}"));
    assert_eq!(out.report.unmatched, vec!["imgUnknown".to_string()]);
}

#[test]
fn full_override_with_module_and_export() {
    let src = r#"const imgFoo = "x";
<img src={imgFoo} />
"#;
    let mut cfg = cfg_minimal("@/icons", &[]);
    cfg.overrides.insert(
        "imgFoo".into(),
        OverrideValue::Full {
            name: "Foo".into(),
            module: Some("@/special".into()),
            export: Some("default".into()),
        },
    );
    let out = process(src, &cfg, &none()).unwrap();
    assert!(out.body.contains("<Foo />"));
    let r = out.imports.render();
    assert!(r.contains(r#"import Foo from "@/special/Foo";"#));
}

#[test]
fn default_export_style() {
    let src = r#"const imgFoo = "x";
<img src={imgFoo} />
"#;
    let mut cfg = cfg_minimal("@/icons", &[("imgFoo", "Foo")]);
    cfg.default_export = "default".into();
    let out = process(src, &cfg, &none()).unwrap();
    assert!(out
        .imports
        .render()
        .contains(r#"import Foo from "@/icons/Foo";"#));
}

#[test]
fn scan_with_strip_trailing_digits() {
    let entries = vec![DirEntry {
        name: "ChevronForward.tsx".into(),
        is_dir: false,
        has_index: false,
    }];
    let src = r#"const imgChevronForward1 = "x";
<img src={imgChevronForward1} />
"#;
    let cfg = IconConfig {
        component_dir: Some("icons".into()),
        module: Some("@/icons".into()),
        default_export: "named".into(),
        strip_trailing_digits: true,
        forward_classname: true,
        local_svg_import: false,
        overrides: TextMap::new(),
    };
    let out = process(src, &cfg, &component_names(&entries)).unwrap();
    assert!(out.body.contains("<ChevronForward />"));
    assert!(out
        .imports
        .render()
        .contains(r#"import { ChevronForward } from "@/icons/ChevronForward";"#));
}

#[test]
fn no_module_no_match() {
    let src = r#"const imgFoo = "x";
<img src={imgFoo} />
"#;
    let cfg = IconConfig {
        component_dir: None,
        module: None,
        default_export: "named".into(),
        strip_trailing_digits: true,
        forward_classname: true,
        local_svg_import: false,
        overrides: TextMap::new(),
    };
    let out = process(src, &cfg, &none()).unwrap();
    assert!(out.body.contains("const imgFoo"));
    assert!(out.body.contains("src={imgFoo}"));
    assert_eq!(out.report.unmatched, vec!["imgFoo".to_string()]);
}

#[test]
fn keeps_const_when_referenced_outside_img() {
    // Figma emits a mask-image pattern that references the URL constant
    // in a style block. Even if `imgFoo` is mapped to a component, the
    // constant must stay defined because the style block still uses it.
    let src = r#"const imgFoo = "x";
<div style={{ maskImage: `url('${imgFoo}')` }}>
  <span />
</div>
"#;
    let cfg = cfg_minimal("@/icons", &[("imgFoo", "Foo")]);
    let out = process(src, &cfg, &none()).unwrap();
    // The const decl must remain because of the style ref.
    assert!(out.body.contains("const imgFoo"));
    // No <img> was substituted, but the resolver still saw `imgFoo`.
    assert_eq!(out.report.replaced.get("imgFoo"), None);
    assert_eq!(out.report.const_decls_removed, 0);
}

#[test]
fn deletes_const_only_when_all_uses_substituted() {
    // `imgFoo` is used both in an <img> (substituted) and in a style block
    // (kept). The decl must NOT be deleted.
    let src = r#"const imgFoo = "x";
<img src={imgFoo} />
<div style={{ maskImage: `url('${imgFoo}')` }} />
"#;
    let cfg = cfg_minimal("@/icons", &[("imgFoo", "Foo")]);
    let out = process(src, &cfg, &none()).unwrap();
    assert!(out.body.contains("const imgFoo"));
    assert!(out.body.contains("<Foo />"));
    assert!(out.body.contains("maskImage:"));
    assert_eq!(out.report.const_decls_removed, 0);
}

#[test]
fn deletes_orphan_const_with_no_remaining_references() {
    // Mirrors what happens when --map replaces an instance subtree
    // BEFORE --icons runs: the <img src={imgFoo}> tags inside the
    // subtree are gone, so icons sees the const + no usages. The const
    // should still be deleted as a dead reference.
    let src = r#"const imgFoo = "./assets/foo.svg";
<div>some unrelated content</div>"#;
    let cfg = cfg_minimal("@/icons", &[("imgFoo", "Foo")]);
    let out = process(src, &cfg, &none()).unwrap();
    assert!(!out.body.contains("const imgFoo"));
    assert_eq!(out.report.const_decls_removed, 1);
    assert!(out.imports.render().is_empty());
}

#[test]
fn deletes_const_when_all_imgs_substituted_real_world() {
    // Mirrors the actual figma-code-dl output: const declared on its
    // own line, multiple <img src={imgStylus}/> in deeply-nested JSX.
    // The outer <div> uses a DIFFERENT identifier (imgDownload) for its
    // maskImage, so imgStylus has 0 non-img references and the const
    // must be deleted.
    let src = r##"const imgStylus = "https://x";
const imgDownload = "https://y";
<div className="absolute" data-node-id="A:1" style={{ maskImage: `url('${imgDownload}')` }} data-name="stylus">
  <img alt="" className="absolute block inset-0 max-w-none size-full" src={imgStylus} />
</div>
<div className="absolute" data-node-id="A:2" style={{ maskImage: `url('${imgDownload}')` }} data-name="stylus">
  <img alt="" className="absolute block inset-0 max-w-none size-full" src={imgStylus} />
</div>"##;
    let cfg = cfg_minimal("@/icons", &[("imgStylus", "Stylus")]);
    let out = process(src, &cfg, &none()).unwrap();
    assert!(
        !out.body.contains("const imgStylus"),
        "expected `const imgStylus` deleted, got:\n{}",
        out.body
    );
    // imgDownload is still used in maskImage → must remain.
    assert!(out.body.contains("const imgDownload"));
    assert_eq!(out.report.replaced.get("imgStylus"), Some(&2));
}

#[test]
fn local_svg_imports_unmapped_svg() {
    let src = r#"const imgFoo = "./assets/foo.svg";
const imgKnown = "./assets/known.svg";
const imgPng = "./assets/photo.png";
<img alt="" className="size-[24px]" src={imgFoo} />
<img src={imgKnown} />
<img src={imgPng} />
"#;
    let mut cfg = cfg_minimal("@/icons", &[("imgKnown", "Known")]);
    cfg.local_svg_import = true;
    let out = process(src, &cfg, &none()).unwrap();

    // Override entry: handled by the DS path.
    assert!(out.body.contains("<Known />"));
    // Local-SVG entry: handled by the auto path, default import from local URL.
    assert!(out.body.contains(r#"<Foo className="size-[24px]" />"#));
    assert!(out.body.contains("const imgPng")); // PNG left as-is
    let imports = out.imports.render();
    assert!(imports.contains(r#"import Foo from "./assets/foo.svg";"#));
    assert!(imports.contains(r#"import { Known } from "@/icons/Known";"#));
}

#[test]
fn local_svg_off_keeps_unmatched_const() {
    let src = r#"const imgFoo = "./assets/foo.svg";
<img src={imgFoo} />
"#;
    let cfg = cfg_minimal("@/icons", &[]);
    let out = process(src, &cfg, &none()).unwrap();
    assert!(out.body.contains("const imgFoo"));
    assert_eq!(out.report.unmatched, vec!["imgFoo".to_string()]);
}

#[test]
fn local_svg_skips_remote_urls() {
    // Before --download-assets runs, URLs are cloud URLs without a .svg
    // extension. local_svg_import must NOT match those.
    let src = r#"const imgFoo = "https://www.figma.com/api/mcp/asset/uuid";
<img src={imgFoo} />
"#;
    let mut cfg = cfg_minimal("@/icons", &[]);
    cfg.local_svg_import = true;
    let out = process(src, &cfg, &none()).unwrap();
    assert!(out.body.contains("const imgFoo"));
    assert_eq!(out.report.unmatched, vec!["imgFoo".to_string()]);
}

#[test]
fn directories_and_files_hold_components() {
    let e = |name: &str, is_dir: bool, has_index: bool| DirEntry {
        name: name.into(),
        is_dir,
        has_index,
    };
    let names = component_names(&vec![
        e("A.tsx", false, false),
        e("B", true, true),
        e("C", true, false),
        e(".tsx", false, false),
        e("D.ts", false, false),
        e("E.x.tsx", false, false),
        e("F.tsx", true, false),
    ]);
    assert_eq!(names, vec!["A", "B", "E.x"]);
}

#[test]
fn overrides_go_before_components_and_those_before_files() {
    let scanned = vec!["Foo".to_string()];
    let mut cfg = cfg_minimal("@/icons//", &[]);
    cfg.local_svg_import = true;
    let r = resolve("imgFoo", &cfg, &scanned).unwrap();
    assert_eq!(r.component, "Foo");
    assert_eq!(r.module, "@/icons/Foo");
    cfg.overrides.insert("imgFoo".into(), OverrideValue::Name("Bar".into()));
    assert_eq!(resolve("imgFoo", &cfg, &scanned).unwrap().component, "Bar");
    let src = "const imgFoo = \"./a.svg\";\nconst imgB = \"./b.svg\";\n<img src={imgFoo}/><img src={ imgB }>";
    let out = process(src, &cfg, &scanned).unwrap();
    assert_eq!(out.body, "<Bar /><B />");
    assert_eq!(
        out.imports.render(),
        "import B from \"./b.svg\";\nimport { Bar } from \"@/icons/Bar\";\n\n"
    );
}

#[test]
fn an_override_without_any_module_matches_nothing() {
    let mut cfg = cfg_minimal("m", &[("imgFoo", "Foo")]);
    cfg.module = None;
    assert!(resolve("imgFoo", &cfg, &vec!["Foo".to_string()]).is_none());
}

#[test]
fn digits_are_stripped_only_when_asked() {
    let scanned = vec!["Chevron".to_string()];
    let mut cfg = cfg_minimal("m", &[]);
    assert_eq!(resolve("imgChevron12", &cfg, &scanned).unwrap().component, "Chevron");
    cfg.strip_trailing_digits = false;
    assert!(resolve("imgChevron12", &cfg, &scanned).is_none());
    assert_eq!(make_resolved("A", "m/", "default").export, "default");
    assert_eq!(make_resolved("A", "m/", "x").export, "A");
}

#[test]
fn svg_files_are_local_unless_absolute() {
    assert!(is_local_svg_path("./a.svg"));
    assert!(is_local_svg_path("A.SVG"));
    assert!(!is_local_svg_path("HTTPS://x/a.svg"));
    assert!(!is_local_svg_path("http://x/a.svg"));
    assert!(!is_local_svg_path("a.png"));
}

#[test]
fn the_source_of_a_tag_is_one_word() {
    assert_eq!(extract_src_var(" src={ a_1 } "), Some("a_1"));
    assert_eq!(extract_src_var("src={a.b}"), None);
    assert_eq!(extract_src_var("src={}"), None);
    assert_eq!(extract_src_var("src={a"), None);
    assert_eq!(extract_src_var("alt"), None);
    assert_eq!(extract_classname("x className=\"a b\" y"), Some("a b"));
    assert_eq!(extract_classname("className=\"a"), None);
}

#[test]
fn a_name_dangles_outside_declarations_and_images() {
    assert!(!has_non_img_reference("const imgA = \"x\";", "imgA"));
    assert!(!has_non_img_reference("<img src={imgA} />", "imgA"));
    assert!(!has_non_img_reference("imgAB _imgA imgA1", "imgA"));
    assert!(has_non_img_reference("imgA", "imgA"));
    assert!(has_non_img_reference("<div src={imgA} />", "imgA"));
    assert!(has_non_img_reference("<img alt={imgA} src={x} />", "imgA"));
    assert!(has_non_img_reference("<img src={imgB + imgA} />", "imgA"));
    assert!(has_non_img_reference("<img src={x} /> imgA >", "imgA"));
    assert!(has_non_img_reference("éimgAé", "imgA"));
    assert!(!has_non_img_reference("<img src={ imgA\n} />", "imgA"));
    assert!(has_non_img_reference("const imgFoo = \"x\";\n<img src={imgFoo.src} />\n", "imgFoo"));
    assert!(has_non_img_reference("<img src={imgA", "imgA"));
}

#[test]
fn overlapping_edits_that_do_not_fit_are_an_error() {
    let src = "<img src={imgA} alt='const imgA = \"xxxxxxxxxxxxxxxxxxxxxxxxxxxxx\";'/>";
    let cfg = cfg_minimal("m", &[("imgA", "A")]);
    let err = match process(src, &cfg, &none()) {
        Ok(_) => panic!("the edits overlap"),
        Err(e) => e,
    };
    assert_eq!(err.message(), "an image declaration and an <img> tag overlap");
}

#[test]
fn nothing_resolved_changes_nothing() {
    let src = "const imgA = \"x\";\n<img src={imgA} />\nconst imgA = \"y\";";
    let out = process(src, &cfg_minimal("m", &[]), &none()).unwrap();
    assert_eq!(out.body, src);
    assert!(out.imports.render().is_empty());
    assert_eq!(out.report.unmatched, vec!["imgA", "imgA"]);
}

#[test]
fn the_last_value_of_a_constant_counts() {
    let mut cfg = cfg_minimal("m", &[]);
    cfg.local_svg_import = true;
    let src = "const imgA = \"a.svg\";\nconst imgA = \"b.svg\";\n<img src={imgA}>";
    let out = process(src, &cfg, &none()).unwrap();
    assert_eq!(out.imports.render(), "import A from \"b.svg\";\n\n");
    assert_eq!(out.body, "<A />");
}

#[test]
fn the_second_pass_has_no_overrides() {
    let mut cfg = cfg_minimal("m", &[("imgA", "A")]);
    assert!(cfg.for_local_files().is_none());
    cfg.local_svg_import = true;
    let second = cfg.for_local_files().unwrap();
    assert!(second.overrides.is_empty());
    assert_eq!(second.module.as_deref(), Some("m"));
    assert!(IconConfig::default().for_local_files().is_none());
}

#[test]
fn defaults_are_those_of_an_empty_section() {
    let cfg = IconConfig::default();
    assert_eq!(cfg.default_export, "named");
    assert!(cfg.strip_trailing_digits && cfg.forward_classname && !cfg.local_svg_import);
    assert!(cfg.component_dir.is_none() && cfg.module.is_none() && cfg.overrides.is_empty());
}

fn holds_word(text: &str, name: &str) -> bool {
    let word = |c: char| c.is_ascii_alphanumeric() || c == '_';
    text.match_indices(name).any(|(i, _)| {
        !text[..i].ends_with(word) && !text[i + name.len()..].starts_with(word)
    })
}

#[test]
fn a_declaration_stays_while_the_body_holds_the_name() {
    let cfg = cfg_minimal("m", &[("imgFoo", "Foo"), ("imgBar", "Bar"), ("imgBaz", "Baz")]);
    for src in [
        "const imgFoo = \"x\";\n<img src={imgFoo.src} />\n",
        "const imgFoo = \"x\";\n<imgx src={imgFoo} />\n",
        "const imgFoo = \"x\";\n<img className=\"imgFoo\" src={imgFoo} />\n",
        "const imgBar = \"a imgFoo b\";\nconst imgFoo = \"x\";\n<img src={imgBar} />\n",
    ] {
        let out = process(src, &cfg, &none()).unwrap();
        for name in ["imgFoo", "imgBar"] {
            if src.contains(&format!("const {}", name)) && holds_word(&out.body, name) {
                assert!(out.body.contains(&format!("const {}", name)), "{}", out.body);
            }
        }
    }
    let out = process("const imgBaz = \"x\";\n<img src={imgBaz} />", &cfg, &none()).unwrap();
    assert_eq!(out.body, "<Baz />");
}

#[test]
fn a_component_may_have_the_name_of_its_constant() {
    let cfg = cfg_minimal("m", &[("imgFoo", "imgFoo"), ("imgBar", "imgFoo"), ("imgBaz", "Baz")]);
    let src = "const imgFoo = \"x\";\n<img src={imgFoo} />\n";
    let out = process(src, &cfg, &none()).unwrap();
    assert_eq!(out.body, "<imgFoo />\n");
    assert_eq!(out.report.const_decls_removed, 1);
    let src = "const imgFoo = \"é\";\nconst imgBar = \"y\";\n<img src={imgBar} />é<img src={imgFoo} />";
    let out = process(src, &cfg, &none()).unwrap();
    assert_eq!(out.body, "<imgFoo />é<imgFoo />");
    assert_eq!(out.report.const_decls_removed, 2);
    let src = "const imgFoo = \"x\";\n<img src={imgFoo} />{imgFoo}";
    let out = process(src, &cfg, &none()).unwrap();
    assert_eq!(out.body, "const imgFoo = \"x\";\n<imgFoo />{imgFoo}");
    assert_eq!(out.report.const_decls_removed, 0);
}
