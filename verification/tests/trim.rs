use figma_code_dl::trim::{collapse_internal_spaces, trim, TrimConfig, TrimError};

fn cfg(exact: &[&str], prefixes: &[&str]) -> TrimConfig {
    TrimConfig {
        exclude_exact: exact.iter().map(|s| s.to_string()).collect(),
        exclude_prefixes: prefixes.iter().map(|s| s.to_string()).collect(),
        drop_empty_classname: true,
        strip_attributes: vec![],
    }
}

#[test]
fn exact_match_removed() {
    let src = r#"<div className="relative flex shrink-0">x</div>"#;
    let (out, r) = trim(src, &cfg(&["relative", "shrink-0"], &[])).unwrap();
    assert_eq!(out, r#"<div className="flex">x</div>"#);
    assert_eq!(r.classes_removed, 2);
}

#[test]
fn prefix_match_removed() {
    let src = r#"<div className="inset-[12.5%] mask-position-[-3px_-3px] flex">x</div>"#;
    let (out, r) = trim(src, &cfg(&[], &["inset-", "mask-"])).unwrap();
    assert_eq!(out, r#"<div className="flex">x</div>"#);
    assert_eq!(r.classes_removed, 2);
}

#[test]
fn empty_classname_dropped() {
    let src = r#"<div className="relative shrink-0">x</div>"#;
    let (out, r) = trim(src, &cfg(&["relative", "shrink-0"], &[])).unwrap();
    assert_eq!(out, "<div>x</div>");
    assert_eq!(r.classname_attrs_dropped, 1);
    assert_eq!(r.classes_removed, 2);
}

#[test]
fn empty_classname_kept_when_flag_off() {
    let mut c = cfg(&["a"], &[]);
    c.drop_empty_classname = false;
    let src = r#"<div className="a">x</div>"#;
    let (out, _) = trim(src, &c).unwrap();
    assert_eq!(out, r#"<div className="">x</div>"#);
}

#[test]
fn attribute_strip() {
    let c = TrimConfig {
        exclude_exact: vec![],
        exclude_prefixes: vec![],
        drop_empty_classname: true,
        strip_attributes: vec!["data-node-id".into(), "data-name".into()],
    };
    let src = r#"<div className="flex" data-node-id="1:2" data-name="foo">x</div>"#;
    let (out, r) = trim(src, &c).unwrap();
    assert_eq!(out, r#"<div className="flex">x</div>"#);
    assert_eq!(r.attributes_removed, 2);
}

#[test]
fn css_var_class_left_alone() {
    // Escaped slash in the class token must not break splitting.
    let src = r#"<div className="bg-[var(--color\/semantic\/background\/green,#def4f2)] flex">x</div>"#;
    let (out, _) = trim(src, &cfg(&[], &["mask-"])).unwrap();
    assert_eq!(
        out,
        r#"<div className="bg-[var(--color\/semantic\/background\/green,#def4f2)] flex">x</div>"#
    );
}

#[test]
fn self_closing_tag_cleanup() {
    let c = TrimConfig {
        exclude_exact: vec!["relative".into(), "size-full".into()],
        exclude_prefixes: vec![],
        drop_empty_classname: true,
        strip_attributes: vec!["data-node-id".into()],
    };
    let src = r#"<img alt="" className="relative size-full" data-node-id="x" src={img} />"#;
    let (out, _) = trim(src, &c).unwrap();
    assert_eq!(out, r#"<img alt="" src={img} />"#);
}

#[test]
fn report_byte_counts() {
    let src = r#"<div className="relative flex">x</div>"#;
    let (out, r) = trim(src, &cfg(&["relative"], &[])).unwrap();
    assert_eq!(r.bytes_before, src.len());
    assert_eq!(r.bytes_after, out.len());
    assert!(r.bytes_after < r.bytes_before);
}

fn realistic_snippet() -> String {
    r##"<div className="bg-white content-stretch flex items-start relative size-full" data-node-id="1:2" data-name="Page">
  <div className="bg-[var(--color\/semantic\/background\/green,#def4f2)] content-stretch flex items-center pb-[24px] pt-[16px] px-[16px] relative shrink-0" data-node-id="1523:5825" data-name="Navi">
    <div className="relative shrink-0 size-[40px]" data-node-id="I1:1" data-name="symbol_pattern">
      <img alt="" className="absolute block inset-0 max-w-none size-full" src={imgSymbolPattern} />
    </div>
    <div className="absolute inset-[12.5%] mask-alpha mask-intersect mask-no-clip mask-no-repeat mask-position-[-3px_-3px] mask-size-[24px_24px]" data-node-id="I1:2" style={{ maskImage: `url('${imgFrameInspect}')` }} data-name="frame_inspect">
      <img alt="" className="absolute block inset-0 max-w-none size-full" src={imgFrameInspect1} />
    </div>
  </div>
</div>"##
        .to_string()
}

fn realistic_cfg() -> TrimConfig {
    let mut c = cfg(
        &[
            "relative",
            "block",
            "shrink-0",
            "content-stretch",
            "max-w-none",
            "size-full",
            "absolute",
        ],
        &["inset-", "mask-"],
    );
    c.strip_attributes = vec!["data-node-id".into(), "data-name".into()];
    c
}

#[test]
fn trims_realistic_snippet() {
    let src = realistic_snippet();
    let cfg = realistic_cfg();
    let (out, report) = trim(&src, &cfg).unwrap();

    for needle in [
        "content-stretch",
        "shrink-0",
        " relative",
        "max-w-none",
        "size-full",
        "inset-[12.5%]",
        "mask-alpha",
        "mask-no-clip",
        "data-node-id",
        "data-name",
    ] {
        assert!(
            !out.contains(needle),
            "expected `{}` trimmed; got:\n{}",
            needle,
            out
        );
    }

    for needle in [
        "className=\"bg-white",
        "bg-[var(--color\\/semantic\\/background\\/green,#def4f2)]",
        "items-center",
        "pb-[24px]",
        "src={imgFrameInspect1}",
    ] {
        assert!(
            out.contains(needle),
            "expected `{}` to remain; got:\n{}",
            needle,
            out
        );
    }

    assert!(report.bytes_after < report.bytes_before);
    let pct = (report.bytes_before - report.bytes_after) as f64 / report.bytes_before as f64;
    assert!(
        pct > 0.25,
        "expected ≥25% byte reduction, got {:.1}%",
        pct * 100.0
    );
    assert!(report.classes_removed > 0);
    assert!(report.attributes_removed > 0);
}

#[test]
fn indentation_stays() {
    assert_eq!(
        collapse_internal_spaces("  \t  a   b \n   c\n\n x  y"),
        "  \t  a b \n   c\n\n x y"
    );
    assert_eq!(collapse_internal_spaces(""), "");
    assert_eq!(collapse_internal_spaces("    "), "    ");
}

#[test]
fn white_space_between_classes_is_closed_up() {
    let (out, r) = trim("<a className=\"  x \n y\u{a0}z\">", &cfg(&[], &[""])).unwrap();
    assert_eq!(out, "<a className=\"x y z\">");
    assert_eq!(r.classes_removed, 0);
}

#[test]
fn nothing_to_trim_changes_nothing() {
    let src = "  <a className=\"x y\" b=\"c\">é</a>\n";
    let (out, r) = trim(src, &TrimConfig::default()).unwrap();
    assert_eq!(out, src);
    assert_eq!(r.classes_removed + r.attributes_removed + r.classname_attrs_dropped, 0);
    assert_eq!(r.bytes_before, r.bytes_after);
}

#[test]
fn empty_classes_are_dropped_too() {
    let (out, r) = trim("<a className=\"\" b>", &cfg(&[], &[])).unwrap();
    assert_eq!(out, "<a b>");
    assert_eq!(r.classname_attrs_dropped, 1);
}

#[test]
fn names_of_attributes_are_taken_literally() {
    let mut c = cfg(&[], &[]);
    c.strip_attributes = vec!["".into(), "a.b".into()];
    let (out, r) = trim("<x a.b=\"1\" axb=\"2\"\n\ta.b=\"\" />", &c).unwrap();
    assert_eq!(out, "<x axb=\"2\" />");
    assert_eq!(r.attributes_removed, 2);
}

#[test]
fn tags_without_attributes_are_closed_up() {
    let (out, _) = trim("<a  ><b   /><c d  >", &TrimConfig::default()).unwrap();
    assert_eq!(out, "<a><b /><c d >");
}

#[test]
fn a_name_too_long_for_a_pattern_is_an_error() {
    let mut c = cfg(&[], &[]);
    c.strip_attributes = vec!["é".repeat(4_000_000)];
    let err = trim("<a>", &c).unwrap_err();
    assert_eq!(err.attribute.len(), 8_000_000);
    let e = TrimError { attribute: "a".into() };
    assert_eq!(e.message(), "no pattern for the attribute a");
}

#[test]
fn filtering_once_more_changes_nothing() {
    let c = cfg(&["a"], &["b-"]);
    let (once, first) = trim("<x className=\" a  b-1 c\td \">", &c).unwrap();
    let (twice, second) = trim(&once, &c).unwrap();
    assert_eq!(once, "<x className=\"c d\">");
    assert_eq!(once, twice);
    assert_eq!((first.classes_removed, second.classes_removed), (2, 0));
}

#[test]
fn long_names_have_patterns_and_text_does_not_grow() {
    let mut c = cfg(&[], &[]);
    c.strip_attributes = vec!["😀".repeat(10_000), "-".repeat(10_000), "\u{0}\n ".repeat(3_000)];
    let src = "<x  className=\"\u{3000}a\u{3000}b\" ><y   />\n   <z />";
    let (out, r) = trim(src, &c).unwrap();
    assert_eq!(out, "<x className=\"a b\" ><y />\n   <z />");
    assert!(r.bytes_after <= r.bytes_before);
}

#[test]
fn defaults_of_the_trim_section() {
    let c = TrimConfig::default();
    assert!(c.drop_empty_classname);
    let (out, r) = trim("<a className=\"\" b>", &c).unwrap();
    assert_eq!(out, "<a b>");
    assert_eq!(r.classname_attrs_dropped, 1);
}

#[test]
fn names_just_beyond_the_sure_length_still_have_patterns() {
    let mut c = cfg(&[], &[]);
    let name = "a".repeat(10_001);
    c.strip_attributes = vec![name.clone(), "é".repeat(4_000_000), "b".repeat(20_000_000)];
    assert_eq!(trim("<x>", &c).unwrap_err().attribute, "é".repeat(4_000_000));
    c.strip_attributes.truncate(1);
    let (out, r) = trim(&format!("<x {}=\"1\" y>", name), &c).unwrap();
    assert_eq!((out.as_str(), r.attributes_removed), ("<x y>", 1));
}
