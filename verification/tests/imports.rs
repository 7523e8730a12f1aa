use figma_code_dl::imports::Imports;

#[test]
fn combines_per_module() {
    let mut imps = Imports::new();
    imps.add("@/x", "A", "A");
    imps.add("@/x", "B", "B");
    imps.add("@/y", "default", "Y");
    let rendered = imps.render();
    assert!(rendered.contains(r#"import { A, B } from "@/x";"#));
    assert!(rendered.contains(r#"import Y from "@/y";"#));
}

#[test]
fn merge_unions() {
    let mut a = Imports::new();
    a.add("@/x", "A", "A");
    let mut b = Imports::new();
    b.add("@/x", "B", "B");
    b.add("@/y", "default", "Y");
    a.merge(b);
    let r = a.render();
    assert!(r.contains(r#"import { A, B } from "@/x";"#));
    assert!(r.contains(r#"import Y from "@/y";"#));
}

#[test]
fn default_collision_first_wins() {
    let mut imps = Imports::new();
    imps.add("@/x", "default", "First");
    imps.add("@/x", "default", "Second");
    let r = imps.render();
    assert!(r.contains(r#"import First from "@/x";"#));
    assert!(!r.contains("Second"));
}

#[test]
fn empty_renders_empty() {
    assert!(Imports::new().render().is_empty());
}

#[test]
fn aliased_named_export() {
    let mut imps = Imports::new();
    imps.add("@/x", "Switch", "DSSwitch");
    let r = imps.render();
    assert!(r.contains(r#"import { Switch as DSSwitch } from "@/x";"#));
}

#[test]
fn default_and_named_share_a_statement() {
    let mut imps = Imports::new();
    imps.add("@/x", "B", "B");
    imps.add("@/x", "default", "X");
    imps.add("@/x", "A", "C");
    assert_eq!(imps.render(), "import X, { A as C, B } from \"@/x\";\n\n");
}

#[test]
fn the_last_binding_of_a_named_export_stays() {
    let mut imps = Imports::new();
    imps.add("m", "A", "One");
    imps.add("m", "A", "Two");
    assert_eq!(imps.render(), "import { A as Two } from \"m\";\n\n");
}

#[test]
fn merging_keeps_what_is_bound() {
    let mut a = Imports::new();
    a.add("m", "A", "Mine");
    a.add("m", "default", "First");
    let mut b = Imports::new();
    b.add("m", "A", "Theirs");
    b.add("m", "default", "Second");
    b.add("m", "B", "B");
    a.merge(b);
    assert_eq!(a.render(), "import First, { A as Mine, B } from \"m\";\n\n");
}

#[test]
fn the_order_of_modules_does_not_matter() {
    let mut a = Imports::new();
    a.add("m", "A", "A");
    a.add("k", "default", "K");
    let mut b = Imports::default();
    b.add("k", "default", "K");
    b.add("m", "A", "A");
    assert_eq!(a.render(), b.render());
    assert_eq!(a.render(), "import K from \"k\";\nimport { A } from \"m\";\n\n");
}

#[test]
fn any_order_of_adds_gives_the_same() {
    let adds = [("m", "B", "B"), ("k", "default", "K"), ("m", "default", "M"), ("m", "A", "X")];
    let mut expected = None;
    for turn in 0..adds.len() {
        let mut imps = Imports::new();
        for i in 0..adds.len() {
            let (module, export, local) = adds[(i * 3 + turn) % adds.len()];
            imps.add(module, export, local);
        }
        let r = imps.render();
        assert_eq!(r, *expected.get_or_insert(r.clone()));
        assert_eq!(r, "import K from \"k\";\nimport M, { A as X, B } from \"m\";\n\n");
    }
}
