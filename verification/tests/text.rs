use figma_code_dl::chars::{
    between, decimal_text, join, replace_char, replace_text, split_lines, split_words, trim,
};
use figma_code_dl::edit::{edit_each, keep_outermost, sort, splice, Edit, Order};
use figma_code_dl::imports::Imports;
use figma_code_dl::output::{
    assemble, config_path, histogram, inject_asset_const_note, AUTO_ASSET_NOTE, AUTO_IMPORT_NOTE,
};
use figma_code_dl::pattern::{known_matches, OPENING_TAG};
use figma_code_dl::substitute::{group_text, substitute_all};
use figma_code_dl::text_map::{less, TextMap};

fn edit(start: usize, end: usize, replacement: &str) -> Edit {
    Edit {
        start,
        end,
        replacement: replacement.into(),
    }
}

#[test]
fn edits_in_order_are_spliced() {
    let text = "aéb-c";
    assert_eq!(splice(text, &vec![edit(0, 1, "x"), edit(3, 3, "!"), edit(5, 6, "")]), "xé!b-");
    assert_eq!(splice(text, &vec![]), text);
}

#[test]
fn edits_in_reverse_give_the_same() {
    let text = "0123456789";
    let forward = vec![edit(1, 3, "ab"), edit(3, 4, ""), edit(8, 10, "xyz")];
    let shuffled = vec![edit(3, 4, ""), edit(8, 10, "xyz"), edit(1, 3, "ab")];
    let backward = sort(&shuffled, &Order::Backward);
    assert_eq!(edit_each(text, &backward), Some(splice(text, &forward)));
}

#[test]
fn edits_that_do_not_fit_give_nothing() {
    assert_eq!(edit_each("é", &vec![edit(1, 1, "x")]), None);
    assert_eq!(edit_each("abc", &vec![edit(0, 2, ""), edit(0, 3, "")]), None);
    assert_eq!(edit_each("abc", &vec![edit(2, 1, "")]), None);
    assert_eq!(edit_each("abc", &vec![edit(0, 2, ""), edit(0, 1, "d")]).as_deref(), Some("d"));
}

#[test]
fn the_outermost_edits_stay() {
    let all = vec![edit(5, 6, ""), edit(0, 4, "a"), edit(0, 9, "b"), edit(9, 10, "c"), edit(8, 12, "")];
    let sorted = sort(&all, &Order::Outer);
    let starts: Vec<(usize, usize)> = sorted.iter().map(|e| (e.start, e.end)).collect();
    assert_eq!(starts, vec![(0, 9), (0, 4), (5, 6), (8, 12), (9, 10)]);
    let kept: Vec<(usize, usize)> = keep_outermost(&sorted).iter().map(|e| (e.start, e.end)).collect();
    assert_eq!(kept, vec![(0, 9), (9, 10)]);
}

#[test]
fn maps_list_their_keys_in_order() {
    let mut map = TextMap::new();
    for k in ["b", "a", "é", "ab", "Z"] {
        assert_eq!(map.insert(k.to_string(), k.len()), None);
    }
    assert_eq!(map.insert("a".to_string(), 9), Some(1));
    let keys: Vec<&str> = (0..map.len()).map(|i| map.key_at(i)).collect();
    assert_eq!(keys, vec!["Z", "a", "ab", "b", "é"]);
    assert_eq!(map.get("a"), Some(&9));
    assert!(!map.contains_key("c"));
    assert!(less("a", "ab") && !less("b", "ab") && !less("a", "a"));
    let mut counts: TextMap<u32> = TextMap::new();
    counts.count("x");
    counts.count("x");
    assert_eq!(counts.get("x"), Some(&2));
    counts.insert("x".into(), u32::MAX);
    counts.count("x");
    assert_eq!(counts.get("x"), Some(&0));
}

#[test]
fn histograms_go_from_large_to_small() {
    let mut counts: TextMap<u32> = TextMap::new();
    for (k, n) in [("b", 2), ("a", 2), ("c", 5), ("d", 1)] {
        counts.insert(k.into(), n);
    }
    let h = histogram(&counts);
    let shown: Vec<(&str, u32)> = h.iter().map(|e| (e.0.as_str(), e.1)).collect();
    assert_eq!(shown, vec![("c", 5), ("a", 2), ("b", 2), ("d", 1)]);
    assert_eq!(counts.sum(), 10);
}

#[test]
fn the_note_stands_above_the_first_constant() {
    let body = "x\nconst imgA = 1;\nconst imgB = 2;\n";
    assert_eq!(
        inject_asset_const_note(body),
        format!("x\n{}const imgA = 1;\nconst imgB = 2;\n", AUTO_ASSET_NOTE)
    );
    assert_eq!(inject_asset_const_note(" const imgA = 1;"), " const imgA = 1;");
}

#[test]
fn the_file_is_put_together() {
    let mut imports = Imports::new();
    assert_eq!(assemble("// h\n", &imports, "body"), "// h\nbody");
    imports.add("m", "A", "A");
    assert_eq!(
        assemble("// h\n", &imports, "const imgA = \"x\";"),
        format!(
            "// h\n{}import {{ A }} from \"m\";\n\n{}const imgA = \"x\";",
            AUTO_IMPORT_NOTE, AUTO_ASSET_NOTE
        )
    );
    assert!(AUTO_IMPORT_NOTE.ends_with("in the repo.\n//\n"));
    assert!(AUTO_IMPORT_NOTE.lines().all(|l| l.starts_with("//")));
    assert!(AUTO_ASSET_NOTE.lines().all(|l| l.starts_with("//")));
}

#[test]
fn a_given_file_goes_before_the_usual_one() {
    assert_eq!(config_path(Some("a".into()), false, "b").as_deref(), Some("a"));
    assert_eq!(config_path(Some("a".into()), true, "b").as_deref(), Some("a"));
    assert_eq!(config_path(None, true, "b").as_deref(), Some("b"));
    assert_eq!(config_path(None, false, "b"), None);
}

#[test]
fn matches_come_with_their_groups() {
    let text = "é<a b>< c><D/>";
    let found = known_matches(OPENING_TAG, text);
    assert_eq!(found.len(), 2);
    assert_eq!(found[0][0], Some((2, 7)));
    assert_eq!(group_text(text, &found[0], 1), "a");
    assert_eq!(group_text(text, &found[0], 2), " b");
    assert_eq!(group_text(text, &found[1], 2), "/");
    assert_eq!(group_text(text, &found[1], 3), "");
    assert_eq!(substitute_all(text, &found, "_"), "é_< c>_");
}

#[test]
fn words_lines_and_replacements() {
    let owned = |l: &[&str]| -> Vec<String> { l.iter().map(|s| s.to_string()).collect() };
    for s in ["", " a  b\u{2003}c\n", "x", "  ", "\u{85}é"] {
        let expected: Vec<&str> = s.split_whitespace().collect();
        assert_eq!(split_words(s), owned(&expected));
        assert_eq!(trim(s), s.trim());
    }
    for s in ["", "a", "a\n", "\n\nb\r\n", "é\nx"] {
        let expected: Vec<&str> = s.split_inclusive('\n').collect();
        assert_eq!(split_lines(s), owned(&expected));
    }
    for (s, a, b) in [("aaa", "aa", "b"), ("xay", "a", "aa"), ("é", "", "-"), ("", "", "-"), ("ab", "c", "d")] {
        assert_eq!(replace_text(s, a, b), s.replace(a, b));
    }
    assert_eq!(replace_char("a/b/", '/', "\\/"), "a\\/b\\/");
    assert_eq!(between("x(a)b)", "(", ")"), Some("a"));
    assert_eq!(between("x(a", "(", ")"), None);
    assert_eq!(join(&owned(&["a", "b", "c"]), ", "), "a, b, c");
    assert_eq!(join(&vec![], ", "), "");
    assert_eq!(decimal_text(0), "0");
    assert_eq!(decimal_text(u64::MAX), u64::MAX.to_string());
}
