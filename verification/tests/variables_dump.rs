use figma_code_dl::calendar::{epoch_to_ymd_hms, iso_timestamp};
use figma_code_dl::channel::channel_byte;
use figma_code_dl::colors::ColorMap;
use figma_code_dl::content::{content_form, ContentBlock, ContentForm};
use figma_code_dl::json::{parse_json, Json};
use figma_code_dl::variables_dump::{
    css_from_lowercase, derive_css_from_name, extract_hex, parse_blocks, parse_hex_string,
    rgb_to_hex, summarize, variable_file, variable_from, variables_of, with_extra_extension,
    FILE_COMMENT,
};

fn block(text: &str) -> ContentBlock {
    ContentBlock {
        block_type: "text".into(),
        text: text.into(),
        data: None,
        mime_type: None,
    }
}

fn bits(rgb: (f64, f64, f64)) -> (u64, u64, u64) {
    (rgb.0.to_bits(), rgb.1.to_bits(), rgb.2.to_bits())
}

#[test]
fn parses_real_local_mcp_shape() {
    // Actual shape returned by the local Dev Mode MCP: flat
    // name -> value map, hex strings or Font(...) descriptors.
    let blocks = vec![block(
        r##"{
              "Theme/Text/Accent": "#29c1af",
              "Theme/Background/Surface": "#ffffff",
              "My Collection/Background/Gray": "#CFCFD1",
              "Typography/Heading/Bold-18": "Font(family: \"Sans\", size: 18)",
              "Palette/Gray/80": "#3D4047"
            }"##,
    )];
    let out = parse_blocks(&blocks).unwrap();
    assert_eq!(out.len(), 4); // Font entry skipped
    let by_name: std::collections::HashMap<_, _> = out
        .iter()
        .map(|v| (v.figma_name.clone().unwrap(), v))
        .collect();
    assert_eq!(
        by_name["Theme/Text/Accent"].css.as_deref(),
        Some("--theme/text/accent")
    );
    assert_eq!(by_name["Theme/Text/Accent"].hex, "#29C1AF");
    assert_eq!(
        by_name["My Collection/Background/Gray"].css.as_deref(),
        Some("--my-collection/background/gray")
    );
    assert_eq!(by_name["Palette/Gray/80"].hex, "#3D4047");
}

#[test]
fn parses_flat_array_of_variables() {
    let blocks = vec![block(
        r##"[
  { "name": "color/semantic/background/green",
    "resolvedType": "COLOR",
    "value": "#DEF4F2",
    "codeSyntax": { "WEB": "--blue-100" } },
  { "name": "black/black_60",
    "resolvedType": "COLOR",
    "value": "#6E7075" }
]"##,
    )];
    let out = parse_blocks(&blocks).unwrap();
    assert_eq!(out.len(), 2);
    assert_eq!(out[0].css.as_deref(), Some("--blue-100"));
    assert_eq!(out[0].hex, "#DEF4F2");
    assert!(out[1].css.is_none());
    assert_eq!(out[1].hex, "#6E7075");
}

#[test]
fn parses_object_with_variables_wrapper() {
    let blocks = vec![block(
        r##"{ "variables": [
  { "name": "x", "resolvedType": "COLOR", "value": "#FFFFFF",
    "codeSyntax": { "WEB": "--white" } }
] }"##,
    )];
    let out = parse_blocks(&blocks).unwrap();
    assert_eq!(out.len(), 1);
    assert_eq!(out[0].css.as_deref(), Some("--white"));
}

#[test]
fn parses_rgb_floats() {
    let blocks = vec![block(
        r##"[
  { "name": "x", "resolvedType": "COLOR",
    "value": { "r": 1.0, "g": 1.0, "b": 1.0 },
    "codeSyntax": { "WEB": "--white" } }
]"##,
    )];
    let out = parse_blocks(&blocks).unwrap();
    assert_eq!(out[0].hex, "#FFFFFF");
}

#[test]
fn parses_values_by_mode() {
    let blocks = vec![block(
        r##"[
  { "name": "x", "resolvedType": "COLOR",
    "valuesByMode": { "Light": "#DEF4F2" },
    "codeSyntax": { "WEB": "--blue-100" } }
]"##,
    )];
    let out = parse_blocks(&blocks).unwrap();
    assert_eq!(out[0].hex, "#DEF4F2");
}

#[test]
fn skips_non_color_variables() {
    let blocks = vec![block(
        r##"[
  { "name": "spacing/md", "resolvedType": "FLOAT", "value": 16 },
  { "name": "color/x", "resolvedType": "COLOR", "value": "#000000",
    "codeSyntax": { "WEB": "--black" } }
]"##,
    )];
    let out = parse_blocks(&blocks).unwrap();
    assert_eq!(out.len(), 1);
    assert_eq!(out[0].css.as_deref(), Some("--black"));
}

#[test]
fn non_json_block_does_not_panic() {
    let blocks = vec![block("this is not json")];
    let err = parse_blocks(&blocks).unwrap_err();
    assert!(err.message().contains("no parseable JSON"));
}

#[test]
fn hex_strings_normalize_correctly() {
    assert_eq!(parse_hex_string("#fff").unwrap(), "#FFFFFF");
    assert_eq!(parse_hex_string("FFFFFF").unwrap(), "#FFFFFF");
    assert_eq!(parse_hex_string("#DeAdBe").unwrap(), "#DEADBE");
    assert_eq!(parse_hex_string("#FFFFFFFF").unwrap(), "#FFFFFF"); // drops alpha
    assert!(parse_hex_string("#gg").is_none());
}

#[test]
fn rgb_to_hex_rounds_correctly() {
    assert_eq!(rgb_to_hex(bits((0.0, 0.0, 0.0))), "#000000");
    assert_eq!(rgb_to_hex(bits((1.0, 1.0, 1.0))), "#FFFFFF");
    assert_eq!(rgb_to_hex(bits((0.871, 0.957, 0.949))), "#DEF4F2");
}

fn by_float(c: f64) -> u8 {
    (c.clamp(0.0, 1.0) * 255.0).round() as u8
}

#[test]
fn channels_round_as_doubles_do() {
    let mut state: u64 = 0x9e37_79b9_7f4a_7c15;
    for i in 0..200_000u64 {
        state ^= state << 13;
        state ^= state >> 7;
        state ^= state << 17;
        let c = (state >> 11) as f64 / (1u64 << 53) as f64;
        assert_eq!(channel_byte(c.to_bits()), by_float(c));
        // Around the halves, where rounding turns.
        let half = ((i % 255) as f64 + 0.5) / 255.0;
        for b in [half.to_bits() - 1, half.to_bits(), half.to_bits() + 1] {
            assert_eq!(channel_byte(b), by_float(f64::from_bits(b)));
        }
    }
    for c in [
        0.0,
        -0.0,
        -1.0,
        2.0,
        1.0,
        f64::INFINITY,
        f64::NEG_INFINITY,
        f64::NAN,
        f64::MIN_POSITIVE,
        5e-324,
        1e-300,
        0.5,
        0.001,
        0.00196,
        0.0019607843137254902,
        0.9980392156862745,
    ] {
        assert_eq!(channel_byte(f64::to_bits(c)), by_float(c), "{}", c);
    }
    for e in 0..2048u64 {
        for m in [0u64, 1, 0x8_0000_0000_0000, 0xf_ffff_ffff_ffff] {
            let b = (e << 52) | m;
            assert_eq!(channel_byte(b), by_float(f64::from_bits(b)));
        }
    }
}

#[test]
fn numbers_of_every_kind_are_channels() {
    let j = parse_json(r#"{"r": 1, "g": -3, "b": 0.5}"#).unwrap();
    assert_eq!(extract_hex(&j).as_deref(), Some("#FF0080"));
    let no = parse_json(r#"{"r": 1, "g": "1", "b": 0.5}"#).unwrap();
    assert_eq!(extract_hex(&no), None);
}

#[test]
fn colors_are_looked_for_in_order() {
    let hex = |t: &str| extract_hex(&parse_json(t).unwrap());
    assert_eq!(hex(r##"{"value":"#111","hex":"#222"}"##).as_deref(), Some("#222222"));
    assert_eq!(hex(r##"{"value":"no","resolvedValue":"333"}"##).as_deref(), Some("#333333"));
    assert_eq!(hex(r##"{"value":{"r":0,"g":0,"b":1}}"##).as_deref(), Some("#0000FF"));
    assert_eq!(
        hex(r##"{"valuesByMode":{"a":"no","b":{"r":1,"g":0,"b":0},"c":"#123"}}"##).as_deref(),
        Some("#FF0000")
    );
    assert_eq!(hex(r##"{"valuesByMode":[]}"##), None);
    assert_eq!(hex("[]"), None);
}

#[test]
fn types_and_code_syntax_are_read_in_either_form() {
    let var = |t: &str| variable_from(&parse_json(t).unwrap());
    assert!(var(r##"{"type":"color","hex":"#111"}"##).is_some());
    assert!(var(r##"{"type":"STRING","hex":"#111"}"##).is_none());
    assert!(var(r##"{"type":"other","hex":"#111"}"##).is_none());
    assert!(var(r##"{"resolvedType":1,"type":"FLOAT","hex":"#111"}"##).is_some());
    let css = |t: &str| var(t).unwrap().css;
    assert_eq!(css(r##"{"hex":"#111","codeSyntax":{"web":"--w"}}"##).as_deref(), Some("--w"));
    assert_eq!(
        css(r##"{"hex":"#111","codeSyntax":{"WEB":1},"codeSyntaxWeb":"--f"}"##).as_deref(),
        Some("--f")
    );
    assert_eq!(css(r##"{"hex":"#111","code_syntax_web":"--g"}"##).as_deref(), Some("--g"));
    assert_eq!(css(r##"{"hex":"#111","codeSyntax":"x"}"##), None);
    assert!(var("[]").is_none());
}

#[test]
fn variables_are_collected_from_every_shape() {
    let names = |t: &str| -> Vec<String> {
        parse_blocks(&vec![block(t)])
            .unwrap()
            .into_iter()
            .map(|v| format!("{}|{}|{}", v.figma_name.unwrap_or_default(), v.css.unwrap_or_default(), v.hex))
            .collect()
    };
    assert_eq!(names(r##"[[{"hex":"#111"}], {"tokens":{"A B":"#222"}}]"##), vec![
        "||#111111",
        "A B|--a-b|#222222"
    ]);
    assert_eq!(names(r##"{"collections":[{"items":[{"hex":"#333"}]}],"x":"#444"}"##), vec!["||#333333"]);
    assert_eq!(names(r##"{"colors":1,"variables":{"É":{"hex":"#555"}," ":"#666"}}"##), vec![
        " ||#666666",
        "É|--é|#555555"
    ]);
    assert_eq!(names(r##"{"k":{"hex":"#777","name":"n","codeSyntaxWeb":"--c"},"l":[],"m":1}"##), vec![
        "n|--c|#777777"
    ]);
    assert_eq!(names("3"), Vec::<String>::new());
}

#[test]
fn only_text_blocks_count() {
    let mut image = block(r##"{"a":"#111"}"##);
    image.block_type = "image".into();
    assert!(parse_blocks(&vec![image]).is_err());
    assert!(variables_of(&vec![]).is_err());
    let out = parse_blocks(&vec![block("no"), block(r##"{"a":"#111"}"##), block("[]")]).unwrap();
    assert_eq!(out.len(), 1);
}

#[test]
fn dumped_colors_are_looked_up() {
    let out = parse_blocks(&vec![block(r##"{"A":"#abc","B":"#AABBCCDD"}"##)]).unwrap();
    let map = ColorMap::from_file(&variable_file(out, "now".into()));
    assert_eq!(map.len(), 1);
    assert_eq!(map.lookup("#aabbcc"), Some("--a"));
}

#[test]
fn names_become_css_variables() {
    assert_eq!(derive_css_from_name(" \t"), None);
    assert_eq!(derive_css_from_name("A  B/Ä").as_deref(), Some("--a--b/ä"));
    assert_eq!(css_from_lowercase("a b"), "--a-b");
}

#[test]
fn the_file_and_the_report() {
    let vars = parse_blocks(&vec![block(
        r##"[{"hex":"#111","codeSyntaxWeb":"--x"},{"hex":"#222","codeSyntaxWeb":""},{"hex":"#333"}]"##,
    )])
    .unwrap();
    let report = summarize(&vars, "raw".into());
    assert_eq!(report.variables_total, 3);
    assert_eq!(report.variables_with_codesyntax, 1);
    assert_eq!(report.raw_path, "raw");
    let file = variable_file(vars, "t".into());
    assert_eq!(file.comment.as_deref(), Some(FILE_COMMENT));
    assert_eq!(file.generated_at.as_deref(), Some("t"));
    assert_eq!(file.variables.len(), 3);
    assert_eq!(with_extra_extension(Some("foo"), "raw.json"), "foo.raw.json");
    assert_eq!(with_extra_extension(None, "raw.json"), "variables.raw.json");
}

#[test]
fn dates_of_seconds() {
    assert_eq!(epoch_to_ymd_hms(0), (1970, 1, 1, 0, 0, 0));
    assert_eq!(epoch_to_ymd_hms(-1), (1969, 12, 31, 23, 59, 59));
    assert_eq!(epoch_to_ymd_hms(951_782_400), (2000, 2, 29, 0, 0, 0));
    assert_eq!(epoch_to_ymd_hms(4_107_542_400), (2100, 3, 1, 0, 0, 0));
    assert_eq!(iso_timestamp(1_779_705_000), "2026-05-25T10:30:00Z");
    assert_eq!(iso_timestamp(-62_167_219_200), "0000-01-01T00:00:00Z");
    assert_eq!(iso_timestamp(-62_167_219_201), "-001-12-31T23:59:59Z");
    let (_, m, d, h, mi, s) = epoch_to_ymd_hms(i64::MIN);
    assert!(m >= 1 && m <= 12 && d >= 1 && d <= 31 && h < 24 && mi < 60 && s < 60);
}

#[test]
fn every_day_comes_once_and_in_order() {
    let mut last = (1899, 12, 31);
    for day in -25_567i64..30_000 {
        let (y, m, d, _, _, _) = epoch_to_ymd_hms(day * 86_400);
        let next_day = (y, m, d) == (last.0, last.1, last.2 + 1);
        let next_month = (y, m, d) == (last.0, last.1 + 1, 1);
        let next_year = (y, m, d) == (last.0 + 1, 1, 1) && (last.1, last.2) == (12, 31);
        assert!(next_day || next_month || next_year);
        last = (y, m, d);
    }
}

#[test]
fn json_keeps_what_was_written() {
    let j = parse_json(r#"{"b":[null,true,"t"],"a":18446744073709551615,"c":-1}"#).unwrap();
    assert!(matches!(j.get("a"), Some(Json::Number(n)) if n.natural == Some(u64::MAX)));
    assert!(matches!(j.get("c"), Some(Json::Number(n)) if n.natural.is_none() && n.double == Some((-1f64).to_bits())));
    match j.get("b") {
        Some(Json::Array(l)) => {
            assert!(matches!(l[0], Json::Null));
            assert!(matches!(l[1], Json::Bool(true)));
            assert_eq!(l[2].as_text(), Some("t"));
        }
        _ => panic!("a list"),
    }
    assert!(j.get("d").is_none());
    assert!(parse_json("{").is_none());
    assert_eq!(parse_json("[]").map(|j| content_form(&j)), Some(ContentForm::List));
    assert_eq!(content_form(&parse_json(r#"{"content":1}"#).unwrap()), ContentForm::Envelope);
    assert_eq!(content_form(&parse_json("{}").unwrap()), ContentForm::Neither);
}

#[test]
fn other_types_give_nothing() {
    let count = |t: &str| parse_blocks(&vec![block(t)]).unwrap().len();
    assert_eq!(count(r##"[{"name": "link", "resolvedType": "STRING", "value": "#FFFFFF"}]"##), 0);
    assert_eq!(count(r##"{"type": "FLOAT", "valuesByMode": {}, "a": "#111"}"##), 0);
    assert_eq!(count(r##"{"type": "FLOAT", "r": 0, "g": 0, "b": 1, "a": "#111"}"##), 0);
    assert_eq!(count(r##"{"type": "set", "variables": [{"hex": "#111"}]}"##), 1);
    assert_eq!(count(r##"{"type": 1, "a": "#111"}"##), 1);
}

#[test]
fn lists_by_name_may_hold_a_type() {
    let names = |t: &str| -> Vec<String> {
        parse_blocks(&vec![block(t)]).unwrap().into_iter().map(|v| v.figma_name.unwrap()).collect()
    };
    assert_eq!(names(r##"{"bg": "#FFFFFF", "type": "#112233"}"##), ["bg", "type"]);
    assert_eq!(names(r##"{"type": "#112233", "value": "#FFFFFF"}"##), ["type", "value"]);
    assert_eq!(names(r##"{"bg": "#FFFFFF", "type": "dark"}"##), ["bg"]);
    assert_eq!(names(r##"{"resolvedType": "FLOAT", "a": "#111"}"##), ["a"]);
}
