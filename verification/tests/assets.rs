use figma_code_dl::assets::{
    asset_file_name, choose_extension, explicit_relative, ext_for_content_type, ext_from_url,
    find_assets, kebab_from_const_name, rewrite_urls, sniff_ext, unique_assets, Asset, Fetched,
};
use figma_code_dl::paths::{normalize, relative_path as relative_parts, Part};
use std::path::{Component, Path, PathBuf};

fn parts(p: &Path) -> Vec<Part> {
    p.components()
        .map(|c| match c {
            Component::Prefix(p) => Part::Prefix(p.as_os_str().to_str().unwrap().into()),
            Component::RootDir => Part::Root,
            Component::CurDir => Part::Current,
            Component::ParentDir => Part::Parent,
            Component::Normal(n) => Part::Normal(n.to_str().unwrap().into()),
        })
        .collect()
}

fn path(parts: &[Part]) -> PathBuf {
    let mut res = PathBuf::new();
    for p in parts {
        match p {
            Part::Prefix(t) => res.push(t),
            Part::Root => res.push("/"),
            Part::Current => res.push("."),
            Part::Parent => res.push(".."),
            Part::Normal(t) => res.push(t),
        }
    }
    res
}

fn relative_path(from: &Path, to: &Path) -> PathBuf {
    path(&relative_parts(&parts(from), &parts(to)))
}

#[test]
fn kebab_basics() {
    assert_eq!(kebab_from_const_name("imgImage145"), "image-145");
    assert_eq!(kebab_from_const_name("imgFrameInspect"), "frame-inspect");
    assert_eq!(kebab_from_const_name("imgFrameInspect1"), "frame-inspect-1");
    assert_eq!(
        kebab_from_const_name("imgChevronForward1"),
        "chevron-forward-1"
    );
    assert_eq!(kebab_from_const_name("imgPersonAdd"), "person-add");
}

#[test]
fn ext_from_mime() {
    assert_eq!(ext_for_content_type("image/png"), Some("png"));
    assert_eq!(
        ext_for_content_type("image/svg+xml; charset=utf-8"),
        Some("svg")
    );
    assert_eq!(ext_for_content_type("image/webp"), Some("webp"));
    assert_eq!(ext_for_content_type("text/html"), None);
}

#[test]
fn sniff_png() {
    assert_eq!(sniff_ext(b"\x89PNG\r\n\x1a\nfoo"), Some("png"));
    assert_eq!(sniff_ext(b"<svg ..."), Some("svg"));
    assert_eq!(sniff_ext(b"\xff\xd8\xff"), Some("jpg"));
    assert_eq!(sniff_ext(b"???"), None);
}

#[test]
fn relative_path_sibling() {
    // tsx in src/pages/Foo.tsx → its parent is src/pages/
    // assets in src/pages/assets/img.png
    let from = Path::new("/tmp/src/pages");
    let to = Path::new("/tmp/src/pages/assets/img.png");
    let r = relative_path(from, to);
    assert_eq!(r, PathBuf::from("assets/img.png"));
}

#[test]
fn relative_path_upwards() {
    let from = Path::new("/tmp/src/components/ds/Switch");
    let to = Path::new("/tmp/src/assets/img.png");
    let r = relative_path(from, to);
    assert_eq!(r, PathBuf::from("../../../assets/img.png"));
}

#[test]
fn const_decl_re_matches() {
    let code = r#"
const imgImage145 = "https://www.figma.com/api/mcp/asset/aaaaaaaa-bbbb-cccc-dddd-eeeeeeeeeeee";
const imgFoo = "https://www.figma.com/api/mcp/asset/11111111-2222-3333-4444-555555555555";
"#;
    let m = find_assets(code);
    assert_eq!(m.len(), 2);
    assert_eq!(m[0].var, "imgImage145");
    assert_eq!(m[1].var, "imgFoo");
    assert_eq!(
        m[1].url,
        "https://www.figma.com/api/mcp/asset/11111111-2222-3333-4444-555555555555"
    );
}

#[test]
fn only_lines_that_declare_assets_count() {
    let code = " const imgA = \"http://localhost:3845/assets/ab.png\";\nconst imgB = \"http://localhost:3845/assets/ab.png\" ;\nconst imgC = \"./c.png\";";
    let m = find_assets(code);
    assert_eq!(m.len(), 1);
    assert_eq!(m[0].var, "imgB");
}

#[test]
fn each_url_is_fetched_once() {
    let a = |var: &str, url: &str| Asset {
        var: var.into(),
        url: url.into(),
    };
    let u = unique_assets(&vec![a("x", "1"), a("y", "2"), a("z", "1"), a("w", "2")]);
    assert_eq!(u.len(), 2);
    assert_eq!((u[0].var.as_str(), u[0].url.as_str()), ("x", "1"));
    assert_eq!((u[1].var.as_str(), u[1].url.as_str()), ("y", "2"));
}

#[test]
fn extensions_of_local_urls() {
    assert_eq!(ext_from_url("http://localhost:3845/assets/a.b.svg").as_deref(), Some("svg"));
    assert_eq!(ext_from_url("http://127.0.0.1:3845/assets/a.png").as_deref(), Some("png"));
    assert_eq!(ext_from_url("http://127.0.0.1:3845/assets/a"), None);
    assert_eq!(ext_from_url("http://127.0.0.1:3845/assets/a."), None);
    assert_eq!(ext_from_url("https://www.figma.com/api/mcp/asset/a.png"), None);
}

#[test]
fn all_the_content_types_and_signatures() {
    assert_eq!(ext_for_content_type(" image/jpg ;x"), Some("jpg"));
    assert_eq!(ext_for_content_type("image/jpeg"), Some("jpg"));
    assert_eq!(ext_for_content_type("image/gif"), Some("gif"));
    assert_eq!(ext_for_content_type(""), None);
    assert_eq!(sniff_ext(b"GIF87a"), Some("gif"));
    assert_eq!(sniff_ext(b"GIF89a"), Some("gif"));
    assert_eq!(sniff_ext(b"RIFF....WEBP"), Some("webp"));
    assert_eq!(sniff_ext(b"RIFF....WEB"), None);
    assert_eq!(sniff_ext(b"<?xml"), Some("svg"));
    assert_eq!(sniff_ext(b""), None);
}

#[test]
fn the_extension_of_the_url_comes_first() {
    let local = "http://localhost:3845/assets/a.svg";
    assert_eq!(choose_extension(local, "image/png", b"GIF89a").unwrap(), "svg");
    assert_eq!(choose_extension("u", "image/png", b"GIF89a").unwrap(), "png");
    assert_eq!(choose_extension("u", "text/html", b"GIF89a").unwrap(), "gif");
    let err = choose_extension("u", "text/html", b"x").unwrap_err();
    assert_eq!(
        err.message(),
        "could not determine extension for u (content-type=`text/html`)"
    );
}

#[test]
fn file_names_hold_letters_digits_and_hyphens() {
    assert_eq!(kebab_from_const_name("img"), "asset");
    assert_eq!(kebab_from_const_name("img日本"), "asset");
    assert_eq!(kebab_from_const_name("imgABCd1E_f"), "abcd-1-ef");
    assert_eq!(kebab_from_const_name("logo"), "logo");
    assert_eq!(asset_file_name("imgImage145", "png"), "image-145.png");
}

#[test]
fn paths_are_made_explicit() {
    assert_eq!(explicit_relative("a/b.png"), "./a/b.png");
    assert_eq!(explicit_relative("./a"), "./a");
    assert_eq!(explicit_relative("../a"), "../a");
    assert_eq!(explicit_relative("/a"), "/a");
    assert_eq!(explicit_relative(".a"), "./.a");
}

#[test]
fn urls_are_rewritten() {
    let f = |url: &str, relative: &str, size: u64| Fetched {
        url: url.into(),
        relative: relative.into(),
        size,
    };
    let (code, report) = rewrite_urls("a u1 u2 u1", &vec![f("u1", "x.png", 3), f("u2", "../y", 4)]);
    assert_eq!(code, "a ./x.png ../y ./x.png");
    assert_eq!(report.count, 2);
    assert_eq!(report.total_bytes, 7);
    let (same, none) = rewrite_urls("code", &vec![]);
    assert_eq!(same, "code");
    assert_eq!(none.count, 0);
}

#[test]
fn relative_paths_lead_there() {
    for (from, to) in [
        ("/a/b", "/a/b"),
        ("/a/b", "/"),
        ("/", "/a"),
        ("/a/./b/../c", "/a/d/../e/f"),
        ("/x/y/z", "/x/q"),
    ] {
        let r = relative_path(Path::new(from), Path::new(to));
        let joined = parts(Path::new(from).join(&r).as_path());
        assert_eq!(path(&normalize(&joined)), path(&normalize(&parts(Path::new(to)))));
    }
    assert_eq!(relative_path(Path::new("/a"), Path::new("/a/.")), PathBuf::from("."));
}

#[test]
fn normal_paths_keep_what_cannot_be_collapsed() {
    assert_eq!(path(&normalize(&parts(Path::new("../a/../../b")))), PathBuf::from("../../b"));
    assert_eq!(path(&normalize(&parts(Path::new("/../a")))), PathBuf::from("/../a"));
}

#[test]
fn a_root_starts_a_path_anew() {
    assert_eq!(relative_path(Path::new("a/b"), Path::new("/c")), PathBuf::from("/c"));
    assert_eq!(relative_path(Path::new("/c"), Path::new("a")), PathBuf::from("../../a"));
}

#[test]
fn no_url_is_left() {
    let f = |url: &str, relative: &str| Fetched { url: url.into(), relative: relative.into(), size: 1 };
    let urls = ["http://localhost:3845/assets/ab.png", "http://localhost:3845/assets/ab.pn"];
    let code = format!("\"{}\" \"{}\" {}{}", urls[0], urls[1], urls[0], urls[0]);
    for l in [vec![f(urls[0], "a/x.png"), f(urls[1], "y.pn")], vec![f(urls[1], "y.pn"), f(urls[0], "a/x.png")]] {
        let (out, _) = rewrite_urls(&code, &l);
        assert!(urls.iter().all(|u| !out.contains(u)), "{}", out);
    }
}

#[test]
fn hyphens_stand_between_letters() {
    for name in ["imgA-B", "img-", "img__Aa9é9A-a", "imgaA1", "img9Z9z", "é"] {
        let k = kebab_from_const_name(name);
        assert!(!k.is_empty() && !k.starts_with('-') && !k.ends_with('-') && !k.contains("--"), "{}", k);
    }
    assert_eq!(kebab_from_const_name("imgaA1"), "a-a-1");
}
