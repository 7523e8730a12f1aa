use figma_code_dl::content::ContentBlock;
use figma_code_dl::screenshot::{decode_screenshot, Screenshot, ScreenshotError};

fn decode_and_write(blocks: &Vec<ContentBlock>) -> Result<Screenshot, String> {
    decode_screenshot(blocks).map_err(|e| match e {
        ScreenshotError::NoImage(_) => "no image block".to_string(),
        ScreenshotError::NoData => "missing data".to_string(),
        ScreenshotError::NotBase64 => "not base64".to_string(),
    })
}

#[test]
fn decodes_image_block_to_disk() {
    // 1x1 transparent PNG, base64-encoded.
    let png_b64 = "iVBORw0KGgoAAAANSUhEUgAAAAEAAAABCAQAAAC1HAwCAAAAC0lEQVR42mNkYAAAAAYAAjCB0C8AAAAASUVORK5CYII=";
    let blocks = vec![
        ContentBlock {
            block_type: "text".into(),
            text: "ignored".into(),
            data: None,
            mime_type: None,
        },
        ContentBlock {
            block_type: "image".into(),
            text: String::new(),
            data: Some(png_b64.into()),
            mime_type: Some("image/png".into()),
        },
    ];
    let shot = decode_and_write(&blocks).unwrap();
    assert_eq!(shot.report.mime_type, "image/png");
    assert!(shot.report.bytes_written > 0);
    assert_eq!(shot.report.bytes_written, shot.bytes.len() as u64);
    assert!(shot.bytes.starts_with(b"\x89PNG\r\n\x1a\n"));
}

#[test]
fn errors_when_no_image_block() {
    let blocks = vec![ContentBlock {
        block_type: "text".into(),
        text: "only text".into(),
        data: None,
        mime_type: None,
    }];
    let err = decode_and_write(&blocks).unwrap_err();
    assert!(err.to_string().contains("no image block"));
}

#[test]
fn errors_when_image_block_missing_data() {
    let blocks = vec![ContentBlock {
        block_type: "image".into(),
        text: String::new(),
        data: None,
        mime_type: Some("image/png".into()),
    }];
    let err = decode_and_write(&blocks).unwrap_err();
    assert!(err.to_string().contains("missing data"));
}

#[test]
fn errors_say_what_is_wrong() {
    assert_eq!(
        ScreenshotError::NoImage(12).message(),
        "MCP `get_screenshot` returned 12 content block(s) but none of type=\"image\"; expected a base64 PNG payload"
    );
    assert_eq!(
        ScreenshotError::NoData.message(),
        "image content block from `get_screenshot` is missing the `data` field"
    );
    assert_eq!(
        ScreenshotError::NotBase64.message(),
        "base64-decoding the screenshot payload"
    );
}

#[test]
fn data_is_decoded_with_padding() {
    let block = |data: &str| ContentBlock {
        block_type: "image".into(),
        text: String::new(),
        data: Some(data.into()),
        mime_type: None,
    };
    let shot = decode_screenshot(&vec![block("aGVsbG8="), block("!")]).unwrap();
    assert_eq!(shot.bytes, b"hello");
    assert_eq!(shot.report.mime_type, "image/png");
    assert_eq!(decode_and_write(&vec![block("aGVsbG8")]).unwrap_err(), "not base64");
    assert_eq!(decode_screenshot(&vec![block("")]).unwrap().bytes, b"");
}
