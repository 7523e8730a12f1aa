//! The image in the answer of the `get_screenshot` tool.

use base64::Engine;
use vstd::prelude::*;
use vstd::string::*;

use crate::chars::{decimal, decimal_text};
use crate::content::{blocks_view, BlockView, ContentBlock};
use crate::text::same;

verus! {

/// How large an image was, and of which type.
#[derive(Debug)]
pub struct ScreenshotReport {
    pub bytes_written: u64,
    pub mime_type: String,
}

/// An image: its bytes, and what to report of it.
#[derive(Debug)]
pub struct Screenshot {
    pub bytes: Vec<u8>,
    pub report: ScreenshotReport,
}

/// Why there is no image.
#[derive(Debug)]
pub enum ScreenshotError {
    /// None of so many blocks is an image.
    NoImage(usize),
    /// The image has no data.
    NoData,
    /// Its data is not in base64.
    NotBase64,
}

impl ScreenshotError {
    pub fn message(&self) -> (res: String)
        ensures
            res@ == match *self {
                ScreenshotError::NoImage(n) => "MCP `get_screenshot` returned "@ + decimal(n as nat)
                    + " content block(s) but none of type=\"image\"; expected a base64 PNG payload"@,
                ScreenshotError::NoData =>
                    "image content block from `get_screenshot` is missing the `data` field"@,
                ScreenshotError::NotBase64 => "base64-decoding the screenshot payload"@,
            },
    {
        match self {
            ScreenshotError::NoImage(n) => {
                let mut res: String = "MCP `get_screenshot` returned ".to_string();
                res.append(decimal_text(*n as u64).as_str());
                res.append(
                    " content block(s) but none of type=\"image\"; expected a base64 PNG payload",
                );
                res
            },
            ScreenshotError::NoData =>
                "image content block from `get_screenshot` is missing the `data` field".to_string(),
            ScreenshotError::NotBase64 => "base64-decoding the screenshot payload".to_string(),
        }
    }
}

/// The bytes that a text in base64 stands for, where it is in base64.
pub uninterp spec fn base64_bytes(text: Seq<char>) -> Option<Seq<u8>>;

/// `base64::engine::general_purpose::STANDARD.decode`: the bytes that a text
/// with the standard alphabet and padding stands for. Whether it succeeds, and
/// the bytes, depend on the text alone.
#[verifier::external_body]
fn decode_base64(text: &str) -> (res: Option<Vec<u8>>)
    ensures
        match res {
            Some(bytes) => base64_bytes(text@) == Some(bytes@),
            None => base64_bytes(text@) is None,
        },
{
    base64::engine::general_purpose::STANDARD.decode(text).ok()
}

/// The first block from `i` on that is an image.
pub open spec fn first_image(l: Seq<BlockView>, i: int) -> Option<BlockView>
    decreases l.len() - i,
{
    if i < 0 || i >= l.len() {
        None
    } else if l[i].block_type == "image"@ {
        Some(l[i])
    } else {
        first_image(l, i + 1)
    }
}

/// The type of an image: `image/png` where it is not given.
pub open spec fn type_of(image: BlockView) -> Seq<char> {
    match image.mime_type {
        Some(t) => t,
        None => "image/png"@,
    }
}

/// What an image block with the decoded data gives.
pub open spec fn is_screenshot(
    image: BlockView,
    decoded: Option<Seq<u8>>,
    res: Result<Screenshot, ScreenshotError>,
) -> bool {
    match decoded {
        Some(bytes) => res matches Ok(s) && s.bytes@ == bytes && s.report.bytes_written
            == bytes.len() && s.report.mime_type@ == type_of(image),
        None => res matches Err(ScreenshotError::NotBase64),
    }
}

/// The data of the first image among the blocks, with its type.
pub fn find_image(blocks: &Vec<ContentBlock>) -> (res: Result<(&str, String), ScreenshotError>)
    ensures
        match first_image(blocks_view(blocks@), 0) {
            None => res matches Err(ScreenshotError::NoImage(n)) && n == blocks@.len(),
            Some(image) => match image.data {
                None => res matches Err(ScreenshotError::NoData),
                Some(data) => res matches Ok((d, t)) && d@ == data && t@ == type_of(image),
            },
        },
{
    let ghost all = blocks_view(blocks@);
    let mut i: usize = 0;
    while i < blocks.len()
        invariant
            i <= blocks@.len(),
            all == blocks_view(blocks@),
            first_image(all, 0) == first_image(all, i as int),
        decreases blocks@.len() - i,
    {
        let b = &blocks[i];
        assert(all[i as int] == b@);
        if same(b.block_type.as_str(), "image") {
            return match &b.data {
                None => Err(ScreenshotError::NoData),
                Some(data) => Ok(
                    (
                        data.as_str(),
                        match &b.mime_type {
                            Some(t) => t.clone(),
                            None => "image/png".to_string(),
                        },
                    ),
                ),
            };
        }
        i += 1;
    }
    Err(ScreenshotError::NoImage(blocks.len()))
}

/// The image that the decoded data gives.
pub fn screenshot_of(decoded: Option<Vec<u8>>, mime_type: String) -> (res: Result<
    Screenshot,
    ScreenshotError,
>)
    ensures
        match decoded {
            Some(bytes) => res matches Ok(s) && s.bytes == bytes && s.report.bytes_written
                == bytes@.len() && s.report.mime_type == mime_type,
            None => res matches Err(ScreenshotError::NotBase64),
        },
{
    match decoded {
        None => Err(ScreenshotError::NotBase64),
        Some(bytes) => {
            let n: u64 = bytes.len() as u64;
            Ok(Screenshot { bytes, report: ScreenshotReport { bytes_written: n, mime_type } })
        },
    }
}

/// The image in the blocks of an answer.
pub fn decode_screenshot(blocks: &Vec<ContentBlock>) -> (res: Result<Screenshot, ScreenshotError>)
    ensures
        match first_image(blocks_view(blocks@), 0) {
            None => res matches Err(ScreenshotError::NoImage(n)) && n == blocks@.len(),
            Some(image) => match image.data {
                None => res matches Err(ScreenshotError::NoData),
                Some(data) => is_screenshot(image, base64_bytes(data), res),
            },
        },
{
    match find_image(blocks) {
        Err(e) => Err(e),
        Ok((data, mime_type)) => screenshot_of(decode_base64(data), mime_type),
    }
}

proof fn lemma_first_image(l: Seq<BlockView>, i: int, k: int)
    requires
        0 <= i <= k <= l.len(),
        forall|j: int| i <= j < k ==> (#[trigger] l[j]).block_type != "image"@,
        k < l.len() ==> l[k].block_type == "image"@,
    ensures
        first_image(l, i) == if k < l.len() {
            Some(l[k])
        } else {
            None
        },
    decreases k - i,
{
    if i < k {
        lemma_first_image(l, i + 1, k);
    }
}

/// The image is the first block of that kind, wherever it stands among others.
/// There is none exactly where no block is of that kind.
pub proof fn law_first_image(l: Seq<BlockView>, k: int)
    requires
        0 <= k <= l.len(),
        forall|j: int| 0 <= j < k ==> (#[trigger] l[j]).block_type != "image"@,
    ensures
        k < l.len() && l[k].block_type == "image"@ ==> first_image(l, 0) == Some(l[k]),
        k == l.len() ==> first_image(l, 0) is None,
{
    if k == l.len() || l[k].block_type == "image"@ {
        lemma_first_image(l, 0, k);
    }
}

/// An image is of the type that it says, and a PNG image where it says nothing.
/// Its bytes are those that its data decodes to, all of them and no others.
pub proof fn law_screenshot(
    image: BlockView,
    decoded: Option<Seq<u8>>,
    res: Result<Screenshot, ScreenshotError>,
)
    requires
        is_screenshot(image, decoded, res),
    ensures
        res is Ok <==> decoded is Some,
        res matches Ok(s) ==> s.bytes@ == decoded->0 && s.report.bytes_written == decoded->0.len(),
        res matches Ok(s) ==> (image.mime_type matches Some(t) ==> s.report.mime_type@ == t),
        res matches Ok(s) ==> (image.mime_type is None ==> s.report.mime_type@ == "image/png"@),
{
}

} // verus!
