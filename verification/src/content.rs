//! The blocks that a tool answers with.

use vstd::prelude::*;

use crate::chars::text_or_none;
use crate::json::{member, Json};

verus! {

/// One block of an answer: text, or an image given by its encoded data.
#[derive(Debug)]
pub struct ContentBlock {
    /// `"text"`, `"image"` or another kind.
    pub block_type: String,
    pub text: String,
    pub data: Option<String>,
    pub mime_type: Option<String>,
}

/// A block with its texts taken by view.
pub struct BlockView {
    pub block_type: Seq<char>,
    pub text: Seq<char>,
    pub data: Option<Seq<char>>,
    pub mime_type: Option<Seq<char>>,
}

impl View for ContentBlock {
    type V = BlockView;

    open spec fn view(&self) -> BlockView {
        BlockView {
            block_type: self.block_type@,
            text: self.text@,
            data: text_or_none(self.data),
            mime_type: text_or_none(self.mime_type),
        }
    }
}

/// The blocks taken by view.
pub open spec fn blocks_view(l: Seq<ContentBlock>) -> Seq<BlockView> {
    l.map_values(|b: ContentBlock| b@)
}

/// How the blocks of an answer are given in a file.
#[derive(Clone, Copy, PartialEq, Eq, Structural, Debug)]
pub enum ContentForm {
    /// As a list.
    List,
    /// As the member `content` of an object.
    Envelope,
    Neither,
}

/// How the blocks of an answer are given in a value.
pub fn content_form(value: &Json) -> (res: ContentForm)
    ensures
        res == (if value@ is Array {
            ContentForm::List
        } else if member(value@, "content"@) is Some {
            ContentForm::Envelope
        } else {
            ContentForm::Neither
        }),
{
    match value {
        Json::Array(_) => ContentForm::List,
        _ => if value.get("content").is_some() {
            ContentForm::Envelope
        } else {
            ContentForm::Neither
        },
    }
}

} // verus!
