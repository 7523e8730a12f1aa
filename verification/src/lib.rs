//! Turning the code of a Figma design into a clean React file.

pub mod assets;
pub mod block;
pub mod calendar;
pub mod channel;
pub mod chars;
pub mod colors;
pub mod content;
pub mod edit;
pub mod element;
pub mod figma_url;
pub mod icons;
pub mod imports;
pub mod instance_map;
pub mod json;
pub mod jsx;
pub mod mcp;
pub mod output;
pub mod paths;
pub mod pattern;
pub mod replace;
pub mod screenshot;
pub mod session;
pub mod substitute;
pub mod text;
pub mod text_map;
pub mod trim;
pub mod variables_dump;
