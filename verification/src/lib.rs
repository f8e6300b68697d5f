//! Core of a personal code-snippet manager: the snippet record model, two
//! persistence codecs (a compact binary form and a streamed structural form),
//! pure query functions over snippet collections, and a presentation engine
//! that renders a snippet into ordered styled text runs.

pub mod binary;
pub mod lang;
pub mod render;
pub mod snippet;
pub mod structural;
pub mod text;
pub mod time;

pub use binary::DecodeError;
pub use lang::{Color, LanguageEntry, LanguageTable};
pub use render::{Style, StyledRun};
pub use snippet::{Snippet, SnippetModel};
pub use structural::ImportError;
pub use time::Timestamp;
