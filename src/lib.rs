//! Vocabulary curation: cleaning raw word lists, classifying words by
//! their endings and fanning them out into per-length groups.
pub mod alphabet;
pub mod chars;
pub mod output;
pub mod parse;
pub mod pipeline;
pub mod rule;
pub mod text;

pub use alphabet::English;
pub use output::{Writer, OFF, ON};
pub use parse::{Forbid, Parse};
pub use pipeline::{App, Voc};
pub use rule::Word;
pub use text::{classify, Category, Str};
