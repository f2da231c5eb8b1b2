//! A builder for "rich text" documents: a text buffer plus a parallel
//! style-index buffer of equal length, together with a deduplicated table of
//! style records. Each byte of the text buffer is covered by one symbol in
//! the style-index buffer, and each symbol names the table entry that styles
//! that byte. The builder keeps the two buffers and the table synchronized
//! under appends and find/replace splices; the finished triple is handed to a
//! host display widget through the `RichTextDisplay` trait.

pub mod builder;
pub mod lemmas;
pub mod search;
pub mod style;

pub use builder::DocModel;
pub use builder::RichTextBuilder;
pub use builder::RichTextDisplay;
pub use style::Style;
pub use style::TableOverflow;
