//! Syntax-aware source rendering: a shared style palette across grammars, a
//! resolver that turns overlapping capture ranges into a properly nested
//! open/close/text event stream, and a renderer that splits that stream into
//! independently balanced output lines of escaped markup.

pub mod engine;
pub mod events;
pub mod resolve;
pub mod markup;
pub mod oracle;
pub mod palette;
pub mod render;
pub mod render_props;
pub mod stream_props;

pub use engine::Highlighter;
pub use events::{Event, Fragment, HighlightError, OutputLine, RawCapture};
