//! Scanning of ANSI escape sequences out of text lines.
//!
//! A line of raw text is split into its plain characters and the escape
//! sequences embedded in it.  The result of one scan is an [`AnsiString`]:
//! the stripped text together with an ordered list of attribute changes,
//! each an offset into the stripped text paired with an opaque attribute
//! token.  A [`ANSIParser`](scanner::ANSIParser) keeps the one piece of
//! state that survives from line to line: the most recently seen attribute
//! token, which seeds a following line that opens with plain text.

pub mod grammar;
pub mod laws;
pub mod registry;
pub mod scanner;
pub mod styled;

pub use registry::AttrRegistry;
pub use registry::AttrToken;
pub use scanner::ANSIParser;
pub use styled::AnsiString;
pub use styled::AnsiStringIterator;
