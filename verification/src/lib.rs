//! A layered model of text buffers with positional annotations.
//!
//! The crate has three tightly coupled parts: line-addressed text storage
//! with range edits (splices), persistent *marks* that track edits with a
//! configurable gravity, and *regions* — mark-delimited views of a parent
//! buffer that answer to the same line/column interface.
//!
//! Everything is specified against a mathematical model of the buffer: a
//! non-empty sequence of newline-free lines ([`text`]), a lexicographic
//! order on `(row, col)` coordinates ([`position`]), and a drift function
//! that says where each mark lands after a splice ([`mark`]).

pub mod buffer;
pub mod complete_buffer;
pub mod cursor;
pub mod error;
pub mod mark;
pub mod position;
pub mod region;
pub mod state;
pub mod text;

pub use buffer::TextBuffer;
pub use error::{BufferError, Error};
pub use mark::{Gravity, MarkId};
pub use position::Position;
pub use region::BufferRegion;
