//! A streaming tokenizer for XML-like markup.
//!
//! Markup is read one character at a time, in a single left-to-right pass,
//! and turned into structural events: start tags with their attributes, end
//! tags and runs of text. Each event can be serialised as one JSON line.
//! Nothing is validated: malformed fragments give no event.
pub mod benchmark;
pub mod cow_parser;
pub mod emitter;
pub mod event;
pub mod laws;
pub mod parser;
pub mod tools;
pub mod whitespace;

pub use benchmark::{memory_axis_limit, record_sample, BenchmarkResult};
pub use cow_parser::{emit_chunk, start_parsing_cow};
pub use emitter::{emit_event, emit_events, end_tag, start_tag, text};
pub use event::Event;
pub use parser::{start_parsing, Tokenizer};
pub use tools::{get_attributes, process_tag};
