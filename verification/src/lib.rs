//! An incremental, resumable JSON tokenizer.
//!
//! Bytes arrive in chunks of any size; each chunk is turned into structural
//! events (container begin and end, object keys, scalar values). The only
//! state carried from one chunk to the next is a stack of frames, so a chunk
//! boundary may fall anywhere, even inside a keyword, a number or a string.
//!
//! The modules, from the ground up:
//!
//! - `constants`, `error`, `json_value`, `json_token`, `token`: the bytes
//!   that matter, the errors, the events and the frames of the stack;
//! - `text`, `utils`, `step`: bytes to text, unwinding the stack, and what
//!   one byte does as a mathematical value;
//! - `arr`, `obj`, `other`, `val`: the handlers, one for each kind of frame
//!   that may be on top of the stack;
//! - `json_stream_reader`: the reader, and the run over a chunk;
//! - `chunks`, `shape`, `orderly`: what holds of every run: chunk
//!   boundaries are invisible, the stack keeps its shape, and events keep
//!   in step with the containers on the stack;
//! - `document`, `scan`, `reading`, `nesting`: well-formed documents, and
//!   that reading one gives its pre-order traversal, correctly nested.
pub mod arr;
pub mod chunks;
pub mod constants;
pub mod document;
pub mod error;
pub mod json_stream_reader;
pub mod json_token;
pub mod json_value;
pub mod nesting;
pub mod obj;
pub mod orderly;
pub mod other;
pub mod reading;
pub mod scan;
pub mod shape;
pub mod step;
pub mod text;
pub mod token;
pub mod utils;
pub mod val;
