//! Core engine of a desktop LLM assistant: server-sent-event framing, model
//! and provider resolution, the Codex-style streaming protocol decoder, and
//! the stream orchestration state machine, together with the peripheral
//! registries the desktop shell relies on.

pub mod codex;
pub mod events;
pub mod feishu;
pub mod json;
pub mod misc;
pub mod registry;
pub mod smap;
pub mod request;
pub mod resolver;
pub mod sse;
pub mod stream;
pub mod strutil;
pub mod title;
pub mod windows;

pub use sse::find_sse_delimiter;
