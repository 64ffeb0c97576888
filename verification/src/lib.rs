//! Parsing of WebVTT cue payloads into semantic fragments.
//!
//! A cue payload is the raw text of one subtitle cue.  It may carry inline
//! "karaoke" markup of the form `<timestamp><c>text</c>`, which anchors a
//! span of text to the moment it becomes active.  This crate models such a
//! payload as an ordered sequence of fragments (plain literal text, or
//! timestamp-anchored text), provides a total parser from strings to
//! fragment sequences, and renders fragments back to their markup form.

pub mod cue_payload;
pub mod scan;
pub mod timestamp;

pub use cue_payload::parse_cue_payload;
pub use cue_payload::VttCueFragment;
pub use cue_payload::VttCuePayload;
pub use timestamp::VttTimestamp;
