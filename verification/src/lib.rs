//! A multi-frame, fixed-grid character-sprite editor core.
//!
//! The crate owns the sprite frame store (one global grid shape, an ordered
//! sequence of frames, a bounded current index), the text-buffer adapters
//! that keep an editable string consistent with a typed value, the textual
//! serialization codec for whole sprites, and the editor lifecycle rules.

pub mod codec;
pub mod editor;
pub mod input_string;
pub mod numerals;
pub mod roundtrip;
pub mod sprite_format;
pub mod text;
