//! A character-grid terminal renderer and a keystroke-driven word-guess
//! game, with the in-memory model verified.
//!
//! The core is the double-buffered canvas ([`screen`]): a committed view
//! of what the terminal shows and a staging buffer of pending writes,
//! reconciled by a flush that yields the minimal diff. Around it sit the
//! signed coordinate space ([`position`]), the key-event interpreter
//! ([`input`]), the guess-scoring game ([`wordl`]), the word list
//! ([`dicts`]), and the session state machines ([`session`]) that a thin
//! terminal front end drives.

pub mod position;
pub mod text;
pub mod screen;
pub mod input;
pub mod wordl;
pub mod session;
pub mod dicts;
