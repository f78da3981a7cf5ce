//! Terminal chat: message formats, text markup and name rules, verified with Verus.

pub mod ameon;
pub mod chat;
pub mod codec;
pub mod demo;
pub mod escapes;
pub mod format;
pub mod frame;
pub mod le;
pub mod names;
pub mod text;
