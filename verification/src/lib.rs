//! The decision logic of an AUR helper with an optional AI layer.

pub mod chat;
pub mod deps;
pub mod editor;
pub mod html;
pub mod json;
pub mod live_view;
pub mod markdown;
pub mod menu;
pub mod packages;
pub mod prompt;
pub mod reply;
pub mod search;
pub mod session;
pub mod sort;
pub mod sse;
pub mod stream;
pub mod style;
pub mod targets;
pub mod text;
pub mod tools;
pub mod web;
pub mod width;
