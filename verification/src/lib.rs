//! A single-pass, zero-copy scanner for a restricted, line-oriented
//! YAML-like text format. The scanner walks the input once, character by
//! character, tracking indentation-driven nesting in a reusable key-path
//! stack, and hands every completed leaf value to a callback together with
//! the key-path that locates it. Every emitted text payload borrows from
//! the original input buffer rather than being copied.
//!
//! The behaviour of a whole scan is pinned down by the specification state
//! machine in [`model`]: [`scanner::scan_events`] is proved to return exactly
//! the event sequence that [`model::scan_model`] assigns to the input, and
//! the two callback entry points [`scanner::parse`] and
//! [`scanner::parse_with_exit_signal`] deliver those events in order, as
//! their contracts state through [`scanner::delivered_all`] and
//! [`scanner::delivered_prefix`].

pub mod data;
pub mod model;
pub mod scanner;
pub mod laws;

pub use crate::data::{
    KeyModel, MultilineModel, MultilineString, ParseOptions, RootYAMLValue, ScanEvent, ValueModel,
    YAMLKey, YAMLParseError, YAMLParseErrorReason,
};
pub use crate::scanner::{
    delivered_all, delivered_prefix, event_handed, parse, parse_with_exit_signal, scan_events,
};
