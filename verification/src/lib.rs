//! assetcanon: domain and asset canonicalization with DNS validation rules.
//!
//! Dirty input goes through the stages `extract`, `normalize`, `classify`, `dedupe`, `scope`
//! and `dns`. Each stage can be used by itself; `pipeline` puts the first ones together.
//! `options` turns options into configurations, and `output` says what is shown.

pub mod big;
pub mod cdn;
pub mod classify;
pub mod dedupe;
pub mod dns;
pub mod extract;
pub mod ip;
pub mod lists;
pub mod model;
pub mod normalize;
pub mod numbers;
pub mod options;
pub mod order;
pub mod output;
pub mod pipeline;
pub mod psl;
pub mod scope;
pub mod text;
