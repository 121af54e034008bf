//! Reports the relative change between two versions of a set of named numeric
//! tuning parameters, as published by an automated parameter-tuning service.
//!
//! The pipeline is a pure function chain: raw text is parsed into named
//! numeric records, corresponding records are paired positionally and scored
//! with a range-normalized change fraction, pairs are ranked by magnitude of
//! change, and the ranking is rendered as an aligned, color-annotated table.
//!
//! Numeric values are exact fixed-point numbers with nine decimal places,
//! stored as a signed count of billionths; see [`num`].

pub mod num;
pub mod page;
pub mod record;
pub mod render;
pub mod report;
pub mod score;
pub mod text;
