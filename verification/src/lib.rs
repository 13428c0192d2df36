//! Verified core of the pdfspatial PDF-to-Markdown pipeline.

pub mod taxonomy;
pub mod assemble;
pub mod layout;
pub mod text;
pub mod corpus;
pub mod metrics;
pub mod markdown;
pub mod cli;
pub mod batch;
pub mod scoreboard;
pub mod eval;
pub mod teds;
pub mod graphics;
