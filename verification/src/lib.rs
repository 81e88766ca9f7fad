//! Verified core of a packwiz modlist generator: the packwiz metadata model,
//! project selection and caching, modlist formatting and ordering, ignore-file
//! maintenance, and the reading of mod metadata embedded in jars.

pub mod text;
pub mod object;
pub mod output;
pub mod cache;
pub mod data;
pub mod error;
pub mod ignore;
pub mod local;
