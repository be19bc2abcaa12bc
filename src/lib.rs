//! A bounded single-site web mirror: URL canonicalization, link extraction,
//! crawl scheduling, local path mapping and link rewriting, with their
//! contracts proved.

pub mod blacklist;
pub mod config;
pub mod css;
pub mod engine;
pub mod extraction;
pub mod fetch_policy;
pub mod models;
pub mod path_calc;
pub mod rewriter;
pub mod saver;
pub mod text;
pub mod urls;
pub mod url_parser;
pub mod validation;
