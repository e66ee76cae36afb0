//! Markdown / MDX formatter core: line-based formatting rules driven by an
//! mdast analysis, with verified contracts.
pub mod text;
pub mod types;
pub mod lines;
pub mod ops;
pub mod pattern;
pub mod html_formatter;
pub mod yaml;
pub mod ast;
pub mod parser;
pub mod rules;
pub mod jsx;
pub mod jsx_rules;
pub mod lists;
pub mod report;
pub mod list_rules;
pub mod yaml_emit;
pub mod formatter;
pub mod paths;
pub mod config;
pub mod discovery;
pub mod run;
