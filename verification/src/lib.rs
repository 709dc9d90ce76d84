//! Core library for `kb`: a Markdown knowledge base that keeps `nb`'s
//! on-disk formats, ids and command language.

pub mod bookmark;
pub mod browse;
pub mod cli;
pub mod convert;
pub mod create;
pub mod encrypt;
pub mod frontmatter;
pub mod git;
pub mod index;
pub mod items;
pub mod migrate;
pub mod note;
pub mod plugins;
pub mod output;
pub mod paths;
pub mod search;
pub mod render;
pub mod run;
pub mod selector;
pub mod settings;
pub mod shell;
pub mod since;
pub mod sync;
pub mod text;
pub mod theme;
pub mod todo;
pub mod workspace;
pub mod yaml;
