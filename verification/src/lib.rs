//! Subword navigation: cursor movement, selection and deletion by subwords
//! (camelCase humps, snake_case parts, digit runs and separator-delimited words)
//! over UTF-8 text addressed by byte offsets.

pub mod text;
pub mod char_class;
pub mod lines;
pub mod error;
pub mod boundary;
pub mod selection;
pub mod remap;
pub mod commands;
