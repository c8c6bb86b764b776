//! mdbabel: run the fenced code blocks of a markdown document.
//!
//! A document is scanned line by line for directives: an HTML-style
//! comment holding a header (`<!-- mdbabel :name some-name -->`) followed
//! immediately by a fenced code block. Each directive carries the fence's
//! language tag and the verbatim body of the block; a registry maps the
//! tag to the program that should run the body.

pub mod executor;
pub mod markdown;
pub mod scan;
