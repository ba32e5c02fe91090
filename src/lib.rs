//! Parsing of a markdown-like text into front-matter metadata and a tree of
//! sections and content blocks.
//!
//! The text goes through three stages: `meta::split_meta` takes off the
//! metadata block, `lexer::lex` classifies each line of the body, and
//! `builder::build` folds the classified lines into parts.

pub mod text;
pub mod lexer;
pub mod meta;
pub mod doc;
pub mod builder;

use vstd::prelude::*;
use crate::builder::{build, gap_free, tree, StructuralError};
use crate::doc::{parts_view, Part};
use crate::lexer::{classify_all, lex};
use crate::meta::{meta_view, split_front, split_meta, Meta};

verus! {

/// A parsed document: its metadata and its parts.
#[derive(Debug, PartialEq, Eq)]
pub struct Markdown {
    pub meta: Meta,
    pub parts: Vec<Part>,
}

/// A document made of metadata and parts.
pub fn assemble(meta: Meta, parts: Vec<Part>) -> (r: Markdown)
    ensures
        r.meta == meta,
        r.parts == parts,
{
    Markdown { meta, parts }
}

/// Parses `file`: its metadata as `split_front` says, and the parts that its body's
/// lines make. Fails exactly when a header of the body skips a level.
pub fn parse(file: &str) -> (r: Result<Markdown, StructuralError>)
    ensures
        r is Ok <==> gap_free(classify_all(split_front(file@).1)),
        r matches Ok(md) ==> meta_view(md.meta@) == split_front(file@).0 && parts_view(md.parts@)
            == tree(classify_all(split_front(file@).1)),
        r matches Err(e) ==> e is LevelGap,
{
    let (meta, body) = split_meta(file);
    let lines = match lex(body.as_str()) {
        Ok(ks) => ks,
        Err(()) => {
            return Err(StructuralError::Internal);
        },
    };
    match build(&lines) {
        Ok(parts) => Ok(assemble(meta, parts)),
        Err(e) => Err(e),
    }
}

} // verus!
