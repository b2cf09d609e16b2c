//! Parsing Markdown text into a typed document tree, with rendering to HTML
//! and back to Markdown.
//!
//! The block level splits the text into lines and tries a fixed list of
//! recognizers at each line; the inline level scans each line character by
//! character. Every input parses: syntax that does not complete falls back
//! to plain text.

pub mod block;
pub mod generator;
pub mod html;
pub mod html_block;
pub mod inline;
pub mod laws;
pub mod text;
pub mod tree;

pub use tree::{Block, ListItem, OrderedListType, Span};

use vstd::prelude::*;
use crate::block::{document_of, parse_blocks};
use crate::generator::md_blocks;
use crate::html::blocks_html;
use crate::tree::blocks_view;

verus! {

/// Parses Markdown text into its blocks.
pub fn parse(md: &str) -> (r: Vec<Block>)
    ensures
        blocks_view(r@) == document_of(md@),
{
    parse_blocks(md)
}

/// Converts a Markdown string to its document tree.
pub fn tokenize(text: &str) -> (r: Vec<Block>)
    ensures
        blocks_view(r@) == document_of(text@),
{
    parse_blocks(text)
}

/// Converts a Markdown string to HTML.
pub fn to_html(text: &str) -> (r: String)
    ensures
        r@ == blocks_html(document_of(text@)),
{
    let blocks = parse_blocks(text);
    html::to_html(&blocks)
}

/// Converts a document tree back to Markdown text.
pub fn generate_markdown(x: Vec<Block>) -> (r: String)
    ensures
        r@ == md_blocks(blocks_view(x@)),
{
    generator::generate(x)
}

} // verus!
