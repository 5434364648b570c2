//! Constituency trees: fold a sentence into a binary tree by merging
//! adjacent constituents, then mark every node with a syntactic category.

pub mod constituent;
pub mod merge;
pub mod text;
pub mod mark;
pub mod annotated;
