//! Builds labelled hierarchies (trees and cycles) from lists of `X->Y` edge entries.
pub mod union_find;
pub mod graph;
pub mod models;
pub mod labels;
pub mod hierarchy;
pub mod parser;
pub mod response;
