//! A structured org-mode document library: a parser that turns org text into
//! a heading tree, a writer that turns the tree back into text, path
//! resolution for addressing headings, and the editing operations of the
//! `chorg` command line tool.

pub mod text;
pub mod model;
pub mod parser;
pub mod writer;
pub mod path;
pub mod ops;
pub mod display;
pub mod roundtrip;
