use vstd::prelude::*;

pub mod text;
pub mod number;
pub mod frontmatter;
pub mod links;
pub mod tags;
pub mod slug;
pub mod stamp;
pub mod note;
pub mod query;
pub mod sync;
pub mod store;
pub mod index;
pub mod view;
pub mod cli;
pub mod images;
pub mod ocr;
pub mod config;

verus! {
} // verus!
