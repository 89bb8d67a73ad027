//! Culling of RAW+JPEG pairs: the rules of the tool, without its window.
use vstd::prelude::*;

pub mod app;
pub mod catalog;
pub mod delete;
pub mod frame;
pub mod keys;
pub mod layout;
pub mod lineedit;
pub mod loader;
pub mod makernote;
pub mod meta;
pub mod order;
pub mod paths;
pub mod relocate;
pub mod render;
pub mod scale;
pub mod scene;
pub mod state;
pub mod tags;
pub mod text;

verus! {

} // verus!
