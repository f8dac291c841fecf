use vstd::prelude::*;

pub mod text;
pub mod generate;
pub mod tokenizer;
pub mod sequence;
pub mod engine;
pub mod models;
pub mod pipeline;
pub mod server;
pub mod timing;
pub mod laya;

verus! {
} // verus!
