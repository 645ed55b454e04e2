use vstd::prelude::*;

pub mod accumulator;
pub mod codec;
pub mod compress;
pub mod container;
pub mod decompress;
pub mod input;
pub mod level;
pub mod models;
pub mod parser;
pub mod pipeline;
pub mod registry;
pub mod roundtrip;
pub mod template;
pub mod text;
