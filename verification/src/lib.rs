//! A small local model that watches a token stream: the bookkeeping around its forward passes.
//!
//! Every stream token is teacher-forced through the model and scored against the distribution that
//! predicted it. A token that surprises the model fires, and the model then comments on what it has
//! just read, on a second sequence of the same cache, while the stream goes on. This library holds
//! the rules of that: what is decoded where, when a token fires, when the context is rebuilt, what
//! an aside is asked and when it ends. Numbers in single precision are carried by bit pattern and
//! computed by the caller.

pub mod backend;
pub mod feed;
pub mod headless;
pub mod json;
pub mod lobe;
pub mod number;
pub mod numerics;
pub mod options;
pub mod present;
pub mod present_scene;
pub mod present_worker;
pub mod prompt;
pub mod retrieval;
pub mod sprite;
pub mod startup;
pub mod stats;
pub mod text;
pub mod trace;
pub mod tui;
