use vstd::prelude::*;

pub mod api;
pub mod broadcast;
pub mod config;
pub mod json;
pub mod kaeru;
pub mod prebuffer;
pub mod queue;
pub mod radio;
pub mod ring_buffer;
pub mod tc_queue;
pub mod text;
pub mod transcode;
pub mod util;

verus! {
} // verus!
