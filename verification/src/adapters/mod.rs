//! Output adapters: the media-independent part of each adapter.
//!
//! An adapter turns a refrain into bytes for some medium. The parts of the
//! adapters that compute with time in cycles (scheduling, scaling to pixels,
//! formatting of cycle values) are the caller's; what they produce is handed
//! to the functions here as plain values.

pub mod audio;
pub mod text;
pub mod visual;

use vstd::prelude::*;

use crate::ast::Refrain;

verus! {

/// An error of an adapter.
#[derive(Debug)]
pub enum AdapterErr {
    NotImplemented(String),
    Encoding(String),
}

/// What an adapter can do.
#[derive(Debug, Clone, Copy, PartialEq, Eq)]
pub struct AdapterCaps {
    pub realtime: bool,
    pub differentiable: bool,
}

impl Default for AdapterCaps {
    fn default() -> (c: AdapterCaps)
        ensures
            !c.realtime && !c.differentiable,
    {
        AdapterCaps { realtime: false, differentiable: false }
    }
}

/// The context of one emission.
#[derive(Debug, Clone)]
pub struct EmitCtx {
    pub sample_rate: Option<u32>,
    pub frame_count: Option<u32>,
}

impl Default for EmitCtx {
    fn default() -> (c: EmitCtx)
        ensures
            c.sample_rate is None && c.frame_count is None,
    {
        EmitCtx { sample_rate: None, frame_count: None }
    }
}

/// The refrain handed to an adapter.
pub struct ExtractedRefrain<'a> {
    pub refrain: &'a Refrain,
}

} // verus!
