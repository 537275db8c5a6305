//! Audio adapter: Strudel-style event JSON or an OSC bundle.

use vstd::prelude::*;

use super::AdapterCaps;

verus! {

/// The output format of the audio adapter.
#[derive(Debug, Clone, Copy, PartialEq, Eq)]
pub enum AudioFormat {
    StrudelJson,
    Osc,
}

/// The audio adapter.
pub struct AudioAdapter {
    pub format: AudioFormat,
}

impl AudioAdapter {
    pub fn new(format: AudioFormat) -> (a: AudioAdapter)
        ensures
            a.format == format,
    {
        AudioAdapter { format }
    }

    /// The name of the adapter for its format.
    pub open spec fn spec_name(format: AudioFormat) -> Seq<char> {
        match format {
            AudioFormat::StrudelJson => "audio.strudel-json"@,
            AudioFormat::Osc => "audio.osc"@,
        }
    }

    pub fn name(&self) -> (s: &'static str)
        ensures
            s@ == Self::spec_name(self.format),
    {
        match self.format {
            AudioFormat::StrudelJson => "audio.strudel-json",
            AudioFormat::Osc => "audio.osc",
        }
    }

    /// Only the OSC stream is meant for real-time use.
    pub fn capabilities(&self) -> (c: AdapterCaps)
        ensures
            c.realtime == (self.format == AudioFormat::Osc),
            !c.differentiable,
    {
        AdapterCaps { realtime: matches!(self.format, AudioFormat::Osc), differentiable: false }
    }
}

} // verus!
