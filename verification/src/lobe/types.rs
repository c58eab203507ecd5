//! The observer's vocabulary: what it can be configured to do and what it reports per token.

use super::interject::InterjectStatus;
use crate::number::F32;
use crate::trace::DebugCfg;
use vstd::prelude::*;

verus! {

/// Which scalar decides whether a token fires. Both are measured against the running baseline of
/// whichever is active.
#[derive(Copy, Clone, Debug, PartialEq, Eq, Structural)]
pub enum Signal {
    /// How unexpected the token that arrived was.
    Surprisal,
    /// How uncertain the model was here, whichever token arrived.
    Entropy,
}

/// How the observer keeps going once its context is full.
#[derive(Copy, Clone, Debug, PartialEq, Eq, Structural)]
pub enum EvictMode {
    /// Decode until the context is full, then fail.
    Off,
    /// Cap and reset: clear the observation sequence and rebuild it from the pinned preamble and a
    /// window of recent stream tokens.
    Reset,
}

/// What an aside reflects on.
#[derive(Copy, Clone, Debug, PartialEq, Eq, Structural)]
pub enum InterjectMode {
    /// A fresh prompt that carries the recent stream text.
    Snippet,
    /// The observer's whole live context, forked onto the scratch sequence.
    Context,
}

/// How the context-mode ask frames the request.
#[derive(Copy, Clone, Debug, PartialEq, Eq, Structural)]
pub enum AskMode {
    /// Comment on a quoted passage.
    Passage,
    /// Pick up a running commentary.
    Continuous,
}

/// How the ask shows the observer what it said before.
#[derive(Copy, Clone, Debug, PartialEq, Eq, Structural)]
pub enum NoveltyMode {
    /// Ask for a fresh angle.
    Fresh,
    /// Ask for another rhythm and another opening.
    Form,
    /// Do not show it.
    Off,
}

/// Everything that is fixed when an observer is made.
#[derive(Copy, Clone, Debug)]
pub struct LobeConfig {
    pub signal: Signal,
    pub identifiers_only: bool,
    pub evict: EvictMode,
    pub keep_recent: usize,
    pub interject_mode: InterjectMode,
    pub ask_mode: AskMode,
    pub novelty_mode: NoveltyMode,
    pub interject_temp: F32,
    pub interject_top_p: F32,
    pub interject_max: usize,
    pub prefill_chunk: usize,
    pub refractory: usize,
    pub dedup: F32,
    pub debug: DebugCfg,
    pub seed: Option<u64>,
    pub fire_softness: F32,
}

/// 0.7, the default sampling temperature of an aside.
pub const DEFAULT_TEMP_BITS: u32 = 0x3f33_3333;

/// 0.95, the default nucleus of an aside.
pub const DEFAULT_TOP_P_BITS: u32 = 0x3f73_3333;

impl Default for LobeConfig {
    fn default() -> (c: Self)
        ensures
            c.signal == Signal::Surprisal,
            !c.identifiers_only,
            c.evict == EvictMode::Reset,
            c.keep_recent == 4096,
            c.interject_mode == InterjectMode::Context,
            c.ask_mode == AskMode::Passage,
            c.novelty_mode == NoveltyMode::Fresh,
            c.interject_temp == F32(DEFAULT_TEMP_BITS),
            c.interject_top_p == F32(DEFAULT_TOP_P_BITS),
            c.interject_temp == F32(0x3f33_3333),
            c.interject_top_p == F32(0x3f73_3333),
            c.interject_max == 96,
            c.prefill_chunk == 8,
            c.refractory == 0,
            c.dedup == F32(0),
            c.debug == (DebugCfg { topk: 64, full_logits: false }),
            c.seed is None,
            c.fire_softness == F32(0),
    {
        LobeConfig {
            signal: Signal::Surprisal,
            identifiers_only: false,
            evict: EvictMode::Reset,
            keep_recent: 4096,
            interject_mode: InterjectMode::Context,
            ask_mode: AskMode::Passage,
            novelty_mode: NoveltyMode::Fresh,
            interject_temp: F32(DEFAULT_TEMP_BITS),
            interject_top_p: F32(DEFAULT_TOP_P_BITS),
            interject_max: 96,
            prefill_chunk: 8,
            refractory: 0,
            dedup: F32(0),
            debug: DebugCfg::default(),
            seed: None,
            fire_softness: F32(0),
        }
    }
}

/// What is reported when a token fires.
#[derive(Debug, Clone)]
pub struct Trigger {
    /// Place of the token in the stream, counting stream tokens only.
    pub stream_index: usize,
    /// The token, rendered to text.
    pub token_text: String,
    /// Surprisal in nats.
    pub surprisal: F32,
    /// Entropy in nats of the distribution that predicted the token.
    pub entropy: F32,
    /// z-score of the active signal.
    pub z: F32,
    /// What the model expected instead: text and probability, likeliest first.
    pub expected: Vec<(String, F32)>,
}

/// One scored step of observation.
#[derive(Debug, Clone)]
pub struct Step {
    pub stream_index: usize,
    pub token_text: String,
    pub surprisal: F32,
    pub entropy: F32,
    /// z-score of the active signal.
    pub z: F32,
    pub fired: bool,
    /// Present exactly when the token fired.
    pub trigger: Option<Trigger>,
}

/// One fused step: the observation, and what the concurrent aside did.
#[derive(Debug, Clone)]
pub struct StepOutcome {
    pub step: Step,
    pub interjection: InterjectStatus,
}

/// Why an operation of the observer failed.
#[derive(Debug, Clone)]
pub enum LobeError {
    /// The inference engine refused a call.
    Backend(String),
    /// The engine's tokenizer gave no token for a prompt.
    EmptyPrompt,
    /// A prompt has more tokens than there are positions left to count.
    TooLong,
}

} // verus!
