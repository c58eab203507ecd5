//! The choices a run is made with, and what follows from them.

use crate::feed::Granularity;
use crate::lobe::types::{
    AskMode, EvictMode, InterjectMode, LobeConfig, NoveltyMode, Signal,
};
use crate::number::F32;
use crate::present::opt_text;
use crate::text::{trim, trimmed};
use crate::trace::DebugCfg;
use vstd::prelude::*;
use vstd::string::*;

verus! {

/// The system prompt where none is chosen. It directs attention to the text itself, without a body or
/// a place for the speaker: given those, the model writes stage directions.
pub const DEFAULT_SYSTEM_PROMPT: &'static str =
    "You are a perceptive literary commentator following a text as it streams past. Now and then you offer a brief aside about what's happening on the page — what a passage is doing, what a word or image is up to, what it means, how it ties to something earlier. Keep your eye on the text itself: its moves, its meaning, its craft.";

/// 0.5, over which firing is softened unless a run is to be the same every time.
pub const FIRE_SOFTNESS_BITS: u32 = 0x3f00_0000;

/// Which frontend runs.
#[derive(Copy, Clone, Debug, PartialEq, Eq, Structural)]
pub enum Mode {
    /// Lines in, one object per event out.
    Headless,
    /// The calibration instrument.
    DebugTui,
    /// The showcase.
    DemoTui,
}

/// The choices a run is made with.
pub struct Options {
    pub signal: Signal,
    pub identifiers_only: bool,
    pub evict: EvictMode,
    pub keep_recent: usize,
    pub interject_mode: InterjectMode,
    pub ask_mode: AskMode,
    pub novelty: NoveltyMode,
    pub interject_temp: F32,
    pub interject_top_p: F32,
    pub interject_max: usize,
    pub prefill_chunk: usize,
    pub refractory: usize,
    pub dedup: F32,
    pub debug_topk: usize,
    pub debug_full_logits: bool,
    /// Make every run the same.
    pub deterministic: bool,
    pub no_interject: bool,
    pub no_frame: bool,
    pub no_rag: bool,
    pub no_scene: bool,
    /// The system prompt itself; empty for the default.
    pub preamble: String,
    /// The file to take the system prompt from.
    pub preamble_file: Option<String>,
    /// The file to search.
    pub rag_corpus: Option<String>,
    /// The model that embeds it.
    pub rag_embed_model: Option<String>,
    /// The file to stream.
    pub input: String,
    pub mode: Mode,
    pub granularity: Granularity,
}

/// How the text that is searched is searched.
#[derive(Copy, Clone, Debug, PartialEq, Eq, Structural)]
pub enum Retriever {
    /// Nothing is ever found.
    Off,
    /// By words.
    Lexical,
    /// By words and embeddings.
    Hybrid,
}

/// Is a path given?
pub open spec fn given(path: Option<String>) -> bool {
    path matches Some(p) && p@.len() > 0
}

impl Options {
    /// The system prompt, where `persona` is what the persona file holds.
    pub open spec fn prompt(&self, persona: Option<Seq<char>>) -> Seq<char> {
        match persona {
            Some(text) => trimmed(text),
            None => if self.preamble@.len() == 0 {
                DEFAULT_SYSTEM_PROMPT@
            } else {
                self.preamble@
            },
        }
    }

    /// Is the stream framed as a turn of the model?
    pub open spec fn frames(&self) -> bool {
        !self.no_frame || self.interject_mode == InterjectMode::Context
    }

    /// What the observer is made with.
    pub open spec fn config(&self, entropy: u64) -> LobeConfig {
        LobeConfig {
            signal: self.signal,
            identifiers_only: self.identifiers_only,
            evict: self.evict,
            keep_recent: self.keep_recent,
            interject_mode: self.interject_mode,
            ask_mode: self.ask_mode,
            novelty_mode: self.novelty,
            interject_temp: self.interject_temp,
            interject_top_p: self.interject_top_p,
            interject_max: self.interject_max,
            prefill_chunk: self.prefill_chunk,
            refractory: self.refractory,
            dedup: self.dedup,
            debug: DebugCfg { topk: self.debug_topk, full_logits: self.debug_full_logits },
            seed: if self.deterministic {
                None
            } else {
                Some(entropy)
            },
            fire_softness: if self.deterministic {
                F32(0)
            } else {
                F32(FIRE_SOFTNESS_BITS)
            },
        }
    }

    /// Are asides on?
    pub fn interject_on(&self) -> (r: bool)
        ensures
            r == !self.no_interject,
    {
        !self.no_interject
    }

    /// The length asked of an aside, or `None` where asides are off.
    pub fn aside_length(&self) -> (r: Option<usize>)
        ensures
            r == if self.no_interject {
                None
            } else {
                Some(self.interject_max)
            },
    {
        if self.no_interject {
            None
        } else {
            Some(self.interject_max)
        }
    }

    /// Is framing asked for?
    pub fn frame(&self) -> (r: bool)
        ensures
            r == !self.no_frame,
    {
        !self.no_frame
    }

    /// Is the stream framed as a turn of the model? In the context mode it is in any case: the ask
    /// closes a turn first, so there has to be an open one.
    pub fn framed(&self) -> (r: bool)
        ensures
            r == self.frames(),
    {
        !self.no_frame || self.interject_mode == InterjectMode::Context
    }

    /// Is searching on?
    pub fn rag(&self) -> (r: bool)
        ensures
            r == !self.no_rag,
    {
        !self.no_rag
    }

    /// Is the showcase shown as a scene?
    pub fn scene(&self) -> (r: bool)
        ensures
            r == !self.no_scene,
    {
        !self.no_scene
    }

    /// The file to search: the one that is streamed, where none is given.
    pub fn rag_corpus_path(&self) -> (r: &str)
        ensures
            r@ == match self.rag_corpus {
                Some(p) => p@,
                None => self.input@,
            },
    {
        match &self.rag_corpus {
            Some(p) => p.as_str(),
            None => self.input.as_str(),
        }
    }

    /// The file to take the system prompt from, if one is given; an empty path is none.
    pub fn persona_path(&self) -> (r: Option<&str>)
        ensures
            match r {
                Some(p) => p@.len() > 0 && (self.preamble_file matches Some(q) && p@ == q@),
                None => !given(self.preamble_file),
            },
    {
        match &self.preamble_file {
            Some(p) => if p.as_str().is_empty() {
                None
            } else {
                Some(p.as_str())
            },
            None => None,
        }
    }

    /// How the text is searched. An empty path for the embedding model leaves the search by words.
    pub fn retriever(&self) -> (r: Retriever)
        ensures
            r == if self.no_rag {
                Retriever::Off
            } else if given(self.rag_embed_model) {
                Retriever::Hybrid
            } else {
                Retriever::Lexical
            },
    {
        if self.no_rag {
            return Retriever::Off;
        }
        match &self.rag_embed_model {
            Some(p) => if p.as_str().is_empty() {
                Retriever::Lexical
            } else {
                Retriever::Hybrid
            },
            None => Retriever::Lexical,
        }
    }

    /// The system prompt: what the persona file holds, without the blanks around it; else the one that
    /// was given; else the default.
    pub fn system_prompt(&self, persona: Option<&str>) -> (r: String)
        ensures
            r@ == self.prompt(opt_text(persona)),
    {
        match persona {
            Some(text) => trim(text).to_owned(),
            None => if self.preamble.as_str().is_empty() {
                DEFAULT_SYSTEM_PROMPT.to_owned()
            } else {
                self.preamble.clone()
            },
        }
    }

    /// What the observer is made with. A run that is to be the same every time has the fixed random
    /// streams and a hard threshold; any other is seeded with `entropy` and fires by chance around the
    /// threshold.
    pub fn lobe_config(&self, entropy: u64) -> (c: LobeConfig)
        ensures
            c == self.config(entropy),
    {
        LobeConfig {
            signal: self.signal,
            identifiers_only: self.identifiers_only,
            evict: self.evict,
            keep_recent: self.keep_recent,
            interject_mode: self.interject_mode,
            ask_mode: self.ask_mode,
            novelty_mode: self.novelty,
            interject_temp: self.interject_temp,
            interject_top_p: self.interject_top_p,
            interject_max: self.interject_max,
            prefill_chunk: self.prefill_chunk,
            refractory: self.refractory,
            dedup: self.dedup,
            debug: DebugCfg { topk: self.debug_topk, full_logits: self.debug_full_logits },
            seed: if self.deterministic {
                None
            } else {
                Some(entropy)
            },
            fire_softness: if self.deterministic {
                F32(0)
            } else {
                F32(FIRE_SOFTNESS_BITS)
            },
        }
    }
}

/// The word for a signal.
pub fn signal_name(signal: Signal) -> (r: &'static str)
    ensures
        r@ == match signal {
            Signal::Surprisal => "surprisal"@,
            Signal::Entropy => "entropy"@,
        },
{
    match signal {
        Signal::Surprisal => "surprisal",
        Signal::Entropy => "entropy",
    }
}

// ---------------------------------------------------------------------------------------------
// Laws
// ---------------------------------------------------------------------------------------------

/// A run that is to be the same every time does not depend on the entropy it is started with: it has no
/// seed of its own and a hard threshold. Any other is seeded with that entropy and fires softly, over
/// one half. All else is taken over from the options.
pub proof fn lemma_what_a_run_is_made_with(
    o: Options,
    entropy: (u64, u64),
    a: LobeConfig,
    b: LobeConfig,
)
    requires
        call_ensures(Options::lobe_config, (&o, entropy.0), a),
        call_ensures(Options::lobe_config, (&o, entropy.1), b),
    ensures
        o.deterministic ==> a == b && a.seed is None && a.fire_softness == F32(0),
        !o.deterministic ==> a.seed == Some(entropy.0) && b.seed == Some(entropy.1)
            && a.fire_softness == F32(0x3f00_0000),
        a.signal == o.signal,
        a.identifiers_only == o.identifiers_only,
        a.evict == o.evict,
        a.keep_recent == o.keep_recent,
        a.interject_mode == o.interject_mode,
        a.ask_mode == o.ask_mode,
        a.novelty_mode == o.novelty,
        a.interject_temp == o.interject_temp,
        a.interject_top_p == o.interject_top_p,
        a.interject_max == o.interject_max,
        a.prefill_chunk == o.prefill_chunk,
        a.refractory == o.refractory,
        a.dedup == o.dedup,
        a.debug.topk == o.debug_topk,
        a.debug.full_logits == o.debug_full_logits,
{
}

/// The stream is left unframed only where that is asked for and no ask has to close a turn of it.
pub proof fn lemma_when_the_stream_is_framed(o: Options, framed: bool)
    requires
        call_ensures(Options::framed, (&o,), framed),
    ensures
        o.interject_mode is Context ==> framed,
        o.interject_mode is Snippet ==> framed == !o.no_frame,
{
}

/// What a persona file holds goes before what is given on the command line, and that before the default.
pub proof fn lemma_whose_prompt_is_taken(o: Options, persona: Option<&str>, r: String)
    requires
        call_ensures(Options::system_prompt, (&o, persona), r),
    ensures
        persona matches Some(p) ==> r@ == trimmed(p@),
        persona is None && o.preamble@.len() > 0 ==> r@ == o.preamble@,
        persona is None && o.preamble@.len() == 0 ==> r@
            == "You are a perceptive literary commentator following a text as it streams past. Now and then you offer a brief aside about what's happening on the page — what a passage is doing, what a word or image is up to, what it means, how it ties to something earlier. Keep your eye on the text itself: its moves, its meaning, its craft."@,
{
}

/// What the switches say: each part is on unless it is switched off, an aside has the length asked for
/// where asides are on, and what is searched is the corpus that is given or else the text that is
/// streamed. It is searched by embeddings too exactly where searching is on and a model for it is named.
pub proof fn lemma_what_the_switches_say(
    o: Options,
    asides: bool,
    length: Option<usize>,
    search: bool,
    scene: bool,
    corpus: &str,
    by: Retriever,
    persona: Option<&str>,
)
    requires
        call_ensures(Options::interject_on, (&o,), asides),
        call_ensures(Options::aside_length, (&o,), length),
        call_ensures(Options::rag, (&o,), search),
        call_ensures(Options::scene, (&o,), scene),
        call_ensures(Options::rag_corpus_path, (&o,), corpus),
        call_ensures(Options::retriever, (&o,), by),
        call_ensures(Options::persona_path, (&o,), persona),
    ensures
        asides == !o.no_interject,
        length is Some <==> asides,
        length matches Some(n) ==> n == o.interject_max,
        search == !o.no_rag,
        scene == !o.no_scene,
        o.rag_corpus matches Some(p) ==> corpus@ == p@,
        o.rag_corpus is None ==> corpus@ == o.input@,
        by is Off <==> !search,
        by is Hybrid <==> search && (o.rag_embed_model is Some && o.rag_embed_model->Some_0@.len() > 0),
        by is Lexical <==> search && (o.rag_embed_model is None || o.rag_embed_model->Some_0@.len()
            == 0),
        persona is Some <==> o.preamble_file is Some && o.preamble_file->Some_0@.len() > 0,
        persona matches Some(p) ==> p@ == o.preamble_file->Some_0@,
{
}

} // verus!
