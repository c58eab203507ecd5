//! The observer.
//!
//! The stream is fed token by token to sequence 0 of the cache, and each token is scored against the
//! distribution that the one before it left behind. An aside runs on the scratch sequence
//! [`GEN_SEQ`], which is dropped when it is over, so that generating never touches what is observed.

use crate::backend::{
    answered_once, holds_none, Backend, Decode, Detok, KvCall, Session, SessionConfig, Token,
};
use crate::lobe::firing::{Firing, FIRE_SEED};
use crate::lobe::interject::{GenState, GenView, InterjectConfig, SAMPLER_SEED};
use crate::lobe::model::{
    batch_end, continues, cut_short, failed, feed_batch, feed_one, feeds, hint_fits, last_row,
    lemma_continues_self, lemma_continues_trans, margin_of, LobeView,
};
use crate::lobe::novelty::{concat, push_capped, InterjectionMemory, MemoryView};
use crate::lobe::types::{EvictMode, LobeConfig, LobeError};
use crate::lobe::window::{copied, last_n, StreamWindow, WindowView};
use crate::number::F32;
use crate::numerics::Numerics;
use crate::text::texts;
use crate::trace::DebugCfg;
use std::collections::VecDeque;
use vstd::prelude::*;

pub mod calls;
pub mod debug;
pub mod firing;
pub mod fused;
pub mod interject;
pub mod keeping;
pub mod laws;
pub mod model;
pub mod novelty;
pub mod observe;
pub mod promises;
pub mod rag;
pub mod replies;
pub mod reproducing;
pub mod sampling;
pub mod showing;
pub mod types;
pub mod window;

verus! {

/// How many of the latest token texts are kept for a prompt.
pub const RECENT_TOKENS: usize = 48;

/// The scratch sequence of the cache.
pub const GEN_SEQ: u32 = 1;

/// The room that is kept below the end of the context for an aside of no length; less in a context
/// that is too small for it.
pub const RESET_MARGIN: i32 = 256;

/// For how many tokens after a reset firing is suppressed: the context is shorter for a moment, so
/// the first scores shift.
pub const RESET_SETTLE: usize = 16;

/// How many tokens the span since the last fire holds at most.
pub const MAX_SPAN_TOKENS: usize = 128;

/// How far an aside may run past the length asked for until it reaches the end of a sentence.
pub const INTERJECT_SENTENCE_SLACK: usize = 64;

/// How many tokens a forward pass takes at most when a run of tokens is fed.
pub const BATCH_CAP: usize = 512;

/// How many bytes of a passage that was looked up an ask quotes at most.
pub const RECALL_BYTES: usize = 240;

/// An observer on a backend.
pub struct Lobe<'a, B: Backend> {
    /// The model and its tokenizer.
    pub engine: &'a B,
    /// The cache and the forward pass.
    pub session: B::Session<'a>,
    /// The distribution that the latest pass on the observation sequence left behind.
    pub last_logits: Vec<F32>,
    /// The next position on the observation sequence.
    pub pos: i32,
    /// How many stream tokens have been observed.
    pub stream_index: usize,
    /// The texts of the latest stream tokens, for a prompt that has to carry them.
    pub recent: VecDeque<String>,
    /// When a token fires.
    pub firing: Firing,
    /// The size of the context.
    pub n_ctx: i32,
    /// What the observation sequence holds, and what a reset replays.
    pub window: StreamWindow,
    /// The token that closes a turn.
    pub eot: Option<Token>,
    /// The token that opens a turn.
    pub sot: Option<Token>,
    /// How asides are produced.
    pub icfg: InterjectConfig,
    /// What keeps asides from circling.
    pub memory: InterjectionMemory,
    /// The generation in flight.
    pub gen: GenState,
    /// How much detail the observability events carry.
    pub debug: DebugCfg,
}

impl<'a, B: Backend> View for Lobe<'a, B> {
    type V = LobeView;

    open spec fn view(&self) -> LobeView {
        LobeView {
            logits: self.last_logits@,
            pos: self.pos as int,
            index: self.stream_index as int,
            recent: texts(self.recent@),
            firing: self.firing,
            n_ctx: self.n_ctx as int,
            window: self.window@,
            eot: self.eot,
            sot: self.sot,
            icfg: self.icfg,
            memory: self.memory@,
            gen: self.gen@,
            calls: self.session.calls(),
            answers: self.session.answers(),
            width: self.session.width(),
        }
    }
}

/// The seed of the sampler that a seed stands for: itself, unless it is the fixed point of the
/// generator.
pub open spec fn sampler_seed(seed: u64) -> u64 {
    if seed == 0 {
        SAMPLER_SEED
    } else {
        seed
    }
}

/// The seed of the firing stream that a seed stands for: one splitmix step away from the sampler's, so
/// that the two streams have nothing to do with each other.
pub open spec fn fire_seed(seed: u64) -> u64 {
    let z = mixed(sampler_seed(seed));
    if z == 0 {
        FIRE_SEED
    } else {
        z
    }
}

/// One splitmix step.
pub open spec fn mixed(s: u64) -> u64 {
    let z = s.wrapping_add(0x9e37_79b9_7f4a_7c15);
    let z = (z ^ (z >> 30)).wrapping_mul(0xbf58_476d_1ce4_e5b9);
    let z = (z ^ (z >> 27)).wrapping_mul(0x94d0_49bb_1331_11eb);
    z ^ (z >> 31)
}

/// Whatever the seed, neither random stream starts at the fixed point of its generator.
pub proof fn lemma_seeds_are_not_zero(seed: u64)
    ensures
        sampler_seed(seed) != 0,
        fire_seed(seed) != 0,
{
}

/// A new observer: nothing observed, nothing primed, nothing called.
pub open spec fn fresh<B: Backend>(engine: &B, n_ctx: u32, cfg: LobeConfig) -> LobeView {
    LobeView {
        logits: Seq::empty(),
        pos: 0,
        index: 0,
        recent: Seq::empty(),
        firing: Firing {
            signal: cfg.signal,
            identifiers_only: cfg.identifiers_only,
            refractory: 0,
            period: cfg.refractory,
            fire_rng: match cfg.seed {
                Some(seed) => fire_seed(seed),
                None => FIRE_SEED,
            },
            softness: cfg.fire_softness,
        },
        n_ctx: n_ctx as int,
        window: WindowView {
            evict: cfg.evict,
            preamble: Seq::empty(),
            recent: Seq::empty(),
            context: Seq::empty(),
            keep: if cfg.keep_recent == 0 {
                1
            } else {
                cfg.keep_recent
            },
            settle: 0,
            resets: 0,
        },
        eot: engine.special("<turn|>"@),
        sot: engine.special("<|turn>"@),
        icfg: InterjectConfig {
            mode: cfg.interject_mode,
            ask_mode: cfg.ask_mode,
            novelty_mode: cfg.novelty_mode,
            temp: cfg.interject_temp,
            top_p: cfg.interject_top_p,
            max_hint: cfg.interject_max,
            prefill_chunk: if cfg.prefill_chunk == 0 {
                1
            } else {
                cfg.prefill_chunk
            },
        },
        memory: MemoryView {
            asides: Seq::empty(),
            since: Seq::empty(),
            span: Seq::empty(),
            dedup: cfg.dedup,
        },
        gen: GenView {
            fsm: None,
            fused: None,
            rng: match cfg.seed {
                Some(seed) => sampler_seed(seed),
                None => SAMPLER_SEED,
            },
        },
        calls: Seq::empty(),
        answers: Seq::empty(),
        width: engine.vocab(),
    }
}

/// Feed the tokens `from..to` of a run that starts at position `base` in one pass.
fn feed_chunk<S: Session>(
    session: &mut S,
    toks: &Vec<Token>,
    from: usize,
    to: usize,
    base: i32,
    seq: u32,
) -> (r: Result<(), LobeError>)
    requires
        from < to <= toks@.len(),
        0 <= base,
        base + toks@.len() <= i32::MAX,
    ensures
        final(session).calls() == old(session).calls().push(
            KvCall::Decode {
                batch: feed_batch(toks@, from as int, to as int, base as int, seq),
                ok: r is Ok,
            },
        ),
        answered_once(old(session).answers(), final(session).answers()),
        final(session).width() == old(session).width(),
        r matches Err(e) ==> e is Backend,
{
    let mut batch: Vec<Decode> = Vec::new();
    let mut i: usize = from;
    let last: usize = toks.len() - 1;
    let ghost whole = feed_batch(toks@, from as int, to as int, base as int, seq);
    while i < to
        invariant
            from <= i <= to <= toks@.len(),
            last == toks@.len() - 1,
            0 <= base,
            base + toks@.len() <= i32::MAX,
            whole == feed_batch(toks@, from as int, to as int, base as int, seq),
            batch@ == whole.take(i - from),
        decreases to - i,
    {
        batch.push(Decode { token: toks[i], pos: base + i as i32, seq, logits: i == last });
        i = i + 1;
        assert(whole.take(i - from) =~= whole.take(i - 1 - from).push(whole[i - 1 - from]));
    }
    assert(whole.take(i - from) =~= whole);
    match session.decode(batch.as_slice()) {
        Ok(()) => Ok(()),
        Err(e) => Err(LobeError::Backend(e)),
    }
}

/// Asked for a session of an observer, the engine answers this: room for `n_ctx` tokens, shared by two
/// sequences.
pub open spec fn opens<'a, B: Backend>(
    engine: &'a B,
    n_ctx: u32,
    answer: Result<B::Session<'a>, String>,
) -> bool {
    call_ensures(
        B::session,
        (engine, SessionConfig { n_ctx, n_batch: 2048, n_seq_max: 2, kv_unified: true }),
        answer,
    )
}

impl<'a, B: Backend> Lobe<'a, B> {
    /// Make an observer on two sequences of one shared cache: the stream has the whole of it, and an
    /// aside borrows from it for a while.
    pub fn new(engine: &'a B, n_ctx: u32, cfg: LobeConfig) -> (r: Result<Self, LobeError>)
        requires
            3 * n_ctx <= i32::MAX,
            hint_fits(cfg.interject_max as nat),
            0 < engine.vocab() <= i32::MAX,
        ensures
            match r {
                Ok(l) => {
                    &&& l@ == fresh(engine, n_ctx, cfg)
                    &&& l@.wf()
                    &&& l.window.wf()
                    &&& l.engine == engine
                    &&& l.debug == cfg.debug
                    &&& opens(engine, n_ctx, Ok(l.session))
                },
                Err(e) => e matches LobeError::Backend(s) && opens(engine, n_ctx, Err(s)),
            },
    {
        let session = match engine.session(
            SessionConfig { n_ctx, n_batch: 2048, n_seq_max: 2, kv_unified: true },
        ) {
            Ok(s) => s,
            Err(e) => {
                return Err(LobeError::Backend(e));
            },
        };
        let eot = engine.special_token("<turn|>");
        let sot = engine.special_token("<|turn>");
        let mut firing = Firing::default();
        firing.set_signal(cfg.signal, cfg.identifiers_only);
        firing.set_refractory(cfg.refractory);
        firing.set_softness(cfg.fire_softness);
        let icfg = InterjectConfig {
            mode: cfg.interject_mode,
            ask_mode: cfg.ask_mode,
            novelty_mode: cfg.novelty_mode,
            temp: cfg.interject_temp,
            top_p: cfg.interject_top_p,
            max_hint: cfg.interject_max,
            prefill_chunk: if cfg.prefill_chunk < 1 {
                1
            } else {
                cfg.prefill_chunk
            },
        };
        let mut window = StreamWindow::default();
        window.set_eviction(cfg.evict, cfg.keep_recent);
        let mut memory = InterjectionMemory::default();
        memory.set_dedup(cfg.dedup);
        let mut lobe = Lobe {
            engine,
            session,
            last_logits: Vec::new(),
            pos: 0,
            stream_index: 0,
            recent: VecDeque::new(),
            firing,
            n_ctx: n_ctx as i32,
            window,
            eot,
            sot,
            icfg,
            memory,
            gen: GenState::default(),
            debug: cfg.debug,
        };
        if let Some(seed) = cfg.seed {
            lobe.seed_rngs(seed);
        }
        assert(lobe@.recent =~= Seq::empty());
        assert(lobe@.window.recent =~= last_n(lobe@.window.context, 0));
        Ok(lobe)
    }

    /// Seed both random streams.
    fn seed_rngs(&mut self, seed: u64)
        ensures
            final(self)@ == (LobeView {
                firing: Firing { fire_rng: fire_seed(seed), ..old(self)@.firing },
                gen: GenView { rng: sampler_seed(seed), ..old(self)@.gen },
                ..old(self)@
            }),
            final(self).engine == old(self).engine,
            final(self).window == old(self).window,
            final(self).debug == old(self).debug,
            final(self).session == old(self).session,
    {
        let s: u64 = if seed == 0 {
            SAMPLER_SEED
        } else {
            seed
        };
        self.gen.rng = s;
        let mut z: u64 = s.wrapping_add(0x9e37_79b9_7f4a_7c15);
        z = (z ^ (z >> 30)).wrapping_mul(0xbf58_476d_1ce4_e5b9);
        z = (z ^ (z >> 27)).wrapping_mul(0x94d0_49bb_1331_11eb);
        z = z ^ (z >> 31);
        self.firing.seed_rng(
            if z == 0 {
                FIRE_SEED
            } else {
                z
            },
        );
    }

    /// How far below the end of the context a reset is due.
    pub fn roll_margin(&self) -> (m: i32)
        requires
            self@.wf(),
        ensures
            m == margin_of(self@.icfg.max_hint as nat, self@.n_ctx),
            0 <= m,
            self@.n_ctx > 0 ==> m < self@.n_ctx,
            4 * RESET_MARGIN <= 3 * self@.n_ctx ==> RESET_MARGIN <= m,
    {
        let wanted: i32 = MAX_SPAN_TOKENS as i32 + 128 + 5 * (self.icfg.max_hint as i32);
        let most: i32 = self.n_ctx * 3 / 4;
        if wanted <= most {
            wanted
        } else {
            most
        }
    }

    /// The whole live context as text: the pinned preamble and every stream token since the last
    /// reset, with the markers spelled out.
    pub fn full_context_text(&self) -> (r: String)
        ensures
            r@ == concat(
                self@.window.live().map_values(|t: Token| self.engine.text_of(t, Detok::Text)),
            ),
    {
        let ids = self.window.full_ids();
        let ghost all = ids@.map_values(|t: Token| self.engine.text_of(t, Detok::Text));
        let mut r = String::new();
        let mut i: usize = 0;
        assert(all.take(0) =~= Seq::empty());
        while i < ids.len()
            invariant
                i <= ids@.len(),
                all == ids@.map_values(|t: Token| self.engine.text_of(t, Detok::Text)),
                r@ == concat(all.take(i as int)),
            decreases ids@.len() - i,
        {
            r.append(self.detok(ids[i]).as_str());
            assert(all.take(i + 1).drop_last() =~= all.take(i as int));
            i = i + 1;
        }
        assert(all.take(i as int) =~= all);
        r
    }

    /// Remember an emitted aside, for the next ask to show.
    pub fn record_interjection(&mut self, text: &str)
        requires
            old(self)@.wf(),
        ensures
            final(self)@ == (LobeView { memory: old(self)@.memory.recorded(text@), ..old(self)@ }),
            final(self)@.wf(),
            final(self).engine == old(self).engine,
            final(self).debug == old(self).debug,
            final(self).window == old(self).window,
    {
        self.memory.record(text);
    }

    /// Is this aside none of those said before?
    pub fn interjection_is_novel<N: Numerics>(&self, text: &str, num: &N) -> (novel: bool)
        ensures
            self@.memory.judged(num, text@, novel),
    {
        self.memory.is_novel(text, num)
    }

    /// Will an aside that starts with `partial` be a repeat?
    pub fn interjection_doomed(&self, partial: &str) -> (r: bool)
        ensures
            r == self@.memory.dooms(partial@),
    {
        self.memory.doomed(partial)
    }

    /// Is there enough of an aside to tell whether it is a repeat?
    pub fn interjection_decidable(&self, partial: &str) -> (r: bool)
        ensures
            r == self@.memory.decides(partial@),
    {
        self.memory.decidable(partial)
    }

    /// Abandon the aside in flight: drop the scratch sequence and forget it. The observation sequence
    /// is not touched.
    pub fn abort_interjection(&mut self) -> (r: Result<(), LobeError>)
        requires
            old(self)@.wf(),
        ensures
            match r {
                Ok(()) => final(self)@ == old(self)@.scratched().with_fsm(None).with_fused(None),
                Err(e) => e is Backend && final(self)@ == (LobeView {
                    calls: old(self)@.calls.push(KvCall::Clear { seq: GEN_SEQ, ok: false }),
                    answers: old(self)@.answers.push(Seq::empty()),
                    ..old(self)@
                }),
            },
            final(self)@.wf(),
            final(self).engine == old(self).engine,
            final(self).debug == old(self).debug,
            final(self).window == old(self).window,
    {
        match self.session.clear_seq(GEN_SEQ) {
            Ok(()) => {},
            Err(e) => {
                return Err(LobeError::Backend(e));
            },
        }
        self.gen.fsm = None;
        self.gen.fused = None;
        Ok(())
    }

    /// Resets so far.
    pub fn resets(&self) -> (n: u64)
        ensures
            n == self@.window.resets,
    {
        self.window.resets()
    }

    /// Note the text of an observed token for prompts.
    fn remember(&mut self, text: &str)
        requires
            old(self)@.recent.len() <= RECENT_TOKENS,
        ensures
            final(self)@ == (LobeView {
                recent: last_n(old(self)@.recent.push(text@), RECENT_TOKENS as nat),
                ..old(self)@
            }),
            final(self).engine == old(self).engine,
            final(self).window == old(self).window,
            final(self).last_logits == old(self).last_logits,
            final(self).debug == old(self).debug,
    {
        assert(old(self)@.recent.len() == old(self).recent@.len());
        push_capped(&mut self.recent, text.to_owned(), RECENT_TOKENS);
    }

    /// Tokenize a text. `add_bos` is for the pinned preamble or a standalone prompt.
    pub fn tokenize(&self, text: &str, add_bos: bool) -> (r: Result<Vec<Token>, LobeError>)
        ensures
            match r {
                Ok(toks) => self.engine.tokens_of(text@, add_bos) == Some(toks@),
                Err(e) => e is Backend && self.engine.tokens_of(text@, add_bos) is None,
            },
    {
        match self.engine.tokenize(text, add_bos) {
            Ok(toks) => Ok(toks),
            Err(e) => Err(LobeError::Backend(e)),
        }
    }

    /// Render a token with special markers spelled out.
    pub fn detok(&self, tok: Token) -> (s: String)
        ensures
            s@ == self.engine.text_of(tok, Detok::Text),
    {
        self.engine.detok(tok, Detok::Text)
    }

    /// Render a token for a reply: special markers are left out, so that none can leak into it.
    pub fn detok_gen(&self, tok: Token) -> (s: String)
        ensures
            s@ == self.engine.text_of(tok, Detok::Plain),
    {
        self.engine.detok(tok, Detok::Plain)
    }

    /// Feed one stream token, after a reset where one is due, and keep the distribution that it
    /// leaves behind.
    fn decode_one(&mut self, tok: Token) -> (r: Result<(), LobeError>)
        requires
            old(self)@.wf(),
            old(self).window.wf(),
            old(self)@.has_room(),
        ensures
            match r {
                Ok(()) => {
                    &&& final(self)@ == old(self)@.fed(tok, final(self)@.answers)
                    &&& final(self).last_logits@.len() == old(self)@.width
                },
                Err(e) => e is Backend && cut_short(
                    old(self)@.calls,
                    old(self)@.fed_calls(tok),
                    final(self)@.calls,
                ),
            },
            final(self)@ == (LobeView {
                logits: final(self)@.logits,
                pos: final(self)@.pos,
                window: final(self)@.window,
                calls: final(self)@.calls,
                answers: final(self)@.answers,
                ..old(self)@
            }),
            continues(old(self)@, final(self)@),
            final(self)@.wf(),
            final(self).window.wf(),
            final(self).engine == old(self).engine,
            final(self).debug == old(self).debug,
    {
        let ghost plan = self@.fed_calls(tok);
        let ghost before = self@;
        proof {
            lemma_continues_self(before);
        }
        if self.window.evict == EvictMode::Reset {
            let margin: i32 = self.roll_margin();
            if self.pos >= self.n_ctx - margin {
                assert(before.due());
                match self.roll() {
                    Ok(()) => {},
                    Err(e) => {
                        proof {
                            let part = before.roll_calls();
                            let k = choose|k: int|
                                0 <= k < part.len() && self@.calls == #[trigger] (before.calls
                                    + part.take(k)).push(failed(part[k]));
                            assert(plan.take(k) =~= part.take(k));
                            assert(self@.calls == (before.calls + plan.take(k)).push(
                                failed(plan[k]),
                            ));
                        }
                        return Err(e);
                    },
                }
            }
        }
        let ghost mid = self@;
        assert(continues(before, mid));
        assert(mid.pos < i32::MAX) by {
            if before.due() {
                assert(before.window.replay().len() <= before.window.live().len());
            }
        }
        let entry = Decode { token: tok, pos: self.pos, seq: 0, logits: true };
        let mut batch: Vec<Decode> = Vec::new();
        batch.push(entry);
        proof {
            assert(batch@ =~= seq![entry]);
            let k = plan.len() - 1;
            assert(before.calls + plan.take(k) =~= mid.calls);
            assert(plan[k] == feed_one(tok, mid.pos));
        }
        match self.session.decode(batch.as_slice()) {
            Ok(()) => {},
            Err(e) => {
                proof {
                    let k = plan.len() - 1;
                    assert(self@.calls == (before.calls + plan.take(k)).push(failed(plan[k])));
                    lemma_one_more(before, mid, self@);
                }
                return Err(LobeError::Backend(e));
            },
        }
        assert(self@.calls =~= before.calls + plan);
        proof {
            lemma_one_more(before, mid, self@);
        }
        self.last_logits = self.session.logits(0);
        self.pos = self.pos + 1;
        Ok(())
    }

    /// Feed a run of tokens to the observation sequence, in batches, and keep the distribution that
    /// the last of them leaves behind. No reset is made.
    fn prefill_seq0(&mut self, toks: &Vec<Token>) -> (r: Result<(), LobeError>)
        requires
            0 <= old(self)@.pos,
            old(self)@.pos + toks@.len() <= i32::MAX,
            old(self)@.answers.len() == old(self)@.calls.len(),
        ensures
            match r {
                Ok(()) => {
                    &&& final(self)@ == (LobeView {
                        logits: final(self)@.logits,
                        pos: old(self)@.pos + toks@.len(),
                        calls: old(self)@.calls + feeds(toks@, 0, old(self)@.pos, 0),
                        answers: final(self)@.answers,
                        ..old(self)@
                    })
                    &&& if toks@.len() == 0 {
                        final(self)@.logits == old(self)@.logits
                    } else {
                        &&& final(self)@.logits == last_row(
                            final(self)@.answers,
                            toks@.len() as int,
                        )
                        &&& final(self)@.logits.len() == old(self)@.width
                    }
                },
                Err(e) => {
                    &&& e is Backend
                    &&& cut_short(
                        old(self)@.calls,
                        feeds(toks@, 0, old(self)@.pos, 0),
                        final(self)@.calls,
                    )
                    &&& final(self)@ == (LobeView {
                        pos: final(self)@.pos,
                        calls: final(self)@.calls,
                        answers: final(self)@.answers,
                        ..old(self)@
                    })
                    &&& old(self)@.pos <= final(self)@.pos <= old(self)@.pos + toks@.len()
                },
            },
            continues(old(self)@, final(self)@),
            final(self).engine == old(self).engine,
            final(self).window == old(self).window,
            final(self).debug == old(self).debug,
    {
        let base: i32 = self.pos;
        let n: usize = toks.len();
        let ghost before = self@;
        let ghost plan = feeds(toks@, 0, base as int, 0);
        let ghost mut k: int = 0;
        let mut from: usize = 0;
        assert(plan.skip(0) =~= plan);
        assert(before.calls + plan.take(0) =~= before.calls);
        proof {
            lemma_continues_self(before);
        }
        while from < n
            invariant
                n == toks@.len(),
                from <= n,
                from % BATCH_CAP == 0 || from == n,
                before == old(self)@,
                base == before.pos,
                0 <= base,
                base + n <= i32::MAX,
                plan == feeds(toks@, 0, base as int, 0),
                0 <= k <= plan.len(),
                plan.skip(k) == feeds(toks@, from as int, base as int, 0),
                from < n ==> k < plan.len(),
                self@ == (LobeView {
                    logits: self@.logits,
                    pos: base + from,
                    calls: before.calls + plan.take(k),
                    answers: self@.answers,
                    ..before
                }),
                continues(before, self@),
                from < n || n == 0 ==> self@.logits == before.logits,
                n > 0 && from == n ==> {
                    &&& self@.logits == last_row(self@.answers, n as int)
                    &&& self@.logits.len() == before.width
                },
                self.engine == old(self).engine,
                self.window == old(self).window,
                self.debug == old(self).debug,
            decreases n - from,
        {
            let to: usize = if n - from > BATCH_CAP {
                from + BATCH_CAP
            } else {
                n
            };
            proof {
                assert(to == batch_end(n as int, from as int));
                assert(plan.skip(k)[0] == plan[k]);
                assert(plan[k] == KvCall::Decode {
                    batch: feed_batch(toks@, from as int, to as int, base as int, 0),
                    ok: true,
                });
                assert(plan.skip(k + 1) =~= plan.skip(k).skip(1));
                assert(plan.skip(k).skip(1) =~= feeds(toks@, to as int, base as int, 0));
                assert(plan.take(k + 1) =~= plan.take(k).push(plan[k]));
            }
            let ghost mid = self@;
            match feed_chunk(&mut self.session, toks, from, to, base, 0) {
                Ok(()) => {},
                Err(e) => {
                    proof {
                        lemma_one_more(before, mid, self@);
                    }
                    assert(self@.calls == (before.calls + plan.take(k)).push(failed(plan[k])));
                    return Err(e);
                },
            }
            assert(self@.calls =~= before.calls + plan.take(k + 1));
            proof {
                k = k + 1;
                lemma_one_more(before, mid, self@);
            }
            if to == n {
                assert(feed_batch(toks@, from as int, to as int, base as int, 0)[to - from - 1].logits);
                assert((n - 1) % (BATCH_CAP as int) == to - from - 1);
                self.last_logits = self.session.logits(to - from - 1);
            }
            self.pos = self.pos + (to - from) as i32;
            from = to;
        }
        assert(plan.skip(k).len() == 0);
        assert(plan.take(k) =~= plan);
        Ok(())
    }

    /// Pin the preamble: it is recorded for replay and fed. The recent window is clamped so that it
    /// fits between the preamble and the margin; where that shortens it, the length it had is handed
    /// back.
    pub fn prime(&mut self, tokens: &Vec<Token>) -> (r: Result<Option<usize>, LobeError>)
        requires
            old(self)@.wf(),
            old(self)@.pos + tokens@.len() <= i32::MAX,
        ensures
            ({
                let room = room_for(old(self)@, tokens@.len());
                let primed = old(self)@.window.primed(tokens@, room);
                match r {
                    Ok(clamped) => {
                        &&& final(self)@ == (LobeView {
                            logits: final(self)@.logits,
                            pos: old(self)@.pos + tokens@.len(),
                            window: primed,
                            calls: old(self)@.calls + feeds(tokens@, 0, old(self)@.pos, 0),
                            answers: final(self)@.answers,
                            ..old(self)@
                        })
                        &&& if tokens@.len() == 0 {
                            final(self)@.logits == old(self)@.logits
                        } else {
                            &&& final(self)@.logits == last_row(
                                final(self)@.answers,
                                tokens@.len() as int,
                            )
                            &&& final(self)@.logits.len() == old(self)@.width
                        }
                        &&& clamped == if old(self)@.window.keep > room {
                            Some(old(self)@.window.keep)
                        } else {
                            None
                        }
                    },
                    Err(e) => {
                        &&& e is Backend
                        &&& cut_short(
                            old(self)@.calls,
                            feeds(tokens@, 0, old(self)@.pos, 0),
                            final(self)@.calls,
                        )
                        &&& final(self)@.window == primed
                    },
                }
            }),
            continues(old(self)@, final(self)@),
            final(self)@.wf(),
            final(self).window.wf(),
            final(self).engine == old(self).engine,
            final(self).debug == old(self).debug,
    {
        let margin: i32 = self.roll_margin();
        let left: i64 = self.n_ctx as i64 - tokens.len() as i64 - margin as i64;
        let room: usize = if left >= 1 {
            left as usize
        } else {
            1
        };
        let clamped = self.window.begin_prime(copied(tokens), room);
        assert(self@.window.live() =~= tokens@);
        match self.prefill_seq0(tokens) {
            Ok(()) => Ok(clamped),
            Err(e) => Err(e),
        }
    }

    /// Make a reset: drop the observation sequence and rebuild it from the preamble and the recent
    /// window. The scratch sequence, the baseline and the stream index are left alone.
    fn roll(&mut self) -> (r: Result<(), LobeError>)
        requires
            old(self)@.wf(),
            old(self).window.wf(),
            old(self)@.window.resets < u64::MAX,
        ensures
            match r {
                Ok(()) => {
                    &&& final(self)@ == old(self)@.rolled(final(self)@.answers)
                    &&& final(self)@.logits.len() == if old(self)@.window.replay().len() == 0 {
                        0
                    } else {
                        old(self)@.width
                    }
                },
                Err(e) => {
                    &&& e is Backend
                    &&& cut_short(old(self)@.calls, old(self)@.roll_calls(), final(self)@.calls)
                    &&& final(self)@ == (LobeView {
                        logits: final(self)@.logits,
                        pos: final(self)@.pos,
                        calls: final(self)@.calls,
                        answers: final(self)@.answers,
                        ..old(self)@
                    })
                },
            },
            continues(old(self)@, final(self)@),
            final(self)@.wf(),
            final(self).window.wf(),
            final(self).engine == old(self).engine,
            final(self).debug == old(self).debug,
    {
        let ghost before = self@;
        let ghost plan = before.roll_calls();
        match self.session.clear_seq(0) {
            Ok(()) => {},
            Err(e) => {
                proof {
                    assert(self@.answers.take(before.answers.len() as int) =~= before.answers);
                    assert(before.calls + plan.take(0) =~= before.calls);
                    assert(self@.calls == (before.calls + plan.take(0)).push(failed(plan[0])));
                }
                return Err(LobeError::Backend(e));
            },
        }
        let replay = self.window.replay_tokens();
        assert(replay@.len() <= before.window.live().len());
        self.pos = 0;
        self.last_logits = Vec::new();
        let ghost cleared = self@;
        assert(cleared.answers.take(before.answers.len() as int) =~= before.answers);
        match self.prefill_seq0(&replay) {
            Ok(()) => {},
            Err(e) => {
                proof {
                    lemma_continues_trans(before, cleared, self@);
                    let part = feeds(replay@, 0, 0, 0);
                    let k = choose|k: int|
                        0 <= k < part.len() && self@.calls == #[trigger] (cleared.calls
                            + part.take(k)).push(failed(part[k]));
                    assert(plan[k + 1] == part[k]);
                    assert(before.calls + plan.take(k + 1) =~= cleared.calls + part.take(k));
                    assert(self@.calls == (before.calls + plan.take(k + 1)).push(
                        failed(plan[k + 1]),
                    ));
                }
                return Err(e);
            },
        }
        assert(self@.calls =~= before.calls + plan);
        proof {
            lemma_continues_trans(before, cleared, self@);
        }
        self.window.mark_rolled();
        proof {
            if replay@.len() == 0 {
                assert(self@.logits =~= Seq::empty());
            }
            assert(self@.window.live().len() <= before.window.live().len());
        }
        Ok(())
    }

    /// Feed a run of tokens to sequence `seq` from `start_pos` on, in batches, and hand back the
    /// distribution that the last of them leaves behind.
    fn decode_seq(&mut self, toks: &Vec<Token>, start_pos: i32, seq: u32) -> (r: Result<
        Vec<F32>,
        LobeError,
    >)
        requires
            toks@.len() > 0,
            0 <= start_pos,
            start_pos + toks@.len() <= i32::MAX,
            old(self)@.answers.len() == old(self)@.calls.len(),
        ensures
            match r {
                Ok(row) => {
                    &&& final(self)@ == (LobeView {
                        calls: old(self)@.calls + feeds(toks@, 0, start_pos as int, seq),
                        answers: final(self)@.answers,
                        ..old(self)@
                    })
                    &&& row@ == last_row(final(self)@.answers, toks@.len() as int)
                    &&& row@.len() == old(self)@.width
                },
                Err(e) => {
                    &&& e is Backend
                    &&& cut_short(
                        old(self)@.calls,
                        feeds(toks@, 0, start_pos as int, seq),
                        final(self)@.calls,
                    )
                    &&& final(self)@ == (LobeView {
                        calls: final(self)@.calls,
                        answers: final(self)@.answers,
                        ..old(self)@
                    })
                },
            },
            continues(old(self)@, final(self)@),
            final(self).engine == old(self).engine,
            final(self).window == old(self).window,
            final(self).last_logits == old(self).last_logits,
            final(self).debug == old(self).debug,
    {
        let n: usize = toks.len();
        let ghost before = self@;
        let ghost plan = feeds(toks@, 0, start_pos as int, seq);
        let ghost mut k: int = 0;
        let mut from: usize = 0;
        let mut row: Vec<F32> = Vec::new();
        assert(plan.skip(0) =~= plan);
        assert(before.calls + plan.take(0) =~= before.calls);
        proof {
            lemma_continues_self(before);
        }
        while from < n
            invariant
                n == toks@.len(),
                n > 0,
                from <= n,
                from % BATCH_CAP == 0 || from == n,
                before == old(self)@,
                0 <= start_pos,
                start_pos + n <= i32::MAX,
                plan == feeds(toks@, 0, start_pos as int, seq),
                0 <= k <= plan.len(),
                plan.skip(k) == feeds(toks@, from as int, start_pos as int, seq),
                from < n ==> k < plan.len(),
                self@ == (LobeView {
                    calls: before.calls + plan.take(k),
                    answers: self@.answers,
                    ..before
                }),
                continues(before, self@),
                from == n ==> {
                    &&& row@ == last_row(self@.answers, n as int)
                    &&& row@.len() == before.width
                },
                self.engine == old(self).engine,
                self.window == old(self).window,
                self.last_logits == old(self).last_logits,
                self.debug == old(self).debug,
            decreases n - from,
        {
            let to: usize = if n - from > BATCH_CAP {
                from + BATCH_CAP
            } else {
                n
            };
            proof {
                assert(to == batch_end(n as int, from as int));
                assert(plan.skip(k)[0] == plan[k]);
                assert(plan[k] == KvCall::Decode {
                    batch: feed_batch(toks@, from as int, to as int, start_pos as int, seq),
                    ok: true,
                });
                assert(plan.skip(k + 1) =~= plan.skip(k).skip(1));
                assert(plan.skip(k).skip(1) =~= feeds(toks@, to as int, start_pos as int, seq));
                assert(plan.take(k + 1) =~= plan.take(k).push(plan[k]));
            }
            let ghost mid = self@;
            match feed_chunk(&mut self.session, toks, from, to, start_pos, seq) {
                Ok(()) => {},
                Err(e) => {
                    proof {
                        lemma_one_more(before, mid, self@);
                    }
                    assert(self@.calls == (before.calls + plan.take(k)).push(failed(plan[k])));
                    return Err(e);
                },
            }
            assert(self@.calls =~= before.calls + plan.take(k + 1));
            proof {
                k = k + 1;
                lemma_one_more(before, mid, self@);
            }
            if to == n {
                assert(feed_batch(
                    toks@,
                    from as int,
                    to as int,
                    start_pos as int,
                    seq,
                )[to - from - 1].logits);
                assert((n - 1) % (BATCH_CAP as int) == to - from - 1);
                row = self.session.logits(to - from - 1);
            }
            from = to;
        }
        assert(plan.skip(k).len() == 0);
        assert(plan.take(k) =~= plan);
        Ok(row)
    }

    /// The next position on the observation sequence.
    pub fn position(&self) -> (p: i32)
        ensures
            p == self@.pos,
    {
        self.pos
    }

    /// Can one more stream token be taken? It must be one that the distribution at hand speaks of, and
    /// everything that counts tokens must be able to count it.
    pub fn can_take(&self, tok: Token) -> (r: bool)
        requires
            self@.wf(),
        ensures
            r == (self@.has_room() && self@.scores(tok)),
    {
        let speaks: bool = self.last_logits.len() == 0 || (0 <= tok.0 && (tok.0 as usize)
            < self.last_logits.len());
        let live: usize = self.window.preamble.len() + self.window.context_ids.len();
        speaks && self.pos < i32::MAX && live < i32::MAX as usize && self.window.resets
            <= u64::MAX - 2 && self.stream_index < usize::MAX
    }

    /// What the engine reports of the cache: the extent of the observation sequence and of the scratch
    /// sequence, and whether an aside is in flight alongside the stream.
    pub fn kv_debug(&self) -> (r: (i32, i32, bool))
        ensures
            r.0 == self.session.extent(0),
            r.1 == self.session.extent(GEN_SEQ),
            holds_none(self@.calls, 0) ==> r.0 == -1,
            holds_none(self@.calls, GEN_SEQ) ==> r.1 == -1,
            r.2 == (self@.gen.fused is Some),
    {
        (
            self.session.seq_pos_max(0),
            self.session.seq_pos_max(GEN_SEQ),
            self.gen.fused.is_some(),
        )
    }
}

/// A history that goes on, and one call more.
proof fn lemma_one_more(a: LobeView, b: LobeView, c: LobeView)
    requires
        continues(a, b),
        answered_once(b.answers, c.answers),
        c.calls.len() == b.calls.len() + 1,
    ensures
        continues(a, c),
{
    assert(c.answers.take(b.answers.len() as int) =~= c.answers.drop_last());
    lemma_continues_trans(a, b, c);
}

/// How much of the context is left for recent tokens beside a preamble of `len` tokens and the margin,
/// at least 1.
pub open spec fn room_for(v: LobeView, len: nat) -> usize {
    let left = v.n_ctx - len - margin_of(v.icfg.max_hint as nat, v.n_ctx);
    if left >= 1 {
        left as usize
    } else {
        1
    }
}

} // verus!
