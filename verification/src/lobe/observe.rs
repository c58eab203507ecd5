//! Observing: a stream token is scored against the distribution that the one before it left behind,
//! and then fed. `observe` does that alone; `step` feeds the token together with the next piece of an
//! aside in one pass.

use super::fused::{decode_lanes, Lane};
use super::interject::{not_staged, text_in, FusedGen, FusedView, InterjectStatus, Progress};
use super::model::{
    all_made, broke, chosen, continues, cut_short, expectation, forwarded, halts, hint_fits,
    lemma_continues_trans, lemma_cut_short_broke, lemma_feeds_succeed, lemma_made_more, lemma_made_then_broke,
    lemma_made_trans, neutral, readied, scored, started, turns, LobeView,
};
use super::sampling::{ends_sentence, likeliest, sample_topp, top_ids};
use super::types::{EvictMode, LobeError, Signal, Step, StepOutcome, Trigger};
use super::window::lemma_pushed_wf;
use super::{Lobe, GEN_SEQ, INTERJECT_SENTENCE_SLACK};
use crate::backend::{Backend, Detok, KvCall, Session, Token};
use crate::number::F32;
use crate::numerics::Numerics;
use crate::stats::Welford;
use vstd::prelude::*;

verus! {

/// The latest passes went as they should, up to one that failed.
pub open spec fn engine_failed(e: LobeError, before: Seq<KvCall>, after: Seq<KvCall>) -> bool {
    e is Backend && broke(before, after)
}

/// A fused step up to its pass: the guard, the scoring and the pass, after which the state is `f` and
/// the aside in flight stands at `status`.
pub open spec fn reached<B: Backend, N: Numerics>(
    engine: &B,
    num: &N,
    v: LobeView,
    tok: Token,
    stats: Welford,
    stats_after: Welford,
    z_threshold: F32,
    topk: nat,
    max: usize,
    step: Step,
    f: LobeView,
    status: Progress,
) -> bool {
    exists|g: LobeView, row: Vec<F32>, a: LobeView|
        #![trigger readied(v, max, g), scored(engine, num, g, row, tok, stats, stats_after, z_threshold, topk, a, step)]
        {
            &&& readied(v, max, g)
            &&& scored(
                engine,
                num,
                g,
                row,
                tok,
                stats,
                stats_after,
                z_threshold,
                topk,
                a,
                step,
            )
            &&& forwarded(engine, num, a, tok, f, status)
        }
}

/// One fused step, from the state before to the state after: the guard, the scoring, the pass, and
/// the start of an aside where the token fired and none was in flight.
pub open spec fn stepped<B: Backend, N: Numerics, R: Fn(&str) -> Option<String>>(
    engine: &B,
    num: &N,
    retrieve: R,
    v: LobeView,
    tok: Token,
    stats: Welford,
    stats_after: Welford,
    z_threshold: F32,
    topk: nat,
    max: usize,
    after: LobeView,
    out: StepOutcome,
) -> bool {
    exists|f: LobeView, status: Progress|
        {
            &&& #[trigger] reached(
                engine,
                num,
                v,
                tok,
                stats,
                stats_after,
                z_threshold,
                topk,
                max,
                out.step,
                f,
                status,
            )
            &&& if out.step.fired && v.gen.fused is None {
                &&& out.interjection@ == Progress::Started
                &&& kindled(engine, retrieve, f, out.step.token_text@, max as nat, after)
            } else {
                &&& out.interjection@ == status
                &&& after == (LobeView { index: f.index + 1, ..f })
            }
        }
}

/// What `retrieve` finds for a text.
pub open spec fn recalls<R: Fn(&str) -> Option<String>>(
    retrieve: R,
    text: Seq<char>,
    recalled: Option<Seq<char>>,
) -> bool {
    exists|query: &str, found: Option<String>|
        query@ == text && #[trigger] retrieve.ensures((query,), found) && recalled == match found {
            Some(s) => Some(s@),
            None => None,
        }
}

/// An aside starts on what `retrieve` finds for the token that fired.
pub open spec fn kindled<B: Backend, R: Fn(&str) -> Option<String>>(
    engine: &B,
    retrieve: R,
    v: LobeView,
    text: Seq<char>,
    max: nat,
    after: LobeView,
) -> bool {
    exists|recalled: Option<Seq<char>>|
        #[trigger] recalls(retrieve, text, recalled) && started(
            engine,
            v,
            max,
            recalled,
            LobeView { index: v.index, ..after },
        ) && after.index == v.index + 1
}

/// One observation, from the state before to the state after: the first token of an empty context is
/// fed without being scored, every other one is scored and fed.
pub open spec fn observed<B: Backend, N: Numerics>(
    engine: &B,
    num: &N,
    v: LobeView,
    tok: Token,
    stats: Welford,
    stats_after: Welford,
    z_threshold: F32,
    topk: nat,
    after: LobeView,
    step: Step,
) -> bool {
    let text = engine.text_of(tok, Detok::Text);
    &&& after.anchored()
    &&& continues(v, after)
    &&& if v.logits.len() == 0 {
        &&& neutral(v.index, text, step)
        &&& after == v.noted(text).fed(tok, after.answers).counted(tok)
        &&& stats_after == stats
    } else {
        exists|row: Vec<F32>, a: LobeView|
            #[trigger] scored(
                engine,
                num,
                v,
                row,
                tok,
                stats,
                stats_after,
                z_threshold,
                topk,
                a,
                step,
            ) && after == a.fed(tok, after.answers).counted(tok)
    }
}

/// One fused step, on an empty context too.
pub open spec fn advanced<B: Backend, N: Numerics, R: Fn(&str) -> Option<String>>(
    engine: &B,
    num: &N,
    retrieve: R,
    v: LobeView,
    tok: Token,
    stats: Welford,
    stats_after: Welford,
    z_threshold: F32,
    topk: nat,
    max: usize,
    after: LobeView,
    out: StepOutcome,
) -> bool {
    let text = engine.text_of(tok, Detok::Text);
    &&& after.anchored()
    &&& continues(v, after)
    &&& if v.logits.len() == 0 {
        &&& neutral(v.index, text, out.step)
        &&& out.interjection@ == Progress::Idle
        &&& after == v.noted(text).fed(tok, after.answers).counted(tok)
        &&& stats_after == stats
    } else {
        stepped(
            engine,
            num,
            retrieve,
            v,
            tok,
            stats,
            stats_after,
            z_threshold,
            topk,
            max,
            after,
            out,
        )
    }
}

/// One stream token on a frontend: a fused step where asides are on, else an observation.
pub open spec fn taken_on<B: Backend, N: Numerics, R: Fn(&str) -> Option<String>>(
    engine: &B,
    num: &N,
    retrieve: R,
    v: LobeView,
    tok: Token,
    stats: Welford,
    stats_after: Welford,
    z: F32,
    topk: nat,
    interject: Option<usize>,
    after: LobeView,
    step: Step,
    status: Progress,
) -> bool {
    match interject {
        Some(max) => exists|out: StepOutcome|
            #[trigger] advanced(
                engine,
                num,
                retrieve,
                v,
                tok,
                stats,
                stats_after,
                z,
                topk,
                max,
                after,
                out,
            ) && out.step == step && out.interjection@ == status,
        None => observed(engine, num, v, tok, stats, stats_after, z, topk, after, step) && status
            == Progress::Idle,
    }
}

/// Why a step failed: a call of the engine failed, or the token was fed and fired and the aside that was
/// to start on what `retrieve` found could not be staged.
pub open spec fn step_failed<B: Backend, N: Numerics, R: Fn(&str) -> Option<String>>(
    engine: &B,
    num: &N,
    retrieve: R,
    v: LobeView,
    tok: Token,
    stats: Welford,
    stats_after: Welford,
    z_threshold: F32,
    topk: nat,
    max: usize,
    after: LobeView,
    e: LobeError,
) -> bool {
    ||| engine_failed(e, v.calls, after.calls)
    ||| exists|step: Step, f: LobeView, status: Progress, recalled: Option<Seq<char>>|
        {
            &&& #[trigger] reached(
                engine,
                num,
                v,
                tok,
                stats,
                stats_after,
                z_threshold,
                topk,
                max,
                step,
                f,
                status,
            )
            &&& v.logits.len() > 0
            &&& step.fired
            &&& v.gen.fused is None
            &&& #[trigger] recalls(retrieve, step.token_text@, recalled)
            &&& not_staged(engine, f, max as nat, recalled, after, e)
        }
}

impl<'a, B: Backend> Lobe<'a, B> {
    /// The `k` likeliest tokens of a row, as text, with their probabilities.
    fn expectations<N: Numerics>(&self, row: &Vec<F32>, k: usize, num: &N) -> (r: Vec<
        (String, F32),
    >)
        requires
            row@.len() <= i32::MAX,
        ensures
            expectation(self.engine, num, *row, k as nat, r@),
    {
        let ids = top_ids(row, k);
        let mut r: Vec<(String, F32)> = Vec::new();
        let mut i: usize = 0;
        while i < ids.len()
            invariant
                i <= ids@.len(),
                row@.len() <= i32::MAX,
                likeliest(row@, k as nat, ids@),
                r@.len() == i,
                forall|j: int|
                    0 <= j < i ==> (#[trigger] r@[j]).0@ == self.engine.text_of(
                        Token(ids@[j] as i32),
                        Detok::Text,
                    ) && call_ensures(N::share, (num, row, ids@[j]), r@[j].1),
            decreases ids@.len() - i,
        {
            assert(ids@[i as int] < row@.len());
            let id: usize = ids[i];
            let p: F32 = num.share(row, id);
            r.push((self.detok(Token(id as i32)), p));
            i = i + 1;
        }
        r
    }

    /// Score a token against the distribution at hand and decide whether it fires.
    fn score<N: Numerics>(
        &mut self,
        tok: Token,
        stats: &mut Welford,
        z_threshold: F32,
        topk: usize,
        num: &N,
    ) -> (step: Step)
        requires
            old(self)@.wf(),
            old(self).window.wf(),
            old(self)@.logits.len() > 0,
            old(self)@.scores(tok),
            old(stats).count < u64::MAX,
        ensures
            scored(
                old(self).engine,
                num,
                old(self)@,
                old(self).last_logits,
                tok,
                *old(stats),
                *final(stats),
                z_threshold,
                topk as nat,
                final(self)@,
                step,
            ),
            final(self)@.wf(),
            final(self).window.wf(),
            final(self).engine == old(self).engine,
            final(self).debug == old(self).debug,
    {
        let surprisal: F32 = num.surprisal(&self.last_logits, tok);
        let entropy: F32 = num.entropy(&self.last_logits);
        let value: F32 = match self.firing.signal {
            Signal::Surprisal => surprisal,
            Signal::Entropy => entropy,
        };
        let z: F32 = num.z(stats, value);
        stats.update(value, num);
        let text = self.detok(tok);
        self.remember(text.as_str());
        self.memory.push_span(text.as_str());
        let suppressed: bool = self.window.tick_settle();
        let warm: bool = stats.warm();
        let (fired, _, _) = self.firing.decide(
            text.as_str(),
            z,
            z_threshold,
            warm,
            suppressed,
            num,
        );
        if fired {
            self.memory.snapshot_span();
        }
        let trigger: Option<Trigger> = if fired {
            let expected = self.expectations(&self.last_logits, topk, num);
            Some(
                Trigger {
                    stream_index: self.stream_index,
                    token_text: text.clone(),
                    surprisal,
                    entropy,
                    z,
                    expected,
                },
            )
        } else {
            None
        };
        assert(self@.window.live() == old(self)@.window.live());
        Step {
            stream_index: self.stream_index,
            token_text: text,
            surprisal,
            entropy,
            z,
            fired,
            trigger,
        }
    }

    /// Feed a token that nothing predicted: it is noted and fed, and nothing is scored.
    fn observe_neutral(&mut self, tok: Token) -> (r: Result<Step, LobeError>)
        requires
            old(self)@.wf(),
            old(self).window.wf(),
            old(self)@.has_room(),
        ensures
            match r {
                Ok(step) => {
                    let text = old(self).engine.text_of(tok, Detok::Text);
                    &&& neutral(old(self)@.index, text, step)
                    &&& final(self)@ == old(self)@.noted(text).fed(
                        tok,
                        final(self)@.answers,
                    ).counted(tok)
                    &&& final(self)@.anchored()
                },
                Err(e) => e is Backend && cut_short(
                    old(self)@.calls,
                    old(self)@.fed_calls(tok),
                    final(self)@.calls,
                ),
            },
            continues(old(self)@, final(self)@),
            final(self)@.wf(),
            final(self).window.wf(),
            final(self).engine == old(self).engine,
            final(self).debug == old(self).debug,
    {
        let text = self.detok(tok);
        self.remember(text.as_str());
        self.memory.push_span(text.as_str());
        match self.decode_one(tok) {
            Ok(()) => {},
            Err(e) => {
                return Err(e);
            },
        }
        proof {
            lemma_pushed_wf(self@.window, tok);
            assert(self@.window.replay().len() <= self@.window.live().len());
        }
        self.window.push_id(tok);
        let index: usize = self.stream_index;
        self.stream_index = self.stream_index + 1;
        Ok(
            Step {
                stream_index: index,
                token_text: text,
                surprisal: F32(0),
                entropy: F32(0),
                z: F32(0),
                fired: false,
                trigger: None,
            },
        )
    }

    /// Observe one stream token: score it against the distribution that the token before it left
    /// behind, then feed it. The first token of an empty context is fed without being scored.
    pub fn observe<N: Numerics>(
        &mut self,
        tok: Token,
        stats: &mut Welford,
        z_threshold: F32,
        topk: usize,
        num: &N,
    ) -> (r: Result<Step, LobeError>)
        requires
            old(self)@.wf(),
            old(self).window.wf(),
            old(self)@.has_room(),
            old(self)@.scores(tok),
            old(stats).count < u64::MAX,
        ensures
            match r {
                Ok(step) => {
                    let text = old(self).engine.text_of(tok, Detok::Text);
                    &&& if old(self)@.logits.len() == 0 {
                        &&& neutral(old(self)@.index, text, step)
                        &&& final(self)@ == old(self)@.noted(text).fed(
                            tok,
                            final(self)@.answers,
                        ).counted(tok)
                        &&& *final(stats) == *old(stats)
                    } else {
                        exists|a: LobeView|
                            #[trigger] scored(
                                old(self).engine,
                                num,
                                old(self)@,
                                old(self).last_logits,
                                tok,
                                *old(stats),
                                *final(stats),
                                z_threshold,
                                topk as nat,
                                a,
                                step,
                            ) && final(self)@ == a.fed(tok, final(self)@.answers).counted(tok)
                    }
                    &&& final(self)@.anchored()
                },
                Err(e) => e is Backend && cut_short(
                    old(self)@.calls,
                    old(self)@.fed_calls(tok),
                    final(self)@.calls,
                ),
            },
            continues(old(self)@, final(self)@),
            final(self)@.wf(),
            final(self).window.wf(),
            final(self).engine == old(self).engine,
            final(self).debug == old(self).debug,
    {
        if self.last_logits.len() == 0 {
            return self.observe_neutral(tok);
        }
        let step = self.score(tok, stats, z_threshold, topk, num);
        let ghost a = self@;
        assert(a.fed_calls(tok) == old(self)@.fed_calls(tok));
        match self.decode_one(tok) {
            Ok(()) => {},
            Err(e) => {
                return Err(e);
            },
        }
        proof {
            lemma_pushed_wf(self@.window, tok);
            assert(self@.window.replay().len() <= self@.window.live().len());
        }
        self.window.push_id(tok);
        self.stream_index = self.stream_index + 1;
        Ok(step)
    }

    /// Take over the length hint and make a reset where one is due. While an aside is in flight a
    /// reset waits: the forked cells must not be disturbed.
    fn ready(&mut self, max: usize) -> (r: Result<(), LobeError>)
        requires
            old(self)@.wf(),
            old(self).window.wf(),
            old(self)@.window.resets < u64::MAX,
            old(self)@.logits.len() > 0,
            old(self)@.anchored(),
            hint_fits(max as nat),
        ensures
            match r {
                Ok(()) => readied(old(self)@, max, final(self)@) && final(self)@.logits.len() > 0,
                Err(e) => engine_failed(e, old(self)@.calls, final(self)@.calls),
            },
            continues(old(self)@, final(self)@),
            final(self)@.wf(),
            final(self).window.wf(),
            final(self).engine == old(self).engine,
            final(self).debug == old(self).debug,
    {
        self.icfg.max_hint = max;
        let ghost h = self@;
        assert(h.answers.take(h.answers.len() as int) =~= h.answers);
        if self.window.evict == EvictMode::Reset && self.gen.fused.is_none() {
            let margin: i32 = self.roll_margin();
            if self.pos >= self.n_ctx - margin {
                assert(h.due());
                match self.roll() {
                    Ok(()) => {},
                    Err(e) => {
                        proof {
                            lemma_roll_calls_succeed(h);
                            lemma_cut_short_broke(h.calls, h.roll_calls(), self@.calls);
                        }
                        return Err(e);
                    },
                }
            }
        }
        Ok(())
    }

    /// Feed a stream token and the next piece of the aside in one pass, and move the aside on.
    #[verifier::rlimit(40)]
    fn forward<N: Numerics>(&mut self, tok: Token, num: &N) -> (r: Result<
        InterjectStatus,
        LobeError,
    >)
        requires
            old(self)@.wf(),
            old(self).window.wf(),
            old(self)@.pos < i32::MAX,
            old(self)@.window.live().len() < i32::MAX,
        ensures
            match r {
                Ok(status) => {
                    &&& forwarded(
                        old(self).engine,
                        num,
                        old(self)@,
                        tok,
                        final(self)@,
                        status@,
                    )
                    &&& final(self)@.anchored()
                },
                Err(e) => engine_failed(e, old(self)@.calls, final(self)@.calls),
            },
            continues(old(self)@, final(self)@),
            final(self)@.wf(),
            final(self).window.wf(),
            final(self).engine == old(self).engine,
            final(self).debug == old(self).debug,
    {
        let ghost v = self@;
        let lanes = self.collect_lanes(tok);
        let rows = match decode_lanes(&mut self.session, &lanes) {
            Ok(rows) => rows,
            Err(e) => {
                assert(self@.calls.take(v.calls.len() as int) =~= v.calls);
                assert(self@.answers.take(v.answers.len() as int) =~= self@.answers.drop_last());
                return Err(LobeError::Backend(e));
            },
        };
        let ghost got = self@.answers.last();
        proof {
            assert(self@.answers.take(v.answers.len() as int) =~= self@.answers.drop_last());
            assert(self@.answers =~= v.answers.push(got));
        }
        self.last_logits = copied_row(&rows[0]);
        let status = match self.gen.fused.take() {
            None => InterjectStatus::Idle,
            Some(FusedGen::Prefill { ask, next, pos, max }) => {
                let left: usize = ask.len() - next;
                let k: usize = if self.icfg.prefill_chunk <= left {
                    self.icfg.prefill_chunk
                } else {
                    left
                };
                let blank = String::new();
                assert(blank@ =~= Seq::empty());
                if k < left {
                    self.gen.fused = Some(
                        FusedGen::Prefill { ask, next: next + k, pos: pos + k as i32, max },
                    );
                    InterjectStatus::Working(blank)
                } else {
                    assert(lanes@[k as int].logits);
                    let row = &rows[k];
                    let first = sample_topp(
                        row,
                        self.icfg.temp,
                        self.icfg.top_p,
                        &mut self.gen.rng,
                        num,
                    );
                    assert(row@ == got[k as int]);
                    assert(chosen(num, v, got[k as int], self@.gen.rng, first));
                    if self.is_turn(first) {
                        match self.session.clear_seq(GEN_SEQ) {
                            Ok(()) => {},
                            Err(e) => {
                                assert(self@.calls.take(v.calls.len() as int) =~= v.calls);
                                assert(self@.answers.take(v.answers.len() as int) =~= v.answers);
                                return Err(LobeError::Backend(e));
                            },
                        }
                        InterjectStatus::Done(blank)
                    } else {
                        self.gen.fused = Some(
                            FusedGen::Reply {
                                pending: first,
                                pos: pos + k as i32,
                                produced: 0,
                                max,
                                out: String::new(),
                            },
                        );
                        InterjectStatus::Working(blank)
                    }
                }
            },
            Some(FusedGen::Reply { pending, pos, produced, max, mut out }) => {
                out.append(self.detok_gen(pending).as_str());
                assert(lanes@[1].logits);
                let row = &rows[1];
                let next = sample_topp(
                    row,
                    self.icfg.temp,
                    self.icfg.top_p,
                    &mut self.gen.rng,
                    num,
                );
                assert(row@ == got[1]);
                assert(chosen(num, v, got[1], self@.gen.rng, next));
                let produced: usize = produced + 1;
                if self.is_halt(next, produced, max, out.as_str()) {
                    match self.session.clear_seq(GEN_SEQ) {
                        Ok(()) => {},
                        Err(e) => {
                            assert(self@.calls.take(v.calls.len() as int) =~= v.calls);
                            assert(self@.answers.take(v.answers.len() as int) =~= v.answers);
                            return Err(LobeError::Backend(e));
                        },
                    }
                    InterjectStatus::Done(out)
                } else {
                    let so_far = out.clone();
                    self.gen.fused = Some(
                        FusedGen::Reply { pending: next, pos: pos + 1, produced, max, out },
                    );
                    InterjectStatus::Working(so_far)
                }
            },
        };
        proof {
            lemma_pushed_wf(self@.window, tok);
        }
        self.window.push_id(tok);
        self.pos = self.pos + 1;
        proof {
            assert(self@.answers.take(v.answers.len() as int) =~= v.answers);
            assert(self@.answers[v.answers.len() as int] == got);
        }
        Ok(status)
    }

    /// One fused step: observe a stream token and move the aside in flight on, in a single pass, so
    /// that observing never waits for generating. A token that fires starts an aside where none is in
    /// flight, on whatever `retrieve` finds for it.
    #[verifier::rlimit(40)]
    pub fn step<N: Numerics, R: Fn(&str) -> Option<String>>(
        &mut self,
        tok: Token,
        stats: &mut Welford,
        z_threshold: F32,
        topk: usize,
        interject_max: usize,
        retrieve: &R,
        num: &N,
    ) -> (r: Result<StepOutcome, LobeError>)
        requires
            old(self)@.wf(),
            old(self).window.wf(),
            old(self)@.has_room(),
            old(self)@.scores(tok),
            old(self)@.anchored(),
            hint_fits(interject_max as nat),
            old(stats).count < u64::MAX,
            forall|s: &str| #[trigger] retrieve.requires((s,)),
        ensures
            match r {
                Ok(out) => {
                    let text = old(self).engine.text_of(tok, Detok::Text);
                    &&& if old(self)@.logits.len() == 0 {
                        &&& neutral(old(self)@.index, text, out.step)
                        &&& out.interjection@ == Progress::Idle
                        &&& final(self)@ == old(self)@.noted(text).fed(
                            tok,
                            final(self)@.answers,
                        ).counted(tok)
                        &&& *final(stats) == *old(stats)
                    } else {
                        stepped(
                            old(self).engine,
                            num,
                            *retrieve,
                            old(self)@,
                            tok,
                            *old(stats),
                            *final(stats),
                            z_threshold,
                            topk as nat,
                            interject_max,
                            final(self)@,
                            out,
                        )
                    }
                    &&& final(self)@.anchored()
                },
                Err(e) => step_failed(
                    old(self).engine,
                    num,
                    *retrieve,
                    old(self)@,
                    tok,
                    *old(stats),
                    *final(stats),
                    z_threshold,
                    topk as nat,
                    interject_max,
                    final(self)@,
                    e,
                ),
            },
            continues(old(self)@, final(self)@),
            final(self)@.wf(),
            final(self).window.wf(),
            final(self).engine == old(self).engine,
            final(self).debug == old(self).debug,
    {
        let ghost v = self@;
        if self.last_logits.len() == 0 {
            proof {
                lemma_fed_calls_succeed(v, tok);
            }
            return match self.observe_neutral(tok) {
                Ok(step) => Ok(StepOutcome { step, interjection: InterjectStatus::Idle }),
                Err(e) => {
                    proof {
                        lemma_cut_short_broke(v.calls, v.fed_calls(tok), self@.calls);
                    }
                    Err(e)
                },
            };
        }
        match self.ready(interject_max) {
            Ok(()) => {},
            Err(e) => {
                return Err(e);
            },
        }
        let ghost g = self@;
        let ghost row = self.last_logits;
        proof {
            lemma_readied_made(v, interject_max, g);
        }
        let step = self.score(tok, stats, z_threshold, topk, num);
        let ghost a = self@;
        let idle: bool = self.gen.fused.is_none();
        let status = match self.forward(tok, num) {
            Ok(status) => status,
            Err(e) => {
                proof {
                    lemma_continues_trans(v, a, self@);
                    lemma_made_then_broke(v.calls, a.calls, self@.calls);
                }
                return Err(e);
            },
        };
        let ghost f = self@;
        let ghost first = status@;
        proof {
            lemma_continues_trans(v, a, f);
        }
        assert(readied(v, interject_max, g) && scored(
            self.engine,
            num,
            g,
            row,
            tok,
            *old(stats),
            *stats,
            z_threshold,
            topk as nat,
            a,
            step,
        ) && forwarded(self.engine, num, a, tok, f, first));
        assert(reached(
            self.engine,
            num,
            v,
            tok,
            *old(stats),
            *stats,
            z_threshold,
            topk as nat,
            interject_max,
            step,
            f,
            first,
        ));
        let mut interjection = status;
        if step.fired && idle {
            proof {
                lemma_forwarded_made(self.engine, num, a, tok, f, first);
                lemma_made_trans(v.calls, a.calls, f.calls);
            }
            let found = retrieve(step.token_text.as_str());
            let recalled: Option<&str> = match &found {
                Some(s) => Some(s.as_str()),
                None => None,
            };
            proof {
                assert(text_in(recalled) == match found {
                    Some(s) => Some(s@),
                    None => None,
                });
                assert(recalls(*retrieve, step.token_text@, text_in(recalled)));
            }
            let staged = self.start_fused_interjection(interject_max, recalled);
            proof {
                lemma_continues_trans(v, f, self@);
            }
            match staged {
                Ok(()) => {},
                Err(e) => {
                    return Err(e);
                },
            }
            proof {
                lemma_started_anchored(self.engine, f, interject_max as nat, text_in(recalled), self@);
            }
            interjection = InterjectStatus::Started;
        }
        let ghost e = self@;
        self.stream_index = self.stream_index + 1;
        let out = StepOutcome { step, interjection };
        proof {
            if out.step.fired && idle {
                assert(LobeView { index: f.index, ..self@ } == e);
            }
        }
        Ok(out)
    }

    /// The lanes of the next step.
    fn collect_lanes(&self, tok: Token) -> (lanes: Vec<Lane>)
        requires
            self@.wf(),
        ensures
            lanes@ == self@.lanes(tok),
            lanes@.len() > 0,
    {
        let mut lanes: Vec<Lane> = Vec::new();
        lanes.push(Lane { token: tok, pos: self.pos, seq: 0, logits: true });
        match &self.gen.fused {
            None => {},
            Some(FusedGen::Prefill { ask, next, pos, max }) => {
                let left: usize = ask.len() - *next;
                let k: usize = if self.icfg.prefill_chunk <= left {
                    self.icfg.prefill_chunk
                } else {
                    left
                };
                let last: usize = ask.len() - 1;
                let mut i: usize = 0;
                let ghost all = self@.gen_lanes();
                assert(lanes@ =~= self@.lanes(tok).take(1));
                while i < k
                    invariant
                        i <= k,
                        k == self@.chunk_of(ask@.len() - *next),
                        self@.gen.fused == Some(
                            FusedView::Prefill {
                                ask: ask@,
                                next: *next as int,
                                pos: *pos as int,
                                max: *max as nat,
                            },
                        ),
                        self@.wf(),
                        last == ask@.len() - 1,
                        k <= ask@.len() - *next,
                        lanes@ == self@.lanes(tok).take(1 + i),
                    decreases k - i,
                {
                    lanes.push(
                        Lane {
                            token: ask[*next + i],
                            pos: *pos + i as i32,
                            seq: GEN_SEQ,
                            logits: *next + i == last,
                        },
                    );
                    i = i + 1;
                    assert(lanes@ =~= self@.lanes(tok).take(1 + i));
                }
                assert(self@.lanes(tok).take(1 + k) =~= self@.lanes(tok));
            },
            Some(FusedGen::Reply { pending, pos, produced, max, out }) => {
                lanes.push(Lane { token: *pending, pos: *pos, seq: GEN_SEQ, logits: true });
            },
        }
        assert(lanes@ =~= self@.lanes(tok));
        lanes
    }

    /// Is this token the end of a turn, or the start of another?
    pub fn is_turn(&self, tok: Token) -> (r: bool)
        ensures
            r == turns(self.engine, self@, tok),
    {
        self.engine.is_eog(tok) || is_token(self.eot, tok) || is_token(self.sot, tok)
    }

    /// Does a reply that has reached `out` stop before `tok`?
    pub fn is_halt(&self, tok: Token, produced: usize, max: usize, out: &str) -> (r: bool)
        requires
            max + INTERJECT_SENTENCE_SLACK <= usize::MAX,
        ensures
            r == halts(self.engine, self@, tok, produced as nat, max as nat, out@),
    {
        self.is_turn(tok) || produced >= max + INTERJECT_SENTENCE_SLACK || (produced >= max
            && ends_sentence(out))
    }
}

fn is_token(a: Option<Token>, tok: Token) -> (r: bool)
    ensures
        r == (a == Some(tok)),
{
    match a {
        Some(t) => t == tok,
        None => false,
    }
}

/// A row of logits once more.
pub fn copied_row(row: &Vec<F32>) -> (v: Vec<F32>)
    ensures
        v@ == row@,
{
    let mut v: Vec<F32> = Vec::with_capacity(row.len());
    let mut i: usize = 0;
    while i < row.len()
        invariant
            i <= row@.len(),
            v@ == row@.take(i as int),
        decreases row@.len() - i,
    {
        v.push(row[i]);
        i = i + 1;
        assert(row@.take(i as int) =~= row@.take(i - 1).push(row@[i - 1]));
    }
    assert(row@.take(i as int) =~= row@);
    v
}

pub proof fn lemma_roll_calls_succeed(v: LobeView)
    ensures
        forall|i: int|
            0 <= i < v.roll_calls().len() ==> (#[trigger] v.roll_calls()[i]).succeeded(),
{
    let part = feeds_of(v);
    lemma_feeds_succeed(v.window.replay(), 0, 0, 0);
    assert forall|i: int| 0 <= i < v.roll_calls().len() implies (
    #[trigger] v.roll_calls()[i]).succeeded() by {
        if i > 0 {
            assert(v.roll_calls()[i] == part[i - 1]);
        }
    }
}

proof fn lemma_fed_calls_succeed(v: LobeView, tok: Token)
    ensures
        forall|i: int|
            0 <= i < v.fed_calls(tok).len() ==> (#[trigger] v.fed_calls(tok)[i]).succeeded(),
{
    lemma_roll_calls_succeed(v);
    assert forall|i: int| 0 <= i < v.fed_calls(tok).len() implies (
    #[trigger] v.fed_calls(tok)[i]).succeeded() by {
        if v.due() && i < v.roll_calls().len() {
            assert(v.fed_calls(tok)[i] == v.roll_calls()[i]);
        }
    }
}

proof fn lemma_readied_made(v: LobeView, max: usize, g: LobeView)
    requires
        readied(v, max, g),
    ensures
        all_made(v.calls, g.calls),
{
    assert(v.calls.take(v.calls.len() as int) =~= v.calls);
    lemma_roll_calls_succeed(v);
    lemma_made_more(v.calls, v.calls, v.roll_calls());
}

proof fn lemma_forwarded_made<B: Backend, N: Numerics>(
    engine: &B,
    num: &N,
    v: LobeView,
    tok: Token,
    after: LobeView,
    status: Progress,
)
    requires
        forwarded(engine, num, v, tok, after, status),
        v.gen.fused is None,
    ensures
        all_made(v.calls, after.calls),
        status == Progress::Idle,
{
    assert(v.calls.take(v.calls.len() as int) =~= v.calls);
    assert(after.calls.take(v.calls.len() as int) =~= v.calls);
}

proof fn lemma_started_anchored<B: Backend>(
    engine: &B,
    v: LobeView,
    max: nat,
    recalled: Option<Seq<char>>,
    after: LobeView,
)
    requires
        started(engine, v, max, recalled, after),
        v.anchored(),
    ensures
        after.anchored(),
{
}

spec fn feeds_of(v: LobeView) -> Seq<KvCall> {
    super::model::feeds(v.window.replay(), 0, 0, 0)
}

} // verus!
