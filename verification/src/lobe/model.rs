//! The observer as a value, and what each of its operations does to it.
//!
//! An operation that depends on what the inference engine or the arithmetic answers is a relation
//! between the state before and the state after; all else is a function.

use super::firing::Firing;
use super::fused::{batch_of, Lane};
use super::interject::{FsmView, FusedView, GenView, InterjectConfig, Progress};
use super::novelty::{concat, newest, MemoryView};
use super::sampling::{aligned, likeliest, sampled, sentence_end, snippet_of};
use super::types::{AskMode, EvictMode, InterjectMode, NoveltyMode, Signal, Step};
use super::window::{last_n, WindowView};
use super::{
    BATCH_CAP, GEN_SEQ, INTERJECT_SENTENCE_SLACK, MAX_SPAN_TOKENS, RECALL_BYTES, RECENT_TOKENS,
};
use crate::backend::{Answers, Backend, Decode, Detok, KvCall, Token};
use crate::number::F32;
use crate::numerics::Numerics;
use crate::prompt::{context_ask, snippet_ask};
use crate::stats::Welford;
use crate::text::{joined, trimmed};
use vstd::prelude::*;

verus! {

// ---------------------------------------------------------------------------------------------
// Calls
// ---------------------------------------------------------------------------------------------

/// Where the batch that starts at `from` ends.
pub open spec fn batch_end(n: int, from: int) -> int {
    if from + BATCH_CAP <= n {
        from + BATCH_CAP
    } else {
        n
    }
}

/// The batch of the tokens `from..to` of a run that starts at position `base`: only the last token of
/// the whole run wants its distribution.
pub open spec fn feed_batch(toks: Seq<Token>, from: int, to: int, base: int, seq: u32) -> Seq<Decode> {
    Seq::new(
        (to - from) as nat,
        |i: int|
            Decode {
                token: toks[from + i],
                pos: (base + from + i) as i32,
                seq,
                logits: from + i == toks.len() - 1,
            },
    )
}

/// The passes that feed the tokens of a run from `from` on, batch by batch.
pub open spec fn feeds(toks: Seq<Token>, from: int, base: int, seq: u32) -> Seq<KvCall>
    decreases toks.len() - from,
{
    if from < 0 || from >= toks.len() {
        Seq::empty()
    } else {
        let to = batch_end(toks.len() as int, from);
        seq![KvCall::Decode { batch: feed_batch(toks, from, to, base, seq), ok: true }] + feeds(
            toks,
            to,
            base,
            seq,
        )
    }
}

/// The pass that feeds one token to the observation sequence.
pub open spec fn feed_one(tok: Token, pos: int) -> KvCall {
    KvCall::Decode {
        batch: seq![Decode { token: tok, pos: pos as i32, seq: 0, logits: true }],
        ok: true,
    }
}

/// The same call, failed.
pub open spec fn failed(call: KvCall) -> KvCall {
    match call {
        KvCall::Decode { batch, .. } => KvCall::Decode { batch, ok: false },
        KvCall::Clear { seq, .. } => KvCall::Clear { seq, ok: false },
        KvCall::Copy { src, dst, .. } => KvCall::Copy { src, dst, ok: false },
    }
}

/// The calls went as planned until one of them failed, and nothing was called after it.
pub open spec fn cut_short(before: Seq<KvCall>, plan: Seq<KvCall>, after: Seq<KvCall>) -> bool {
    exists|k: int|
        0 <= k < plan.len() && after == #[trigger] (before + plan.take(k)).push(failed(plan[k]))
}

/// Some calls were made, all of them succeeded but the last, and nothing was called after it.
pub open spec fn broke(before: Seq<KvCall>, after: Seq<KvCall>) -> bool {
    &&& before.len() < after.len()
    &&& after.take(before.len() as int) == before
    &&& !after.last().succeeded()
    &&& forall|i: int| before.len() <= i < after.len() - 1 ==> (#[trigger] after[i]).succeeded()
}

/// Some calls were made and all of them succeeded.
pub open spec fn all_made(before: Seq<KvCall>, after: Seq<KvCall>) -> bool {
    &&& before.len() <= after.len()
    &&& after.take(before.len() as int) == before
    &&& forall|i: int| before.len() <= i < after.len() ==> (#[trigger] after[i]).succeeded()
}

/// Calls that succeeded, and then more of them.
pub proof fn lemma_made_trans(a: Seq<KvCall>, b: Seq<KvCall>, c: Seq<KvCall>)
    requires
        all_made(a, b),
        all_made(b, c),
    ensures
        all_made(a, c),
{
    assert(c.take(a.len() as int) =~= c.take(b.len() as int).take(a.len() as int));
    assert forall|i: int| a.len() <= i < c.len() implies (#[trigger] c[i]).succeeded() by {
        if i < b.len() {
            assert(c[i] == c.take(b.len() as int)[i]);
            assert(b[i].succeeded());
        }
    }
}

/// Calls that succeeded, and then a plan that did.
pub proof fn lemma_made_more(a: Seq<KvCall>, b: Seq<KvCall>, plan: Seq<KvCall>)
    requires
        all_made(a, b),
        forall|i: int| 0 <= i < plan.len() ==> (#[trigger] plan[i]).succeeded(),
    ensures
        all_made(a, b + plan),
{
    assert((b + plan).take(b.len() as int) =~= b);
    assert forall|i: int| b.len() <= i < (b + plan).len() implies (
    #[trigger] (b + plan)[i]).succeeded() by {
        assert((b + plan)[i] == plan[i - b.len()]);
    }
    lemma_made_trans(a, b, b + plan);
}

/// Calls that succeeded, and then one that failed.
pub proof fn lemma_made_then_failed(a: Seq<KvCall>, b: Seq<KvCall>, call: KvCall)
    requires
        all_made(a, b),
        !call.succeeded(),
    ensures
        broke(a, b.push(call)),
{
    assert(b.push(call).take(a.len() as int) =~= b.take(a.len() as int));
    assert forall|i: int| a.len() <= i < b.push(call).len() - 1 implies (#[trigger] b.push(
        call,
    )[i]).succeeded() by {
        assert(b[i].succeeded());
    }
}

/// Calls that succeeded, and then some that broke.
pub proof fn lemma_made_then_broke(a: Seq<KvCall>, b: Seq<KvCall>, c: Seq<KvCall>)
    requires
        all_made(a, b),
        broke(b, c),
    ensures
        broke(a, c),
{
    assert(c.take(a.len() as int) =~= c.take(b.len() as int).take(a.len() as int));
    assert forall|i: int| a.len() <= i < c.len() - 1 implies (#[trigger] c[i]).succeeded() by {
        if i < b.len() {
            assert(c[i] == c.take(b.len() as int)[i]);
            assert(b[i].succeeded());
        }
    }
}

/// What was cut short broke.
pub proof fn lemma_cut_short_broke(before: Seq<KvCall>, plan: Seq<KvCall>, after: Seq<KvCall>)
    requires
        cut_short(before, plan, after),
        forall|i: int| 0 <= i < plan.len() ==> (#[trigger] plan[i]).succeeded(),
    ensures
        broke(before, after),
{
    let k = choose|k: int|
        0 <= k < plan.len() && after == #[trigger] (before + plan.take(k)).push(failed(plan[k]));
    assert(after.take(before.len() as int) =~= before);
    assert forall|i: int| before.len() <= i < after.len() - 1 implies (
    #[trigger] after[i]).succeeded() by {
        assert(after[i] == plan[i - before.len()]);
    }
}

/// Planned passes succeed.
pub proof fn lemma_feeds_succeed(toks: Seq<Token>, from: int, base: int, seq: u32)
    ensures
        forall|i: int|
            0 <= i < feeds(toks, from, base, seq).len() ==> (#[trigger] feeds(
                toks,
                from,
                base,
                seq,
            )[i]).succeeded(),
    decreases toks.len() - from,
{
    if 0 <= from < toks.len() {
        let to = batch_end(toks.len() as int, from);
        lemma_feeds_succeed(toks, to, base, seq);
        let all = feeds(toks, from, base, seq);
        let rest = feeds(toks, to, base, seq);
        assert forall|i: int| 0 <= i < all.len() implies (#[trigger] all[i]).succeeded() by {
            if i > 0 {
                assert(all[i] == rest[i - 1]);
            }
        }
    }
}

// ---------------------------------------------------------------------------------------------
// The state
// ---------------------------------------------------------------------------------------------

/// The observer as a value.
pub struct LobeView {
    /// The distribution that predicts the next stream token; empty where there is none yet. What it
    /// is a row of is said by the operation that leaves it behind.
    pub logits: Seq<F32>,
    /// The next position on the observation sequence.
    pub pos: int,
    /// How many stream tokens have been observed.
    pub index: int,
    /// The texts of the latest stream tokens.
    pub recent: Seq<Seq<char>>,
    pub firing: Firing,
    pub n_ctx: int,
    pub window: WindowView,
    pub eot: Option<Token>,
    pub sot: Option<Token>,
    pub icfg: InterjectConfig,
    pub memory: MemoryView,
    pub gen: GenView,
    /// The calls made on the session.
    pub calls: Seq<KvCall>,
    /// What each of them answered.
    pub answers: Answers,
    /// The size of the vocabulary.
    pub width: nat,
}

/// The history of `after` goes on from that of `before`: what was answered stays on record, and each
/// call has its answer.
pub open spec fn continues(before: LobeView, after: LobeView) -> bool {
    &&& after.answers.len() == after.calls.len()
    &&& before.answers.len() <= after.answers.len()
    &&& after.answers.take(before.answers.len() as int) == before.answers
}

/// A history goes on from itself.
pub proof fn lemma_continues_self(v: LobeView)
    requires
        v.answers.len() == v.calls.len(),
    ensures
        continues(v, v),
{
    assert(v.answers.take(v.answers.len() as int) =~= v.answers);
}

/// A history that goes on from one that goes on.
pub proof fn lemma_continues_trans(a: LobeView, b: LobeView, c: LobeView)
    requires
        continues(a, b),
        continues(b, c),
    ensures
        continues(a, c),
{
    let n = a.answers.len() as int;
    assert(c.answers.take(n) =~= c.answers.take(b.answers.len() as int).take(n));
}

/// The row that the last of `n` tokens fed in batches left behind, where they were fed last.
pub open spec fn last_row(answers: Answers, n: int) -> Seq<F32> {
    answers.last()[(n - 1) % (BATCH_CAP as int)]
}

/// An aside of this length can be counted: the reset margin that it asks for is a position.
pub open spec fn hint_fits(max: nat) -> bool {
    MAX_SPAN_TOKENS + 128 + 5 * max <= i32::MAX
}

/// How far below the end of the context a reset is due, so that an aside that starts just above it
/// still fits beside the growing stream; at most three quarters of the context, so that the stream
/// keeps a window however small it is.
pub open spec fn margin_of(max: nat, n_ctx: int) -> int {
    let wanted = MAX_SPAN_TOKENS + 128 + 5 * max;
    let most = n_ctx * 3 / 4;
    if wanted <= most {
        wanted
    } else {
        most
    }
}

/// An aside whose ask of `len` tokens starts at `start` stays within the positions that can be
/// counted.
pub open spec fn countable(start: int, len: nat, max: nat) -> bool {
    start + len + max + INTERJECT_SENTENCE_SLACK + 1 <= i32::MAX
}

impl FsmView {
    pub open spec fn wf(self, width: nat) -> bool {
        match self {
            FsmView::Prefill { toks, start, max } => {
                &&& toks.len() > 0
                &&& 0 <= start
                &&& hint_fits(max)
                &&& countable(start, toks.len(), max)
            },
            FsmView::Gen { pos, produced, max, out, logits } => {
                &&& logits.len() == width
                &&& hint_fits(max)
                &&& produced <= max + INTERJECT_SENTENCE_SLACK
                &&& 0 <= pos
                &&& pos + (max + INTERJECT_SENTENCE_SLACK - produced) + 1 <= i32::MAX
            },
        }
    }
}

impl FusedView {
    pub open spec fn wf(self) -> bool {
        match self {
            FusedView::Prefill { ask, next, pos, max } => {
                &&& 0 <= next < ask.len()
                &&& 0 <= pos
                &&& hint_fits(max)
                &&& countable(pos, (ask.len() - next) as nat, max)
            },
            FusedView::Reply { pending, pos, produced, max, out } => {
                &&& hint_fits(max)
                &&& produced < max + INTERJECT_SENTENCE_SLACK
                &&& 0 <= pos
                &&& pos + (max + INTERJECT_SENTENCE_SLACK - produced) + 1 <= i32::MAX
            },
        }
    }
}

impl GenView {
    pub open spec fn wf(self, width: nat) -> bool {
        &&& self.fsm matches Some(s) ==> s.wf(width)
        &&& self.fused matches Some(f) ==> f.wf()
    }
}

impl LobeView {
    /// The shape that every operation keeps, also where it fails.
    pub open spec fn wf(self) -> bool {
        &&& self.window.wf()
        &&& self.window.roomy()
        &&& self.window.live().len() <= i32::MAX
        &&& 0 <= self.pos <= i32::MAX
        &&& 0 <= self.index <= usize::MAX
        &&& 0 <= self.n_ctx
        &&& 3 * self.n_ctx <= i32::MAX
        &&& hint_fits(self.icfg.max_hint as nat)
        &&& self.icfg.prefill_chunk >= 1
        &&& self.recent.len() <= RECENT_TOKENS
        &&& self.memory.bounded()
        &&& 0 < self.width <= i32::MAX
        &&& self.logits.len() == 0 || self.logits.len() == self.width
        &&& self.gen.wf(self.width)
        &&& self.answers.len() == self.calls.len()
    }

    /// One more stream token can be counted.
    pub open spec fn has_room(self) -> bool {
        &&& self.pos < i32::MAX
        &&& self.window.live().len() < i32::MAX
        &&& self.window.resets + 2 <= u64::MAX
        &&& self.index < usize::MAX
    }

    /// A distribution is at hand only where a reset would have something to replay. Holds of every
    /// observer but one that was primed with nothing in the middle of a stream.
    pub open spec fn anchored(self) -> bool {
        self.logits.len() > 0 ==> self.window.replay().len() > 0
    }

    /// The token is one that the distribution at hand speaks of.
    pub open spec fn scores(self, tok: Token) -> bool {
        self.logits.len() > 0 ==> 0 <= tok.0 < self.width
    }

    // -- resets

    /// Is a reset due?
    pub open spec fn due(self) -> bool {
        self.window.evict == EvictMode::Reset && self.pos >= self.n_ctx - margin_of(
            self.icfg.max_hint as nat,
            self.n_ctx,
        )
    }

    /// The calls of a reset: the observation sequence is dropped and fed the replay.
    pub open spec fn roll_calls(self) -> Seq<KvCall> {
        seq![KvCall::Clear { seq: 0, ok: true }] + feeds(self.window.replay(), 0, 0, 0)
    }

    /// The observer after a reset that brought the answers to `answers`: the distribution at hand is the
    /// one that the last replayed token left behind.
    pub open spec fn rolled(self, answers: Answers) -> LobeView {
        LobeView {
            logits: if self.window.replay().len() == 0 {
                Seq::empty()
            } else {
                last_row(answers, self.window.replay().len() as int)
            },
            pos: self.window.replay().len() as int,
            window: self.window.rolled(),
            calls: self.calls + self.roll_calls(),
            answers,
            ..self
        }
    }

    /// The observer after a reset where one is due.
    pub open spec fn guarded(self, answers: Answers) -> LobeView {
        if self.due() {
            self.rolled(answers)
        } else {
            self
        }
    }

    // -- observing

    /// The observer after the text of a token has been noted.
    pub open spec fn noted(self, text: Seq<char>) -> LobeView {
        LobeView {
            recent: last_n(self.recent.push(text), RECENT_TOKENS as nat),
            memory: self.memory.observed(text),
            ..self
        }
    }

    /// The observer after a token has been judged: the settling counts on, and a fire takes the span.
    pub open spec fn judged(self, firing: Firing, fired: bool) -> LobeView {
        LobeView {
            firing,
            window: self.window.ticked(),
            memory: if fired {
                self.memory.fired()
            } else {
                self.memory
            },
            ..self
        }
    }

    /// The calls that feed a stream token: those of a reset where one is due, then the pass.
    pub open spec fn fed_calls(self, tok: Token) -> Seq<KvCall> {
        if self.due() {
            self.roll_calls().push(feed_one(tok, self.window.replay().len() as int))
        } else {
            seq![feed_one(tok, self.pos)]
        }
    }

    /// The observer after a stream token has been fed, which brought the answers to `answers`: the
    /// distribution at hand is the one that this token left behind.
    pub open spec fn fed(self, tok: Token, answers: Answers) -> LobeView {
        let g = self.guarded(answers);
        LobeView {
            logits: answers.last()[0],
            pos: g.pos + 1,
            calls: self.calls + self.fed_calls(tok),
            answers,
            ..g
        }
    }

    /// The observer after a stream token that has been fed is on record.
    pub open spec fn counted(self, tok: Token) -> LobeView {
        LobeView { window: self.window.pushed(tok), index: self.index + 1, ..self }
    }

    // -- asides

    /// The ask that carries the recent text.
    pub open spec fn snippet_text(self) -> Seq<char> {
        snippet_ask(trimmed(aligned(concat(self.recent))))
    }

    /// What the ask shows of earlier asides.
    pub open spec fn novelty_block(self) -> Seq<char> {
        let shown = newest(self.memory.asides, 2);
        if self.icfg.novelty_mode == NoveltyMode::Off || shown.len() == 0 {
            Seq::empty()
        } else {
            "\n\nYou recently said:\n"@ + joined(
                shown.map_values(|s: Seq<char>| "- "@ + trimmed(s)),
                "\n"@,
            )
        }
    }

    /// What the ask asks for in view of them.
    pub open spec fn novelty_clause(self) -> Seq<char> {
        match self.icfg.novelty_mode {
            NoveltyMode::Fresh => " — but find a fresh angle, not one you've already made"@,
            NoveltyMode::Form => " — but vary your rhythm and how you begin, not just the subject"@,
            NoveltyMode::Off => Seq::empty(),
        }
    }

    /// The ask that continues the live context.
    pub open spec fn ask_text(self, recalled: Option<Seq<char>>) -> Seq<char> {
        context_ask(
            trimmed(aligned(self.memory.span)),
            recall_block(recalled) + self.novelty_block(),
            self.novelty_clause(),
            self.icfg.ask_mode == AskMode::Continuous,
        )
    }

    /// Would an ask of `len` tokens and its reply overrun the context, while the stream grows beside
    /// them?
    pub open spec fn crowded(self, len: nat, max: nat) -> bool {
        self.pos + len + 2 * (max + INTERJECT_SENTENCE_SLACK) + len / (self.icfg.prefill_chunk as nat)
            + 32 > self.n_ctx
    }

    /// The observer after the scratch sequence has been dropped.
    pub open spec fn scratched(self) -> LobeView {
        LobeView {
            calls: self.calls.push(KvCall::Clear { seq: GEN_SEQ, ok: true }),
            answers: self.answers.push(Seq::empty()),
            ..self
        }
    }

    /// The observer after the live context has been forked onto the scratch sequence.
    pub open spec fn forked(self) -> LobeView {
        LobeView {
            calls: self.calls.push(KvCall::Copy { src: 0, dst: GEN_SEQ, ok: true }),
            answers: self.answers.push(Seq::empty()),
            ..self
        }
    }

    /// The observer with another aside alongside the stream.
    pub open spec fn with_fused(self, fused: Option<FusedView>) -> LobeView {
        LobeView { gen: GenView { fused, ..self.gen }, ..self }
    }

    /// The observer with another aside that is pumped out alone.
    pub open spec fn with_fsm(self, fsm: Option<FsmView>) -> LobeView {
        LobeView { gen: GenView { fsm, ..self.gen }, ..self }
    }

    /// The observer with another state of the sampler.
    pub open spec fn with_rng(self, rng: u64) -> LobeView {
        LobeView { gen: GenView { rng, ..self.gen }, ..self }
    }

    // -- the fused pass

    /// How many tokens of an ask the next step feeds.
    pub open spec fn chunk_of(self, left: int) -> int {
        if self.icfg.prefill_chunk <= left {
            self.icfg.prefill_chunk as int
        } else {
            left
        }
    }

    /// The lanes of the aside in the next step: a piece of its ask, of which only the last token of
    /// the whole ask wants its distribution, or the token that was chosen last.
    pub open spec fn gen_lanes(self) -> Seq<Lane> {
        match self.gen.fused {
            None => Seq::empty(),
            Some(FusedView::Prefill { ask, next, pos, max }) => Seq::new(
                self.chunk_of(ask.len() - next) as nat,
                |i: int|
                    Lane {
                        token: ask[next + i],
                        pos: (pos + i) as i32,
                        seq: GEN_SEQ,
                        logits: next + i == ask.len() - 1,
                    },
            ),
            Some(FusedView::Reply { pending, pos, produced, max, out }) => seq![
                Lane { token: pending, pos: pos as i32, seq: GEN_SEQ, logits: true },
            ],
        }
    }

    /// The lanes of the next step: the stream token, then the aside.
    pub open spec fn lanes(self, tok: Token) -> Seq<Lane> {
        seq![Lane { token: tok, pos: self.pos as i32, seq: 0, logits: true }] + self.gen_lanes()
    }

    /// The observer after the pass of a step, which answered `rows`: the distribution at hand is the one
    /// that the lane of the stream token left behind.
    pub open spec fn passed(self, tok: Token, rows: Seq<Seq<F32>>) -> LobeView {
        LobeView {
            logits: rows[0],
            pos: self.pos + 1,
            window: self.window.pushed(tok),
            calls: self.calls.push(
                KvCall::Decode { batch: batch_of(self.lanes(tok)), ok: true },
            ),
            answers: self.answers.push(rows),
            ..self
        }
    }
}

/// What the ask shows of a passage that was looked up.
pub open spec fn recall_block(recalled: Option<Seq<char>>) -> Seq<char> {
    match recalled {
        None => Seq::empty(),
        Some(s) => "\n\nIt brings back an earlier passage:\n\u{201c}"@ + trimmed(
            snippet_of(s, RECALL_BYTES as nat),
        ) + "\u{201d}"@,
    }
}

// ---------------------------------------------------------------------------------------------
// Relations
// ---------------------------------------------------------------------------------------------

/// `expected` are the `k` likeliest tokens of a row with their probabilities, likeliest first.
pub open spec fn expectation<B: Backend, N: Numerics>(
    engine: &B,
    num: &N,
    row: Vec<F32>,
    k: nat,
    expected: Seq<(String, F32)>,
) -> bool {
    exists|ids: Seq<usize>|
        #[trigger] likeliest(row@, k, ids) && expected.len() == ids.len() && forall|i: int|
            0 <= i < ids.len() ==> (#[trigger] expected[i]).0@ == engine.text_of(
                Token(ids[i] as i32),
                Detok::Text,
            ) && call_ensures(N::share, (num, &row, ids[i]), expected[i].1)
}

/// The trigger of a step: there is one exactly where it fired, and it repeats the step and says what
/// was expected.
pub open spec fn reported<B: Backend, N: Numerics>(
    engine: &B,
    num: &N,
    row: Vec<F32>,
    k: nat,
    step: Step,
) -> bool {
    match step.trigger {
        None => !step.fired,
        Some(t) => {
            &&& step.fired
            &&& t.stream_index == step.stream_index
            &&& t.token_text@ == step.token_text@
            &&& t.surprisal == step.surprisal
            &&& t.entropy == step.entropy
            &&& t.z == step.z
            &&& expectation(engine, num, row, k, t.expected@)
        },
    }
}

/// The value that is measured against the baseline.
pub open spec fn active(signal: Signal, step: Step) -> F32 {
    match signal {
        Signal::Surprisal => step.surprisal,
        Signal::Entropy => step.entropy,
    }
}

/// Scoring a token: both values are read off the distribution at hand, the active one is measured
/// against the baseline as it was and then taken into it, and the token fires by that measure.
pub open spec fn scored<B: Backend, N: Numerics>(
    engine: &B,
    num: &N,
    v: LobeView,
    row: Vec<F32>,
    tok: Token,
    stats: Welford,
    stats_after: Welford,
    z_threshold: F32,
    topk: nat,
    after: LobeView,
    step: Step,
) -> bool {
    let text = engine.text_of(tok, Detok::Text);
    let value = active(v.firing.signal, step);
    &&& row@ == v.logits
    &&& step.stream_index == v.index
    &&& step.token_text@ == text
    &&& call_ensures(N::surprisal, (num, &row, tok), step.surprisal)
    &&& call_ensures(N::entropy, (num, &row), step.entropy)
    &&& call_ensures(N::z, (num, &stats, value), step.z)
    &&& exists|m: (F32, F32)| #[trigger]
        call_ensures(N::moments, (num, &stats, value), m) && stats_after == stats.taken(m)
    &&& v.firing.decided(
        num,
        text,
        step.z,
        z_threshold,
        stats_after.is_warm(),
        v.window.settle > 0,
        after.firing,
        step.fired,
    )
    &&& after == v.noted(text).judged(after.firing, step.fired)
    &&& reported(engine, num, row, topk, step)
}

/// The step of a token that nothing predicted: it is fed, and neither scored nor fired.
pub open spec fn neutral(index: int, text: Seq<char>, step: Step) -> bool {
    &&& step.stream_index == index
    &&& step.token_text@ == text
    &&& step.surprisal == F32(0)
    &&& step.entropy == F32(0)
    &&& step.z == F32(0)
    &&& !step.fired
    &&& step.trigger is None
}

/// Is this token the end of a turn, or the start of another?
pub open spec fn turns<B: Backend>(engine: &B, v: LobeView, tok: Token) -> bool {
    engine.ends_generation(tok) || v.eot == Some(tok) || v.sot == Some(tok)
}

/// Does a reply that has reached `out` stop before `tok`? At a turn boundary; past the length asked
/// for at the end of a sentence; and in any case once the slack is used up.
pub open spec fn halts<B: Backend>(
    engine: &B,
    v: LobeView,
    tok: Token,
    produced: nat,
    max: nat,
    out: Seq<char>,
) -> bool {
    ||| turns(engine, v, tok)
    ||| produced >= max + INTERJECT_SENTENCE_SLACK
    ||| produced >= max && sentence_end(out)
}

/// Sampling the next token of a reply from `row`.
pub open spec fn chosen<N: Numerics>(
    num: &N,
    v: LobeView,
    row: Seq<F32>,
    rng: u64,
    tok: Token,
) -> bool {
    row.len() == v.width && sampled(num, row, v.icfg.temp, v.icfg.top_p, v.gen.rng, rng, tok)
}

/// The guard of a step: the length hint is taken over, and a reset is made where one is due and no
/// aside is in flight.
pub open spec fn readied(v: LobeView, max: usize, after: LobeView) -> bool {
    let h = LobeView { icfg: InterjectConfig { max_hint: max, ..v.icfg }, ..v };
    if h.due() && h.gen.fused is None {
        &&& after.logits.len() == h.width
        &&& after == h.rolled(after.answers)
        &&& continues(v, after)
    } else {
        after == h
    }
}

/// The pass of a step: the stream token and the aside are fed together, the stream goes by the row of
/// its own lane, and the aside moves on by the row of its last lane.
pub open spec fn forwarded<B: Backend, N: Numerics>(
    engine: &B,
    num: &N,
    v: LobeView,
    tok: Token,
    after: LobeView,
    status: Progress,
) -> bool {
    let rows = after.answers[v.answers.len() as int];
    let p = v.passed(tok, rows);
    &&& after.logits.len() == v.width
    &&& continues(v, after)
    &&& match v.gen.fused {
        None => after == p && status == Progress::Idle,
        Some(FusedView::Prefill { ask, next, pos, max }) => {
            let k = v.chunk_of(ask.len() - next);
            if next + k < ask.len() {
                &&& after == p.with_fused(
                    Some(FusedView::Prefill { ask, next: next + k, pos: pos + k, max }),
                )
                &&& status == Progress::Working(Seq::empty())
            } else {
                exists|first: Token|
                    #[trigger] chosen(num, v, rows[k], after.gen.rng, first) && if turns(
                        engine,
                        v,
                        first,
                    ) {
                        &&& after == p.with_rng(after.gen.rng).with_fused(None).scratched()
                        &&& status == Progress::Done(Seq::empty())
                    } else {
                        &&& after == p.with_rng(after.gen.rng).with_fused(
                            Some(
                                FusedView::Reply {
                                    pending: first,
                                    pos: pos + k,
                                    produced: 0,
                                    max,
                                    out: Seq::empty(),
                                },
                            ),
                        )
                        &&& status == Progress::Working(Seq::empty())
                    }
            }
        },
        Some(FusedView::Reply { pending, pos, produced, max, out }) => {
            let so_far = out + engine.text_of(pending, Detok::Plain);
            exists|next: Token|
                #[trigger] chosen(num, v, rows[1], after.gen.rng, next) && if halts(
                    engine,
                    v,
                    next,
                    produced + 1,
                    max,
                    so_far,
                ) {
                    &&& after == p.with_rng(after.gen.rng).with_fused(None).scratched()
                    &&& status == Progress::Done(so_far)
                } else {
                    &&& after == p.with_rng(after.gen.rng).with_fused(
                        Some(
                            FusedView::Reply {
                                pending: next,
                                pos: pos + 1,
                                produced: produced + 1,
                                max,
                                out: so_far,
                            },
                        ),
                    )
                    &&& status == Progress::Working(so_far)
                }
        },
    }
}

/// Starting an aside alongside the stream: the scratch sequence is dropped and the ask is staged, on
/// its own or behind a fork of the live context. A fork that would overrun the context is made right
/// after a reset.
pub open spec fn started<B: Backend>(
    engine: &B,
    v: LobeView,
    max: nat,
    recalled: Option<Seq<char>>,
    after: LobeView,
) -> bool {
    match v.icfg.mode {
        InterjectMode::Snippet => {
            &&& engine.tokens_of(v.snippet_text(), true) matches Some(ask)
            &&& ask.len() > 0
            &&& countable(0, ask.len(), max)
            &&& after == v.scratched().with_fused(
                Some(FusedView::Prefill { ask, next: 0, pos: 0, max }),
            )
        },
        InterjectMode::Context => {
            &&& engine.tokens_of(v.ask_text(recalled), false) matches Some(ask)
            &&& ask.len() > 0
            &&& {
                let base = if v.window.evict == EvictMode::Reset && v.crowded(ask.len(), max) {
                    v.scratched().rolled(after.answers.drop_last())
                } else {
                    v.scratched()
                };
                &&& continues(v, after)
                &&& countable(base.pos, ask.len(), max)
                &&& after == base.forked().with_fused(
                    Some(FusedView::Prefill { ask, next: 0, pos: base.pos, max }),
                )
            }
        },
    }
}

/// The ask of an aside: its tokens, or `None` where the tokenizer refuses its text.
pub open spec fn ask_of<B: Backend>(
    engine: &B,
    v: LobeView,
    recalled: Option<Seq<char>>,
) -> Option<Seq<Token>> {
    match v.icfg.mode {
        InterjectMode::Snippet => engine.tokens_of(v.snippet_text(), true),
        InterjectMode::Context => engine.tokens_of(v.ask_text(recalled), false),
    }
}

/// Beginning an aside that is pumped out alone: the scratch sequence is dropped, in the context mode
/// it takes over the live context, and the ask is staged behind it.
pub open spec fn begun<B: Backend>(
    engine: &B,
    v: LobeView,
    max: nat,
    recalled: Option<Seq<char>>,
    after: LobeView,
) -> bool {
    let forks = v.icfg.mode == InterjectMode::Context;
    let start = if forks {
        v.pos
    } else {
        0
    };
    let base = if forks {
        v.scratched().forked()
    } else {
        v.scratched()
    };
    &&& ask_of(engine, v, recalled) matches Some(toks)
    &&& toks.len() > 0
    &&& countable(start, toks.len(), max)
    &&& after == base.with_fsm(Some(FsmView::Prefill { toks, start, max }))
}

/// The observer after a run of tokens has been fed to the scratch sequence, which brought the answers
/// to `answers`.
pub open spec fn fed_scratch(
    v: LobeView,
    toks: Seq<Token>,
    start: int,
    answers: Answers,
) -> LobeView {
    LobeView { calls: v.calls + feeds(toks, 0, start, GEN_SEQ), answers, ..v }
}

/// One pump of an aside: the ask is fed, or the next token of the reply is sampled, and fed unless the
/// reply stops before it. The next token is to be sampled from the row that the last token fed left
/// behind.
pub open spec fn pumped<B: Backend, N: Numerics>(
    engine: &B,
    num: &N,
    v: LobeView,
    after: LobeView,
    status: Progress,
) -> bool {
    match v.gen.fsm {
        None => after == v && status == Progress::Idle,
        Some(FsmView::Prefill { toks, start, max }) => {
            &&& status == Progress::Working(Seq::empty())
            &&& continues(v, after)
            &&& last_row(after.answers, toks.len() as int).len() == v.width
            &&& after == fed_scratch(v, toks, start, after.answers).with_fsm(
                Some(
                    FsmView::Gen {
                        pos: start + toks.len(),
                        produced: 0,
                        max,
                        out: Seq::empty(),
                        logits: last_row(after.answers, toks.len() as int),
                    },
                ),
            )
        },
        Some(FsmView::Gen { pos, produced, max, out, logits }) => exists|tok: Token|
            #[trigger] chosen(num, v, logits, after.gen.rng, tok) && if halts(
                engine,
                v,
                tok,
                produced,
                max,
                out,
            ) {
                &&& after == v.with_rng(after.gen.rng).with_fsm(None).scratched()
                &&& status == Progress::Done(out)
            } else {
                let so_far = out + engine.text_of(tok, Detok::Plain);
                &&& status == Progress::Working(so_far)
                &&& continues(v, after)
                &&& last_row(after.answers, 1).len() == v.width
                &&& after == fed_scratch(
                    v.with_rng(after.gen.rng),
                    seq![tok],
                    pos,
                    after.answers,
                ).with_fsm(
                    Some(
                        FsmView::Gen {
                            pos: pos + 1,
                            produced: produced + 1,
                            max,
                            out: so_far,
                            logits: last_row(after.answers, 1),
                        },
                    ),
                )
            },
    }
}

/// The calls of a pump all succeeded.
pub proof fn lemma_pumped_made<B: Backend, N: Numerics>(
    engine: &B,
    num: &N,
    v: LobeView,
    after: LobeView,
    status: Progress,
)
    requires
        pumped(engine, num, v, after, status),
    ensures
        all_made(v.calls, after.calls),
{
    assert(v.calls.take(v.calls.len() as int) =~= v.calls);
    match v.gen.fsm {
        None => {},
        Some(FsmView::Prefill { toks, start, max }) => {
            lemma_feeds_succeed(toks, 0, start, GEN_SEQ);
            lemma_made_more(v.calls, v.calls, feeds(toks, 0, start, GEN_SEQ));
        },
        Some(FsmView::Gen { pos, produced, max, out, logits }) => {
            let tok = choose|tok: Token|
                #[trigger] chosen(num, v, logits, after.gen.rng, tok) && if halts(
                    engine,
                    v,
                    tok,
                    produced,
                    max,
                    out,
                ) {
                    after == v.with_rng(after.gen.rng).with_fsm(None).scratched()
                } else {
                    after.calls == v.calls + feeds(seq![tok], 0, pos, GEN_SEQ)
                };
            if halts(engine, v, tok, produced, max, out) {
                assert(after.calls =~= v.calls + seq![KvCall::Clear { seq: GEN_SEQ, ok: true }]);
                lemma_made_more(v.calls, v.calls, seq![KvCall::Clear { seq: GEN_SEQ, ok: true }]);
            } else {
                lemma_feeds_succeed(seq![tok], 0, pos, GEN_SEQ);
                lemma_made_more(v.calls, v.calls, feeds(seq![tok], 0, pos, GEN_SEQ));
            }
        },
    }
}

/// One pump that did not finish the aside.
pub open spec fn pumping<B: Backend, N: Numerics>(
    engine: &B,
    num: &N,
    v: LobeView,
    after: LobeView,
) -> bool {
    exists|s: Seq<char>| #[trigger] pumped(engine, num, v, after, Progress::Working(s))
}

/// A whole aside, begun and pumped out until it is done with `text`.
pub open spec fn aside<B: Backend, N: Numerics>(
    engine: &B,
    num: &N,
    v: LobeView,
    max: nat,
    recalled: Option<Seq<char>>,
    after: LobeView,
    text: Seq<char>,
) -> bool {
    exists|states: Seq<LobeView>|
        {
            &&& #[trigger] states.len() >= 1
            &&& begun(engine, v, max, recalled, states[0])
            &&& forall|i: int|
                0 <= i < states.len() - 1 ==> pumping(
                    engine,
                    num,
                    #[trigger] states[i],
                    states[i + 1],
                )
            &&& pumped(engine, num, states.last(), after, Progress::Done(text))
        }
}

} // verus!
