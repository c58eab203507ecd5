//! Asides: how one is asked for, and how its reply is pumped out token by token on the scratch
//! sequence, either alone (`interject`, `interject_begin`, `interject_step`) or alongside the stream
//! (`Lobe::step`).

use super::model::{
    all_made, ask_of, aside, begun, broke, chosen, continues, countable, fed_scratch, feeds,
    hint_fits, last_row, lemma_continues_self, lemma_continues_trans, lemma_cut_short_broke, lemma_feeds_succeed,
    lemma_made_more, lemma_made_then_broke, lemma_made_then_failed, lemma_made_trans,
    lemma_pumped_made, pumped, pumping, recall_block, started, LobeView,
};
use super::novelty::concat_all;
use super::observe::{engine_failed, lemma_roll_calls_succeed};
use super::sampling::{sample_topp, trim_snippet, word_aligned};
use super::types::{AskMode, EvictMode, InterjectMode, LobeError, NoveltyMode};
use super::{Lobe, GEN_SEQ, INTERJECT_SENTENCE_SLACK, RECALL_BYTES};
use crate::backend::{Backend, KvCall, Session, Token};
use crate::number::F32;
use crate::numerics::Numerics;
use crate::prompt;
use crate::text::{join_range, texts, trim, trimmed};
use vstd::prelude::*;
use vstd::string::*;

verus! {

/// The state of an aside that is pumped out alone.
pub enum InterjectState {
    /// The ask is staged; the next pump feeds it from `start_pos` on.
    Prefill { toks: Vec<Token>, start_pos: i32, max: usize },
    /// The reply is being generated; `logits` predict its next token, which goes to `pos`.
    Gen { pos: i32, produced: usize, max: usize, out: String, logits: Vec<F32> },
}

/// The state of an aside that grows alongside the stream.
pub enum FusedGen {
    /// The ask is being fed a few tokens per step: `ask[next]` goes to `pos`.
    Prefill { ask: Vec<Token>, next: usize, pos: i32, max: usize },
    /// The reply is being generated: `pending` has been chosen and goes to `pos`.
    Reply { pending: Token, pos: i32, produced: usize, max: usize, out: String },
}

/// The generation in flight.
pub struct GenState {
    /// The aside that is pumped out alone.
    pub fsm: Option<InterjectState>,
    /// The aside that grows alongside the stream.
    pub fused: Option<FusedGen>,
    /// The random stream of the sampler.
    pub rng: u64,
}

/// The contents of an aside that is pumped out alone.
pub enum FsmView {
    Prefill { toks: Seq<Token>, start: int, max: nat },
    Gen { pos: int, produced: nat, max: nat, out: Seq<char>, logits: Seq<F32> },
}

/// The contents of an aside that grows alongside the stream.
pub enum FusedView {
    Prefill { ask: Seq<Token>, next: int, pos: int, max: nat },
    Reply { pending: Token, pos: int, produced: nat, max: nat, out: Seq<char> },
}

/// The contents of the generation in flight.
pub struct GenView {
    pub fsm: Option<FsmView>,
    pub fused: Option<FusedView>,
    pub rng: u64,
}

impl View for InterjectState {
    type V = FsmView;

    open spec fn view(&self) -> FsmView {
        match self {
            InterjectState::Prefill { toks, start_pos, max } => FsmView::Prefill {
                toks: toks@,
                start: *start_pos as int,
                max: *max as nat,
            },
            InterjectState::Gen { pos, produced, max, out, logits } => FsmView::Gen {
                pos: *pos as int,
                produced: *produced as nat,
                max: *max as nat,
                out: out@,
                logits: logits@,
            },
        }
    }
}

impl View for FusedGen {
    type V = FusedView;

    open spec fn view(&self) -> FusedView {
        match self {
            FusedGen::Prefill { ask, next, pos, max } => FusedView::Prefill {
                ask: ask@,
                next: *next as int,
                pos: *pos as int,
                max: *max as nat,
            },
            FusedGen::Reply { pending, pos, produced, max, out } => FusedView::Reply {
                pending: *pending,
                pos: *pos as int,
                produced: *produced as nat,
                max: *max as nat,
                out: out@,
            },
        }
    }
}

impl View for GenState {
    type V = GenView;

    open spec fn view(&self) -> GenView {
        GenView {
            fsm: match self.fsm {
                Some(s) => Some(s@),
                None => None,
            },
            fused: match self.fused {
                Some(f) => Some(f@),
                None => None,
            },
            rng: self.rng,
        }
    }
}

/// The seed of the sampler where none is given.
pub const SAMPLER_SEED: u64 = 0x9e37_79b9_7f4a_7c15;

impl Default for GenState {
    fn default() -> (g: Self)
        ensures
            g@ == (GenView { fsm: None, fused: None, rng: SAMPLER_SEED }),
    {
        GenState { fsm: None, fused: None, rng: SAMPLER_SEED }
    }
}

/// How asides are produced.
#[derive(Copy, Clone, Debug, PartialEq, Eq, Structural)]
pub struct InterjectConfig {
    /// What an aside reflects on.
    pub mode: InterjectMode,
    /// How the context-mode ask frames the request.
    pub ask_mode: AskMode,
    /// How the ask shows what was said before.
    pub novelty_mode: NoveltyMode,
    /// Sampling temperature; zero or below is greedy.
    pub temp: F32,
    /// Sampling nucleus.
    pub top_p: F32,
    /// How long an aside is to be, in tokens; the reset margin is sized by it.
    pub max_hint: usize,
    /// How many tokens of an ask are fed per step, at least 1.
    pub prefill_chunk: usize,
}

impl Default for InterjectConfig {
    fn default() -> (c: Self)
        ensures
            c == (InterjectConfig {
                mode: InterjectMode::Context,
                ask_mode: AskMode::Passage,
                novelty_mode: NoveltyMode::Fresh,
                temp: F32(super::types::DEFAULT_TEMP_BITS),
                top_p: F32(super::types::DEFAULT_TOP_P_BITS),
                max_hint: 96,
                prefill_chunk: 8,
            }),
    {
        InterjectConfig {
            mode: InterjectMode::Context,
            ask_mode: AskMode::Passage,
            novelty_mode: NoveltyMode::Fresh,
            temp: F32(super::types::DEFAULT_TEMP_BITS),
            top_p: F32(super::types::DEFAULT_TOP_P_BITS),
            max_hint: 96,
            prefill_chunk: 8,
        }
    }
}

/// What one pump of an aside did.
#[derive(Debug, Clone)]
pub enum InterjectStep {
    /// No aside is in progress.
    Idle,
    /// Still generating; the text so far.
    Working(String),
    /// Finished; the whole text.
    Done(String),
}

/// What the aside alongside the stream did during one step.
#[derive(Debug, Clone)]
pub enum InterjectStatus {
    /// Nothing is being generated.
    Idle,
    /// An aside was staged on this step.
    Started,
    /// Generating; the reply so far.
    Working(String),
    /// Finished on this step; the whole reply.
    Done(String),
}

/// What became of an aside, as a value.
pub enum Progress {
    Idle,
    Started,
    Working(Seq<char>),
    Done(Seq<char>),
}

impl View for InterjectStatus {
    type V = Progress;

    open spec fn view(&self) -> Progress {
        match self {
            InterjectStatus::Idle => Progress::Idle,
            InterjectStatus::Started => Progress::Started,
            InterjectStatus::Working(s) => Progress::Working(s@),
            InterjectStatus::Done(s) => Progress::Done(s@),
        }
    }
}

impl View for InterjectStep {
    type V = Progress;

    open spec fn view(&self) -> Progress {
        match self {
            InterjectStep::Idle => Progress::Idle,
            InterjectStep::Working(s) => Progress::Working(s@),
            InterjectStep::Done(s) => Progress::Done(s@),
        }
    }
}

/// The text of an optional string.
pub open spec fn text_in(s: Option<&str>) -> Option<Seq<char>> {
    match s {
        Some(t) => Some(t@),
        None => None,
    }
}

/// Why an ask could not be staged, and when: the engine failed in a call or at tokenizing, the ask has
/// no tokens, or its reply would run past the positions that can be counted.
pub open spec fn not_staged<B: Backend>(
    engine: &B,
    v: LobeView,
    max: nat,
    recalled: Option<Seq<char>>,
    after: LobeView,
    e: LobeError,
) -> bool {
    match e {
        LobeError::Backend(_) => broke(v.calls, after.calls) || ask_of(engine, v, recalled) is None,
        LobeError::EmptyPrompt => ask_of(engine, v, recalled) == Some(Seq::<Token>::empty()),
        LobeError::TooLong => ask_of(engine, v, recalled) matches Some(toks) && !countable(
            if v.icfg.mode == InterjectMode::Context {
                after.pos
            } else {
                0
            },
            toks.len(),
            max,
        ),
    }
}

impl<'a, B: Backend> Lobe<'a, B> {
    /// The ask that carries the recent text.
    fn interject_prompt_snippet(&self) -> (r: String)
        ensures
            r@ == self@.snippet_text(),
    {
        let recent = concat_all(&self.recent);
        prompt::interject_prompt_snippet(trim(word_aligned(recent.as_str())))
    }

    /// What the ask shows of earlier asides.
    fn novelty_block(&self) -> (r: String)
        ensures
            r@ == self@.novelty_block(),
    {
        let mut block = String::new();
        if self.icfg.novelty_mode == NoveltyMode::Off {
            assert(block@ =~= self@.novelty_block());
            return block;
        }
        let shown = self.memory.recent(2);
        let ghost said = texts(shown@);
        if shown.len() == 0 {
            assert(block@ =~= self@.novelty_block());
            return block;
        }
        let mut lines: Vec<String> = Vec::new();
        let mut i: usize = 0;
        while i < shown.len()
            invariant
                i <= shown@.len(),
                said == texts(shown@),
                lines@.len() == i,
                forall|j: int|
                    0 <= j < i ==> (#[trigger] lines@[j])@ == "- "@ + trimmed(said[j]),
            decreases shown@.len() - i,
        {
            let mut line = "- ".to_owned();
            line.append(trim(shown[i].as_str()));
            lines.push(line);
            i = i + 1;
        }
        assert(texts(lines@.subrange(0, lines@.len() as int)) =~= said.map_values(
            |s: Seq<char>| "- "@ + trimmed(s),
        ));
        block.append("\n\nYou recently said:\n");
        block.append(join_range(&lines, 0, lines.len(), "\n").as_str());
        assert(block@ =~= self@.novelty_block());
        block
    }

    /// The ask that continues the live context: it is about the span since the last fire, and shows
    /// what was looked up and what was said before. The token that fired is not named.
    fn interject_ask_context(&self, recalled: Option<&str>) -> (r: String)
        ensures
            r@ == self@.ask_text(text_in(recalled)),
    {
        let span = trim(word_aligned(self.memory.last_span.as_str()));
        let mut block = String::new();
        match recalled {
            None => {},
            Some(s) => {
                block.append("\n\nIt brings back an earlier passage:\n\u{201c}");
                block.append(trim(trim_snippet(s, RECALL_BYTES)));
                block.append("\u{201d}");
            },
        }
        assert(block@ =~= recall_block(text_in(recalled)));
        block.append(self.novelty_block().as_str());
        let clause = match self.icfg.novelty_mode {
            NoveltyMode::Fresh => " — but find a fresh angle, not one you've already made",
            NoveltyMode::Form => " — but vary your rhythm and how you begin, not just the subject",
            NoveltyMode::Off => "",
        };
        proof {
            reveal_strlit("");
            assert(clause@ =~= self@.novelty_clause());
        }
        prompt::interject_ask_context(
            span,
            block.as_str(),
            clause,
            self.icfg.ask_mode == AskMode::Continuous,
        )
    }

    /// Start an aside alongside the stream: drop the scratch sequence, fork the live context onto it,
    /// and stage the ask; the steps that follow feed it piece by piece. Where the fork, the ask, the
    /// reply and the stream that grows beside them would overrun the context, a reset comes first.
    pub fn start_fused_interjection(&mut self, max: usize, recalled: Option<&str>) -> (r: Result<
        (),
        LobeError,
    >)
        requires
            old(self)@.wf(),
            old(self).window.wf(),
            old(self)@.window.resets < u64::MAX,
            hint_fits(max as nat),
        ensures
            match r {
                Ok(()) => started(
                    old(self).engine,
                    old(self)@,
                    max as nat,
                    text_in(recalled),
                    final(self)@,
                ),
                Err(e) => not_staged(
                    old(self).engine,
                    old(self)@,
                    max as nat,
                    text_in(recalled),
                    final(self)@,
                    e,
                ),
            },
            continues(old(self)@, final(self)@),
            final(self)@.wf(),
            final(self).window.wf(),
            final(self).engine == old(self).engine,
            final(self).debug == old(self).debug,
    {
        let ghost v = self@;
        match self.session.clear_seq(GEN_SEQ) {
            Ok(()) => {},
            Err(e) => {
                assert(self@.calls.take(v.calls.len() as int) =~= v.calls);
                assert(self@.answers.take(v.answers.len() as int) =~= v.answers);
                return Err(LobeError::Backend(e));
            },
        }
        let ghost scratched = self@;
        assert(scratched == v.scratched());
        assert(scratched.answers.take(v.answers.len() as int) =~= v.answers);
        proof {
            lemma_continues_self(scratched);
        }
        let forks: bool = self.icfg.mode == InterjectMode::Context;
        let text = if forks {
            self.interject_ask_context(recalled)
        } else {
            self.interject_prompt_snippet()
        };
        let ask = match self.tokenize(text.as_str(), !forks) {
            Ok(toks) => toks,
            Err(e) => {
                return Err(e);
            },
        };
        if ask.len() == 0 {
            assert(ask@ =~= Seq::empty());
            return Err(LobeError::EmptyPrompt);
        }
        let mut start: i32 = 0;
        if forks {
            if self.window.evict == EvictMode::Reset {
                let len: u128 = ask.len() as u128;
                let need: u128 = self.pos as u128 + len + 2 * (max as u128
                    + INTERJECT_SENTENCE_SLACK as u128) + len / (self.icfg.prefill_chunk as u128)
                    + 32;
                proof {
                    let chunk = self.icfg.prefill_chunk as int;
                    assert(len / (self.icfg.prefill_chunk as u128) <= len) by (nonlinear_arith)
                        requires
                            self.icfg.prefill_chunk >= 1,
                    ;
                }
                if need > self.n_ctx as u128 {
                    match self.roll() {
                        Ok(()) => {},
                        Err(e) => {
                            proof {
                                lemma_continues_trans(v, scratched, self@);
                                lemma_roll_calls_succeed(scratched);
                                lemma_cut_short_broke(
                                    scratched.calls,
                                    scratched.roll_calls(),
                                    self@.calls,
                                );
                                assert(scratched.calls.take(v.calls.len() as int) =~= v.calls);
                                lemma_made_then_broke(v.calls, scratched.calls, self@.calls);
                            }
                            return Err(e);
                        },
                    }
                }
            }
            start = self.pos;
        }
        proof {
            lemma_continues_trans(v, scratched, self@);
        }
        if ask.len() as u128 + start as u128 + max as u128 + INTERJECT_SENTENCE_SLACK as u128 + 1
            > i32::MAX as u128 {
            return Err(LobeError::TooLong);
        }
        let ghost base = self@;
        if forks {
            match self.session.copy_seq(0, GEN_SEQ) {
                Ok(()) => {},
                Err(e) => {
                    proof {
                        assert(self@.answers.take(v.answers.len() as int) =~= base.answers.take(
                            v.answers.len() as int,
                        ));
                        assert(scratched.calls.take(v.calls.len() as int) =~= v.calls);
                        lemma_roll_calls_succeed(scratched);
                        if base.calls != scratched.calls {
                            lemma_made_more(v.calls, scratched.calls, scratched.roll_calls());
                        }
                        lemma_made_then_failed(
                            v.calls,
                            base.calls,
                            KvCall::Copy { src: 0, dst: GEN_SEQ, ok: false },
                        );
                    }
                    return Err(LobeError::Backend(e));
                },
            }
        }
        proof {
            assert(self@.answers.take(v.answers.len() as int) =~= base.answers.take(
                v.answers.len() as int,
            ));
            if forks {
                assert(self@.answers.drop_last() =~= base.answers);
            }
        }
        self.gen.fused = Some(FusedGen::Prefill { ask, next: 0, pos: start, max });
        Ok(())
    }

    /// Begin an aside that is pumped out alone. Cheap: the ask is fed on the first pump.
    pub fn interject_begin(&mut self, _surprising: &str, max: usize, recalled: Option<&str>) -> (r:
        Result<(), LobeError>)
        requires
            old(self)@.wf(),
            hint_fits(max as nat),
        ensures
            match r {
                Ok(()) => begun(
                    old(self).engine,
                    old(self)@,
                    max as nat,
                    text_in(recalled),
                    final(self)@,
                ),
                Err(e) => not_staged(
                    old(self).engine,
                    old(self)@,
                    max as nat,
                    text_in(recalled),
                    final(self)@,
                    e,
                ),
            },
            final(self)@.wf(),
            final(self)@ == (LobeView {
                gen: final(self)@.gen,
                calls: final(self)@.calls,
                answers: final(self)@.answers,
                ..old(self)@
            }),
            continues(old(self)@, final(self)@),
            final(self).engine == old(self).engine,
            final(self).window == old(self).window,
            final(self).last_logits == old(self).last_logits,
            final(self).debug == old(self).debug,
    {
        let ghost v = self@;
        match self.session.clear_seq(GEN_SEQ) {
            Ok(()) => {},
            Err(e) => {
                assert(self@.calls.take(v.calls.len() as int) =~= v.calls);
                assert(self@.answers.take(v.answers.len() as int) =~= v.answers);
                return Err(LobeError::Backend(e));
            },
        }
        assert(self@.answers.take(v.answers.len() as int) =~= v.answers);
        let forks: bool = self.icfg.mode == InterjectMode::Context;
        let text = if forks {
            match self.session.copy_seq(0, GEN_SEQ) {
                Ok(()) => {},
                Err(e) => {
                    assert(self@.calls.take(v.calls.len() as int) =~= v.calls);
                    assert(self@.answers.take(v.answers.len() as int) =~= v.answers);
                    return Err(LobeError::Backend(e));
                },
            }
            assert(self@.answers.take(v.answers.len() as int) =~= v.answers);
            self.interject_ask_context(recalled)
        } else {
            self.interject_prompt_snippet()
        };
        let toks = match self.tokenize(text.as_str(), !forks) {
            Ok(toks) => toks,
            Err(e) => {
                return Err(e);
            },
        };
        if toks.len() == 0 {
            assert(toks@ =~= Seq::empty());
            return Err(LobeError::EmptyPrompt);
        }
        let start_pos: i32 = if forks {
            self.pos
        } else {
            0
        };
        if toks.len() as u128 + start_pos as u128 + max as u128 + INTERJECT_SENTENCE_SLACK as u128
            + 1 > i32::MAX as u128 {
            return Err(LobeError::TooLong);
        }
        self.gen.fsm = Some(InterjectState::Prefill { toks, start_pos, max });
        Ok(())
    }

    /// Pump an aside: the first call feeds the ask, each further one generates a token of the reply.
    pub fn interject_step<N: Numerics>(&mut self, num: &N) -> (r: Result<InterjectStep, LobeError>)
        requires
            old(self)@.wf(),
        ensures
            match r {
                Ok(step) => pumped(old(self).engine, num, old(self)@, final(self)@, step@),
                Err(e) => engine_failed(e, old(self)@.calls, final(self)@.calls),
            },
            final(self)@.wf(),
            final(self)@ == (LobeView {
                gen: final(self)@.gen,
                calls: final(self)@.calls,
                answers: final(self)@.answers,
                ..old(self)@
            }),
            continues(old(self)@, final(self)@),
            final(self)@.gen.fused == old(self)@.gen.fused,
            final(self).engine == old(self).engine,
            final(self).window == old(self).window,
            final(self).last_logits == old(self).last_logits,
            final(self).debug == old(self).debug,
    {
        let ghost v = self@;
        match self.gen.fsm.take() {
            None => {
                assert(v.answers.take(v.answers.len() as int) =~= v.answers);
                Ok(InterjectStep::Idle)
            },
            Some(InterjectState::Prefill { toks, start_pos, max }) => {
                let logits = match self.decode_seq(&toks, start_pos, GEN_SEQ) {
                    Ok(row) => row,
                    Err(e) => {
                        proof {
                            lemma_feeds_succeed(toks@, 0, start_pos as int, GEN_SEQ);
                            lemma_cut_short_broke(
                                v.calls,
                                feeds(toks@, 0, start_pos as int, GEN_SEQ),
                                self@.calls,
                            );
                        }
                        return Err(e);
                    },
                };
                let out = String::new();
                let blank = String::new();
                assert(out@ =~= Seq::empty());
                assert(blank@ =~= Seq::empty());
                self.gen.fsm = Some(
                    InterjectState::Gen {
                        pos: start_pos + toks.len() as i32,
                        produced: 0,
                        max,
                        out,
                        logits,
                    },
                );
                assert(self@ == fed_scratch(v, toks@, start_pos as int, self@.answers).with_fsm(
                    Some(
                        FsmView::Gen {
                            pos: start_pos + toks@.len(),
                            produced: 0,
                            max: max as nat,
                            out: Seq::empty(),
                            logits: last_row(self@.answers, toks@.len() as int),
                        },
                    ),
                ));
                Ok(InterjectStep::Working(blank))
            },
            Some(InterjectState::Gen { pos, produced, max, mut out, logits }) => {
                let tok = sample_topp(
                    &logits,
                    self.icfg.temp,
                    self.icfg.top_p,
                    &mut self.gen.rng,
                    num,
                );
                let ghost rng = self.gen.rng;
                assert(chosen(num, v, logits@, rng, tok));
                if self.is_halt(tok, produced, max, out.as_str()) {
                    match self.session.clear_seq(GEN_SEQ) {
                        Ok(()) => {},
                        Err(e) => {
                            assert(self@.calls.take(v.calls.len() as int) =~= v.calls);
                            assert(self@.answers.take(v.answers.len() as int) =~= v.answers);
                            return Err(LobeError::Backend(e));
                        },
                    }
                    assert(self@.answers.take(v.answers.len() as int) =~= v.answers);
                    return Ok(InterjectStep::Done(out));
                }
                out.append(self.detok_gen(tok).as_str());
                let mut one: Vec<Token> = Vec::new();
                one.push(tok);
                assert(one@ =~= seq![tok]);
                let logits = match self.decode_seq(&one, pos, GEN_SEQ) {
                    Ok(row) => row,
                    Err(e) => {
                        proof {
                            lemma_feeds_succeed(one@, 0, pos as int, GEN_SEQ);
                            lemma_cut_short_broke(
                                v.calls,
                                feeds(one@, 0, pos as int, GEN_SEQ),
                                self@.calls,
                            );
                        }
                        return Err(e);
                    },
                };
                let so_far = out.clone();
                self.gen.fsm = Some(
                    InterjectState::Gen { pos: pos + 1, produced: produced + 1, max, out, logits },
                );
                assert(self@ == fed_scratch(
                    v.with_rng(rng),
                    seq![tok],
                    pos as int,
                    self@.answers,
                ).with_fsm(
                    Some(
                        FsmView::Gen {
                            pos: pos + 1,
                            produced: (produced + 1) as nat,
                            max: max as nat,
                            out: so_far@,
                            logits: last_row(self@.answers, 1),
                        },
                    ),
                ));
                Ok(InterjectStep::Working(so_far))
            },
        }
    }

    /// A whole aside in one call. The observation sequence, its position and its distribution are not
    /// touched: what is observed afterwards is the same as without it.
    pub fn interject<N: Numerics>(
        &mut self,
        surprising: &str,
        max: usize,
        recalled: Option<&str>,
        num: &N,
    ) -> (r: Result<String, LobeError>)
        requires
            old(self)@.wf(),
            hint_fits(max as nat),
        ensures
            match r {
                Ok(text) => aside(
                    old(self).engine,
                    num,
                    old(self)@,
                    max as nat,
                    text_in(recalled),
                    final(self)@,
                    text@,
                ),
                Err(e) => not_staged(
                    old(self).engine,
                    old(self)@,
                    max as nat,
                    text_in(recalled),
                    final(self)@,
                    e,
                ),
            },
            final(self)@.wf(),
            final(self)@ == (LobeView {
                gen: final(self)@.gen,
                calls: final(self)@.calls,
                answers: final(self)@.answers,
                ..old(self)@
            }),
            continues(old(self)@, final(self)@),
            final(self).engine == old(self).engine,
            final(self).window == old(self).window,
            final(self).last_logits == old(self).last_logits,
            final(self).debug == old(self).debug,
    {
        match self.interject_begin(surprising, max, recalled) {
            Ok(()) => {},
            Err(e) => {
                return Err(e);
            },
        }
        let ghost mut states: Seq<LobeView> = seq![self@];
        assert(self@.calls.take(old(self)@.calls.len() as int) =~= old(self)@.calls);
        loop
            invariant
                self@.wf(),
                self@ == (LobeView {
                    gen: self@.gen,
                    calls: self@.calls,
                    answers: self@.answers,
                    ..old(self)@
                }),
                continues(old(self)@, self@),
                self.engine == old(self).engine,
                self.window == old(self).window,
                self.last_logits == old(self).last_logits,
                self.debug == old(self).debug,
                hint_fits(max as nat),
                states.len() >= 1,
                begun(old(self).engine, old(self)@, max as nat, text_in(recalled), states[0]),
                forall|i: int|
                    0 <= i < states.len() - 1 ==> pumping(
                        old(self).engine,
                        num,
                        #[trigger] states[i],
                        states[i + 1],
                    ),
                states.last() == self@,
                self@.gen.fsm is Some,
                all_made(old(self)@.calls, self@.calls),
                pumps_left(self@.gen.fsm) >= 1,
            decreases pumps_left(self@.gen.fsm),
        {
            let ghost before = self@;
            let pumped_out = self.interject_step(num);
            proof {
                lemma_continues_trans(old(self)@, before, self@);
            }
            match pumped_out {
                Ok(InterjectStep::Done(text)) => {
                    assert(states.len() >= 1);
                    return Ok(text);
                },
                Ok(InterjectStep::Idle) => {
                    return Ok(String::new());
                },
                Ok(InterjectStep::Working(s)) => {
                    proof {
                        assert(pumped(old(self).engine, num, before, self@, Progress::Working(s@)));
                        lemma_pumped_made(
                            old(self).engine,
                            num,
                            before,
                            self@,
                            Progress::Working(s@),
                        );
                        lemma_made_trans(old(self)@.calls, before.calls, self@.calls);
                        let grown = states.push(self@);
                        assert forall|i: int| 0 <= i < grown.len() - 1 implies pumping(
                            old(self).engine,
                            num,
                            #[trigger] grown[i],
                            grown[i + 1],
                        ) by {
                            if i < states.len() - 1 {
                                assert(grown[i] == states[i]);
                                assert(grown[i + 1] == states[i + 1]);
                            }
                        }
                        states = grown;
                    }
                },
                Err(e) => {
                    proof {
                        lemma_made_then_broke(old(self)@.calls, before.calls, self@.calls);
                    }
                    return Err(e);
                },
            }
        }
    }
}

/// How many more pumps an aside takes at most.
pub open spec fn pumps_left(fsm: Option<FsmView>) -> int {
    match fsm {
        None => 0,
        Some(FsmView::Prefill { toks, start, max }) => max + INTERJECT_SENTENCE_SLACK + 2,
        Some(FsmView::Gen { pos, produced, max, out, logits }) => max + INTERJECT_SENTENCE_SLACK
            - produced + 1,
    }
}

} // verus!
