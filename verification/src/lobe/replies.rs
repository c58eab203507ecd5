//! What holds of a whole reply: what it says, where it stops, what is shown of it while it grows, and
//! that nothing of it is left behind.

use super::fused::batch_of;
use super::interject::{FsmView, FusedView, Progress};
use super::laws::{
    lemma_aside_leaves_observation_alone, lemma_cells_after_call,
    lemma_pumping_leaves_observation_alone, lemma_step_unpacked,
};
use super::model::{
    all_made, aside, batch_end, begun, chosen, feeds, forwarded, halts, lemma_made_more,
    lemma_made_trans, lemma_pumped_made, pumped, pumping, turns, LobeView,
};
use super::observe::stepped;
use super::rag::spoken;
use super::sampling::sentence_end;
use super::types::{InterjectMode, StepOutcome};
use super::{Lobe, GEN_SEQ, INTERJECT_SENTENCE_SLACK};
use crate::backend::{all_succeeded, cells_of, holds_none, Backend, Detok, KvCall, Token};
use crate::number::F32;
use crate::numerics::Numerics;
use crate::stats::Welford;
use vstd::prelude::*;

verus! {

// ---------------------------------------------------------------------------------------------
// What a reply says
// ---------------------------------------------------------------------------------------------

/// One more token is said.
pub proof fn lemma_spoken_more<B: Backend>(engine: &B, toks: Seq<Token>, tok: Token, mode: Detok)
    ensures
        spoken(engine, toks.push(tok), mode) == spoken(engine, toks, mode) + engine.text_of(
            tok,
            mode,
        ),
{
    let f = |t: Token| engine.text_of(t, mode);
    assert(toks.push(tok).map_values(f).drop_last() =~= toks.map_values(f));
}

/// What the first tokens say is what the text of all of them starts with.
pub proof fn lemma_spoken_grows<B: Backend>(engine: &B, toks: Seq<Token>, n: int, mode: Detok)
    requires
        0 <= n <= toks.len(),
    ensures
        spoken(engine, toks.take(n), mode).is_prefix_of(spoken(engine, toks, mode)),
    decreases toks.len(),
{
    if n == toks.len() {
        assert(toks.take(n) =~= toks);
    } else {
        let head = toks.drop_last();
        lemma_spoken_grows(engine, head, n, mode);
        assert(head.take(n) =~= toks.take(n));
        assert(head.push(toks.last()) =~= toks);
        lemma_spoken_more(engine, head, toks.last(), mode);
    }
}

/// A reply may go on behind these tokens: none of them is a turn mark, the slack is not used up, and
/// no sentence has ended past the length asked for.
pub open spec fn goes_on<B: Backend>(
    engine: &B,
    v: LobeView,
    max: nat,
    toks: Seq<Token>,
) -> bool {
    &&& toks.len() <= max + INTERJECT_SENTENCE_SLACK
    &&& forall|i: int| 0 <= i < toks.len() ==> !turns(engine, v, #[trigger] toks[i])
    &&& forall|i: int|
        max <= i < toks.len() ==> !sentence_end(
            #[trigger] spoken(engine, toks.take(i), Detok::Plain),
        )
}

/// A reply of these tokens is over at `next`: at a turn mark, with the slack used up, or past the
/// length asked for at the end of a sentence.
pub open spec fn is_over<B: Backend>(
    engine: &B,
    v: LobeView,
    max: nat,
    toks: Seq<Token>,
    next: Token,
) -> bool {
    ||| turns(engine, v, next)
    ||| toks.len() == max + INTERJECT_SENTENCE_SLACK
    ||| toks.len() >= max && sentence_end(spoken(engine, toks, Detok::Plain))
}

/// A reply that goes on goes on behind one token more.
proof fn lemma_goes_on<B: Backend>(
    engine: &B,
    v: LobeView,
    max: nat,
    toks: Seq<Token>,
    tok: Token,
)
    requires
        goes_on(engine, v, max, toks),
        !halts(engine, v, tok, toks.len(), max, spoken(engine, toks, Detok::Plain)),
    ensures
        goes_on(engine, v, max, toks.push(tok)),
{
    let more = toks.push(tok);
    assert forall|i: int| max <= i < more.len() implies !sentence_end(
        #[trigger] spoken(engine, more.take(i), Detok::Plain),
    ) by {
        assert(more.take(i) =~= toks.take(i));
        if i == toks.len() {
            assert(toks.take(i) =~= toks);
        }
    }
}

// ---------------------------------------------------------------------------------------------
// An aside that is pumped out alone
// ---------------------------------------------------------------------------------------------

/// The run of an aside that is pumped out alone: the states between its pumps, and what each pump but
/// the last showed of it. The last one finished it with `text`.
pub open spec fn pumped_out<B: Backend, N: Numerics>(
    engine: &B,
    num: &N,
    v: LobeView,
    max: nat,
    recalled: Option<Seq<char>>,
    states: Seq<LobeView>,
    shown: Seq<Seq<char>>,
    after: LobeView,
    text: Seq<char>,
) -> bool {
    &&& states.len() == shown.len() + 1
    &&& begun(engine, v, max, recalled, states[0])
    &&& forall|i: int|
        0 <= i < shown.len() ==> pumped(
            engine,
            num,
            states[i],
            states[i + 1],
            Progress::Working(#[trigger] shown[i]),
        )
    &&& pumped(engine, num, states.last(), after, Progress::Done(text))
}

/// A whole aside is such a run.
pub proof fn lemma_an_aside_is_pumped_out<B: Backend, N: Numerics>(
    engine: &B,
    num: &N,
    v: LobeView,
    max: nat,
    recalled: Option<Seq<char>>,
    after: LobeView,
    text: Seq<char>,
) -> (run: (Seq<LobeView>, Seq<Seq<char>>))
    requires
        aside(engine, num, v, max, recalled, after, text),
    ensures
        pumped_out(engine, num, v, max, recalled, run.0, run.1, after, text),
{
    let states = choose|states: Seq<LobeView>|
        {
            &&& #[trigger] states.len() >= 1
            &&& begun(engine, v, max, recalled, states[0])
            &&& forall|i: int|
                0 <= i < states.len() - 1 ==> pumping(
                    engine,
                    num,
                    #[trigger] states[i],
                    states[i + 1],
                )
            &&& pumped(engine, num, states.last(), after, Progress::Done(text))
        };
    let shown = Seq::new(
        (states.len() - 1) as nat,
        |i: int|
            choose|s: Seq<char>| #[trigger]
                pumped(engine, num, states[i], states[i + 1], Progress::Working(s)),
    );
    assert forall|i: int| 0 <= i < shown.len() implies pumped(
        engine,
        num,
        states[i],
        states[i + 1],
        Progress::Working(#[trigger] shown[i]),
    ) by {
        assert(pumping(engine, num, states[i], states[i + 1]));
    }
    (states, shown)
}

/// A finished reply: its text is what its tokens say, and none of them is a turn mark. It has no more
/// tokens than were asked for and the slack allows. A reply that no turn mark ended either used up the
/// slack, or is past the length asked for and ends a sentence; it stops at the first chance. What was
/// shown on the way is the empty text and then the text of ever more of its tokens, so each text shown
/// starts the one that follows it and the final one. Afterwards no aside is in flight, the scratch
/// sequence is empty, and a further pump is idle.
pub proof fn lemma_how_a_reply_ends<B: Backend, N: Numerics>(
    engine: &B,
    num: &N,
    v: LobeView,
    max: nat,
    recalled: Option<Seq<char>>,
    states: Seq<LobeView>,
    shown: Seq<Seq<char>>,
    after: LobeView,
    text: Seq<char>,
) -> (reply: (Seq<Token>, Token))
    requires
        pumped_out(engine, num, v, max, recalled, states, shown, after, text),
    ensures
        ({
            let (toks, next) = reply;
            &&& text == spoken(engine, toks, Detok::Plain)
            &&& goes_on(engine, v, max, toks)
            &&& is_over(engine, v, max, toks, next)
            &&& shown.len() == toks.len() + 1
            &&& forall|i: int|
                0 <= i < shown.len() ==> #[trigger] shown[i] == spoken(
                    engine,
                    toks.take(i),
                    Detok::Plain,
                )
        }),
        forall|i: int, j: int|
            0 <= i <= j < shown.len() ==> (#[trigger] shown[i]).is_prefix_of(#[trigger] shown[j]),
        forall|i: int| 0 <= i < shown.len() ==> (#[trigger] shown[i]).is_prefix_of(text),
        after.gen.fsm is None,
        cells_of(after.calls, GEN_SEQ) == Map::<int, Token>::empty(),
        forall|later: LobeView, status: Progress| #[trigger]
            pumped(engine, num, after, later, status) ==> later == after && status
                == Progress::Idle,
{
    let n = shown.len() as int;
    let toks = lemma_reply_so_far(engine, num, v, max, recalled, states, shown, n);
    let last = states.last();
    lemma_pumping_leaves_observation_alone(engine, num, last, after, Progress::Done(text));
    assert(n > 0);
    let (pos, produced, m, out, logits) = match last.gen.fsm {
        Some(FsmView::Gen { pos, produced, max, out, logits }) => (pos, produced, max, out, logits),
        _ => arbitrary(),
    };
    let next = choose|tok: Token|
        #[trigger] chosen(num, last, logits, after.gen.rng, tok) && halts(
            engine,
            last,
            tok,
            produced,
            m,
            out,
        );
    assert forall|i: int, j: int| 0 <= i <= j < shown.len() implies (
    #[trigger] shown[i]).is_prefix_of(#[trigger] shown[j]) by {
        lemma_spoken_grows(engine, toks.take(j), i, Detok::Plain);
        assert(toks.take(j).take(i) =~= toks.take(i));
    }
    assert forall|i: int| 0 <= i < shown.len() implies (#[trigger] shown[i]).is_prefix_of(text) by {
        lemma_spoken_grows(engine, toks, i, Detok::Plain);
    }
    (toks, next)
}

/// A reply in the middle of its run.
proof fn lemma_reply_so_far<B: Backend, N: Numerics>(
    engine: &B,
    num: &N,
    v: LobeView,
    max: nat,
    recalled: Option<Seq<char>>,
    states: Seq<LobeView>,
    shown: Seq<Seq<char>>,
    n: int,
) -> (toks: Seq<Token>)
    requires
        0 <= n <= shown.len(),
        states.len() == shown.len() + 1,
        begun(engine, v, max, recalled, states[0]),
        forall|i: int|
            0 <= i < shown.len() ==> pumped(
                engine,
                num,
                states[i],
                states[i + 1],
                Progress::Working(#[trigger] shown[i]),
            ),
    ensures
        n == 0 ==> states[n].gen.fsm is Some && states[n].gen.fsm->0 is Prefill,
        n > 0 ==> {
            &&& toks.len() == n - 1
            &&& states[n].gen.fsm matches Some(FsmView::Gen { produced, max: m, out, .. })
            &&& produced == n - 1
            &&& m == max
            &&& out == spoken(engine, toks, Detok::Plain)
        },
        goes_on(engine, v, max, toks),
        states[n].eot == v.eot,
        states[n].sot == v.sot,
        forall|i: int|
            0 <= i < n ==> #[trigger] shown[i] == spoken(engine, toks.take(i), Detok::Plain),
    decreases n,
{
    if n == 0 {
        Seq::empty()
    } else {
        let toks = lemma_reply_so_far(engine, num, v, max, recalled, states, shown, n - 1);
        assert(pumped(engine, num, states[n - 1], states[n - 1 + 1], Progress::Working(shown[n - 1])));
        if n == 1 {
            let none = Seq::<Token>::empty();
            assert(none.map_values(|t: Token| engine.text_of(t, Detok::Plain)) =~= Seq::empty());
            assert(none.take(0) =~= none);
            assert(goes_on(engine, v, max, none));
            none
        } else {
            let before = states[n - 1];
            let (pos, produced, m, out, logits) = match before.gen.fsm {
                Some(FsmView::Gen { pos, produced, max, out, logits }) => (
                    pos,
                    produced,
                    max,
                    out,
                    logits,
                ),
                _ => arbitrary(),
            };
            let tok = choose|tok: Token|
                #[trigger] chosen(num, before, logits, states[n].gen.rng, tok) && !halts(
                    engine,
                    before,
                    tok,
                    produced,
                    m,
                    out,
                ) && shown[n - 1] == out + engine.text_of(tok, Detok::Plain) && (
                states[n].gen.fsm matches Some(FsmView::Gen { produced: p, max: k, out: o, .. }) && p
                    == produced + 1 && k == m && o == shown[n - 1]) && states[n].eot == before.eot
                    && states[n].sot == before.sot;
            let more = toks.push(tok);
            lemma_goes_on(engine, v, max, toks, tok);
            lemma_spoken_more(engine, toks, tok, Detok::Plain);
            assert forall|i: int| 0 <= i < n implies #[trigger] shown[i] == spoken(
                engine,
                more.take(i),
                Detok::Plain,
            ) by {
                if i < n - 1 {
                    assert(more.take(i) =~= toks.take(i));
                } else {
                    assert(more.take(i) =~= more);
                }
            }
            more
        }
    }
}

// ---------------------------------------------------------------------------------------------
// An aside alongside the stream
// ---------------------------------------------------------------------------------------------

/// The reply alongside the stream has said `toks`, and its next token is chosen.
pub open spec fn has_said<B: Backend>(engine: &B, v: LobeView, toks: Seq<Token>) -> bool {
    &&& v.gen.fused matches Some(FusedView::Reply { pending, produced, max, out, .. })
    &&& produced == toks.len()
    &&& out == spoken(engine, toks, Detok::Plain)
    &&& goes_on(engine, v, max, toks.push(pending))
}

/// A reply alongside the stream starts with nothing said, once its whole ask has been fed; a turn mark
/// right there makes it an empty one.
pub proof fn lemma_how_a_reply_starts_alongside<B: Backend, N: Numerics>(
    engine: &B,
    num: &N,
    v: LobeView,
    tok: Token,
    after: LobeView,
    status: Progress,
)
    requires
        v.gen.fused matches Some(FusedView::Prefill { .. }),
        forwarded(engine, num, v, tok, after, status),
    ensures
        match after.gen.fused {
            Some(FusedView::Prefill { .. }) => status == Progress::Working(Seq::empty()),
            Some(FusedView::Reply { .. }) => {
                &&& status == Progress::Working(Seq::empty())
                &&& has_said(engine, after, Seq::empty())
            },
            None => status == Progress::Done(Seq::empty()),
        },
{
    let none = Seq::<Token>::empty();
    assert(none.map_values(|t: Token| engine.text_of(t, Detok::Plain)) =~= Seq::empty());
    if let Some(FusedView::Reply { pending, max, .. }) = after.gen.fused {
        assert forall|i: int| max <= i < none.push(pending).len() implies !sentence_end(
            #[trigger] spoken(engine, none.push(pending).take(i), Detok::Plain),
        ) by {
            assert(none.push(pending).take(i) =~= none);
            assert(!sentence_end(Seq::empty()));
        }
    }
}

/// A reply alongside the stream moves on by one token a step, and shows what it has said so far: each
/// text shown starts the next one. Where it ends, its text is what its tokens say, none of them is a
/// turn mark, and it has no more of them than were asked for and the slack allows; where no turn mark
/// ended it, it either used up the slack, or is past the length asked for and ends a sentence.
pub proof fn lemma_how_a_reply_goes_on_alongside<B: Backend, N: Numerics>(
    engine: &B,
    num: &N,
    v: LobeView,
    toks: Seq<Token>,
    tok: Token,
    after: LobeView,
    status: Progress,
)
    requires
        has_said(engine, v, toks),
        forwarded(engine, num, v, tok, after, status),
    ensures
        ({
            let said = toks.push(v.gen.fused->0->Reply_pending);
            let max = v.gen.fused->0->Reply_max;
            let text = spoken(engine, said, Detok::Plain);
            &&& v.gen.fused->0->Reply_out.is_prefix_of(text)
            &&& match after.gen.fused {
                Some(_) => has_said(engine, after, said) && status == Progress::Working(text),
                None => {
                    &&& status == Progress::Done(text)
                    &&& goes_on(engine, v, max, said)
                    &&& exists|next: Token| is_over(engine, v, max, said, next)
                },
            }
        }),
{
    let pending = v.gen.fused->0->Reply_pending;
    let max = v.gen.fused->0->Reply_max;
    let said = toks.push(pending);
    let rows = after.answers[v.answers.len() as int];
    lemma_spoken_more(engine, toks, pending, Detok::Plain);
    let text = spoken(engine, said, Detok::Plain);
    let next = choose|next: Token|
        #[trigger] chosen(num, v, rows[1], after.gen.rng, next) && if halts(
            engine,
            v,
            next,
            said.len(),
            max,
            text,
        ) {
            after.gen.fused is None && status == Progress::Done(text)
        } else {
            &&& after.gen.fused matches Some(
                FusedView::Reply { pending: p, produced, max: m, out, .. },
            )
            &&& p == next
            &&& produced == said.len()
            &&& m == max
            &&& out == text
            &&& status == Progress::Working(text)
            &&& after.eot == v.eot
            &&& after.sot == v.sot
        };
    if halts(engine, v, next, said.len(), max, text) {
        assert(is_over(engine, v, max, said, next));
    } else {
        lemma_goes_on(engine, v, max, said, next);
    }
}

// ---------------------------------------------------------------------------------------------
// What an aside calls
// ---------------------------------------------------------------------------------------------

/// The call is on the scratch sequence: it feeds that one alone, drops it, or forks onto it.
pub open spec fn on_scratch(call: KvCall) -> bool {
    match call {
        KvCall::Decode { batch, .. } => forall|i: int|
            0 <= i < batch.len() ==> (#[trigger] batch[i]).seq == GEN_SEQ,
        KvCall::Clear { seq, .. } => seq == GEN_SEQ,
        KvCall::Copy { dst, .. } => dst == GEN_SEQ,
    }
}

/// The calls made in between are all on the scratch sequence.
pub open spec fn called_scratch(before: Seq<KvCall>, after: Seq<KvCall>) -> bool {
    &&& before.len() <= after.len()
    &&& after.take(before.len() as int) == before
    &&& forall|i: int| before.len() <= i < after.len() ==> on_scratch(#[trigger] after[i])
}

proof fn lemma_called_more(a: Seq<KvCall>, b: Seq<KvCall>, plan: Seq<KvCall>)
    requires
        called_scratch(a, b),
        forall|i: int| 0 <= i < plan.len() ==> on_scratch(#[trigger] plan[i]),
    ensures
        called_scratch(a, b + plan),
{
    let c = b + plan;
    assert(c.take(a.len() as int) =~= b.take(a.len() as int));
    assert forall|i: int| a.len() <= i < c.len() implies on_scratch(#[trigger] c[i]) by {
        if i < b.len() {
            assert(c[i] == b[i]);
        } else {
            assert(c[i] == plan[i - b.len()]);
        }
    }
}

proof fn lemma_feeds_on_scratch(toks: Seq<Token>, from: int, base: int)
    ensures
        forall|i: int|
            0 <= i < feeds(toks, from, base, GEN_SEQ).len() ==> on_scratch(
                #[trigger] feeds(toks, from, base, GEN_SEQ)[i],
            ),
    decreases toks.len() - from,
{
    if 0 <= from < toks.len() {
        let to = batch_end(toks.len() as int, from);
        lemma_feeds_on_scratch(toks, to, base);
        let all = feeds(toks, from, base, GEN_SEQ);
        let rest = feeds(toks, to, base, GEN_SEQ);
        assert forall|i: int| 0 <= i < all.len() implies on_scratch(#[trigger] all[i]) by {
            if i > 0 {
                assert(all[i] == rest[i - 1]);
            }
        }
    }
}

proof fn lemma_pump_calls_scratch<B: Backend, N: Numerics>(
    engine: &B,
    num: &N,
    first: Seq<KvCall>,
    v: LobeView,
    after: LobeView,
    status: Progress,
)
    requires
        called_scratch(first, v.calls),
        pumped(engine, num, v, after, status),
    ensures
        called_scratch(first, after.calls),
{
    match v.gen.fsm {
        None => {},
        Some(FsmView::Prefill { toks, start, max }) => {
            lemma_feeds_on_scratch(toks, 0, start);
            lemma_called_more(first, v.calls, feeds(toks, 0, start, GEN_SEQ));
        },
        Some(FsmView::Gen { pos, produced, max, out, logits }) => {
            let tok = choose|tok: Token|
                #[trigger] chosen(num, v, logits, after.gen.rng, tok) && if halts(
                    engine,
                    v,
                    tok,
                    produced,
                    max,
                    out,
                ) {
                    after == v.with_rng(after.gen.rng).with_fsm(None).scratched()
                } else {
                    after.calls == v.calls + feeds(seq![tok], 0, pos, GEN_SEQ)
                };
            if halts(engine, v, tok, produced, max, out) {
                let drop = seq![KvCall::Clear { seq: GEN_SEQ, ok: true }];
                assert(after.calls =~= v.calls + drop);
                lemma_called_more(first, v.calls, drop);
            } else {
                lemma_feeds_on_scratch(seq![tok], 0, pos);
                lemma_called_more(first, v.calls, feeds(seq![tok], 0, pos, GEN_SEQ));
            }
        },
    }
}

proof fn lemma_pumps_call_scratch<B: Backend, N: Numerics>(
    engine: &B,
    num: &N,
    first: Seq<KvCall>,
    states: Seq<LobeView>,
    shown: Seq<Seq<char>>,
    n: int,
)
    requires
        0 <= n <= shown.len(),
        states.len() == shown.len() + 1,
        called_scratch(first, states[0].calls),
        forall|i: int|
            0 <= i < shown.len() ==> pumped(
                engine,
                num,
                states[i],
                states[i + 1],
                Progress::Working(#[trigger] shown[i]),
            ),
    ensures
        called_scratch(first, states[n].calls),
    decreases n,
{
    if n > 0 {
        lemma_pumps_call_scratch(engine, num, first, states, shown, n - 1);
        let s = Progress::Working(shown[n - 1]);
        assert(pumped(engine, num, states[n - 1], states[n - 1 + 1], s));
        lemma_pump_calls_scratch(engine, num, first, states[n - 1], states[n], s);
    }
}

/// A whole aside neither feeds nor drops the observation sequence nor forks onto it: all of its calls
/// are on the scratch sequence. The position and the window are as they were.
pub proof fn lemma_an_aside_calls_the_scratch_sequence_only<B: Backend, N: Numerics>(
    engine: &B,
    num: &N,
    v: LobeView,
    max: nat,
    recalled: Option<Seq<char>>,
    after: LobeView,
    text: Seq<char>,
)
    requires
        aside(engine, num, v, max, recalled, after, text),
    ensures
        called_scratch(v.calls, after.calls),
        after.pos == v.pos,
        after.window == v.window,
        after.index == v.index,
{
    lemma_aside_leaves_observation_alone(engine, num, v, max, recalled, after, text);
    let (states, shown) = lemma_an_aside_is_pumped_out(engine, num, v, max, recalled, after, text);
    let begin = beginning(v);
    assert(v.calls.take(v.calls.len() as int) =~= v.calls);
    assert(states[0].calls =~= v.calls + begin);
    lemma_called_more(v.calls, v.calls, begin);
    lemma_pumps_call_scratch(engine, num, v.calls, states, shown, shown.len() as int);
    lemma_pump_calls_scratch(
        engine,
        num,
        v.calls,
        states.last(),
        after,
        Progress::Done(text),
    );
}

/// The calls with which an aside begins.
spec fn beginning(v: LobeView) -> Seq<KvCall> {
    if v.icfg.mode == InterjectMode::Context {
        seq![
            KvCall::Clear { seq: GEN_SEQ, ok: true },
            KvCall::Copy { src: 0, dst: GEN_SEQ, ok: true },
        ]
    } else {
        seq![KvCall::Clear { seq: GEN_SEQ, ok: true }]
    }
}

// ---------------------------------------------------------------------------------------------
// What is left of an aside
// ---------------------------------------------------------------------------------------------

/// Calls that succeeded, after calls that all did.
proof fn lemma_still_all_succeeded(before: Seq<KvCall>, after: Seq<KvCall>)
    requires
        all_succeeded(before),
        all_made(before, after),
    ensures
        all_succeeded(after),
{
    assert forall|i: int| 0 <= i < after.len() implies (#[trigger] after[i]).succeeded() by {
        if i < before.len() {
            assert(after.take(before.len() as int)[i] == before[i]);
        }
    }
}

/// On a session where every call has succeeded, a whole aside leaves the engine's own report of the
/// scratch sequence at -1: it holds no cell.
pub proof fn lemma_the_engine_reports_no_scratch_after_an_aside<'a, B: Backend, N: Numerics>(
    engine: &B,
    num: &N,
    v: LobeView,
    max: nat,
    recalled: Option<Seq<char>>,
    lobe: &Lobe<'a, B>,
    text: Seq<char>,
    report: (i32, i32, bool),
)
    requires
        all_succeeded(v.calls),
        aside(engine, num, v, max, recalled, lobe@, text),
        call_ensures(Lobe::<'a, B>::kv_debug, (lobe,), report),
    ensures
        holds_none(lobe@.calls, GEN_SEQ),
        report.1 == -1,
{
    let after = lobe@;
    lemma_aside_leaves_observation_alone(engine, num, v, max, recalled, after, text);
    let (states, shown) = lemma_an_aside_is_pumped_out(engine, num, v, max, recalled, after, text);
    let begin = beginning(v);
    assert(v.calls.take(v.calls.len() as int) =~= v.calls);
    assert(states[0].calls =~= v.calls + begin);
    lemma_made_more(v.calls, v.calls, begin);
    lemma_pumps_made(engine, num, states, shown, shown.len() as int);
    lemma_made_trans(v.calls, states[0].calls, states.last().calls);
    lemma_pumped_made(engine, num, states.last(), after, Progress::Done(text));
    lemma_made_trans(v.calls, states.last().calls, after.calls);
    lemma_still_all_succeeded(v.calls, after.calls);
}

proof fn lemma_pumps_made<B: Backend, N: Numerics>(
    engine: &B,
    num: &N,
    states: Seq<LobeView>,
    shown: Seq<Seq<char>>,
    n: int,
)
    requires
        0 <= n <= shown.len(),
        states.len() == shown.len() + 1,
        forall|i: int|
            0 <= i < shown.len() ==> pumped(
                engine,
                num,
                states[i],
                states[i + 1],
                Progress::Working(#[trigger] shown[i]),
            ),
    ensures
        all_made(states[0].calls, states[n].calls),
    decreases n,
{
    if n == 0 {
        assert(states[0].calls.take(states[0].calls.len() as int) =~= states[0].calls);
    } else {
        lemma_pumps_made(engine, num, states, shown, n - 1);
        let s = shown[n - 1];
        assert(pumped(engine, num, states[n - 1], states[n - 1 + 1], Progress::Working(s)));
        lemma_pumped_made(engine, num, states[n - 1], states[n], Progress::Working(s));
        lemma_made_trans(states[0].calls, states[n - 1].calls, states[n].calls);
    }
}

/// On a session where every call has succeeded, the step that finishes an aside alongside the stream
/// leaves the engine's own report of the scratch sequence at -1, and no aside in flight.
pub proof fn lemma_the_engine_reports_no_scratch_after_a_finished_step<
    'a,
    B: Backend,
    N: Numerics,
    R: Fn(&str) -> Option<String>,
>(
    engine: &B,
    num: &N,
    retrieve: R,
    v: LobeView,
    tok: Token,
    stats: Welford,
    stats_after: Welford,
    z_threshold: F32,
    topk: nat,
    max: usize,
    lobe: &Lobe<'a, B>,
    out: StepOutcome,
    report: (i32, i32, bool),
)
    requires
        all_succeeded(v.calls),
        stepped(
            engine,
            num,
            retrieve,
            v,
            tok,
            stats,
            stats_after,
            z_threshold,
            topk,
            max,
            lobe@,
            out,
        ),
        out.interjection@ is Done,
        call_ensures(Lobe::<'a, B>::kv_debug, (lobe,), report),
    ensures
        holds_none(lobe@.calls, GEN_SEQ),
        report.1 == -1,
        !report.2,
{
    let (g, row, a, f, status) = lemma_step_unpacked(
        engine,
        num,
        retrieve,
        v,
        tok,
        stats,
        stats_after,
        z_threshold,
        topk,
        max,
        lobe@,
        out,
    );
    let p = a.passed(tok, f.answers[a.answers.len() as int]);
    let clear = KvCall::Clear { seq: GEN_SEQ, ok: true };
    assert(a.gen.fused is Some);
    assert(p.calls == v.calls.push(KvCall::Decode { batch: batch_of(a.lanes(tok)), ok: true }));
    assert(f.calls == p.calls.push(clear));
    lemma_cells_after_call(p.calls, clear, GEN_SEQ);
    assert forall|i: int| 0 <= i < f.calls.len() implies (#[trigger] f.calls[i]).succeeded() by {
        if i < v.calls.len() {
            assert(f.calls[i] == v.calls[i]);
        }
    }
}

} // verus!
