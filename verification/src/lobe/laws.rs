//! What holds of the observer as a whole: what its two sequences hold at every moment, what a reset,
//! an aside and a search leave alone, and that nothing outgrows the context.

use super::fused::{batch_of, Lane};
use super::interject::{pumps_left, FsmView, FusedView, Progress};
use super::model::{
    active, aside, batch_end, begun, chosen, feed_batch, feed_one, feeds, forwarded, halts,
    margin_of, pumped, pumping, readied, scored, started, LobeView,
};
use super::observe::{kindled, observed, reached, recalls, stepped};
use super::rag::{
    consulted, replied, replies, thinks, thought_aloud, told, trickle, RagOutcome, Source,
};
use super::sampling::lemma_stirred_is_not_zero;
use super::types::{EvictMode, InterjectMode, LobeConfig, Step, StepOutcome};
use super::window::{lemma_pushed_wf, lemma_reset_replays_the_window};
use super::{fresh, room_for, GEN_SEQ, INTERJECT_SENTENCE_SLACK};
use crate::backend::{cells_of, fed, Answers, Backend, Decode, Detok, KvCall, Token};
use crate::number::F32;
use crate::numerics::Numerics;
use crate::stats::Welford;
use vstd::prelude::*;

verus! {

// ---------------------------------------------------------------------------------------------
// Cells
// ---------------------------------------------------------------------------------------------

/// A run of tokens in a cache: each at its own place, from 0 on.
pub open spec fn laid(s: Seq<Token>) -> Map<int, Token> {
    Map::new(|p: int| 0 <= p < s.len(), |p: int| s[p])
}

/// Feeding a run behind another lays the two one after the other.
pub proof fn lemma_feeding_lays_on(batch: Seq<Decode>, seq: u32, s: Seq<Token>, t: Seq<Token>)
    requires
        batch.len() == t.len(),
        forall|i: int|
            0 <= i < batch.len() ==> (#[trigger] batch[i]).seq == seq && batch[i].pos == s.len() + i
                && batch[i].token == t[i],
    ensures
        fed(laid(s), batch, seq) =~= laid(s + t),
    decreases batch.len(),
{
    if batch.len() == 0 {
        assert(s + t =~= s);
    } else {
        let b = batch.drop_last();
        let u = t.drop_last();
        assert forall|i: int| 0 <= i < b.len() implies (#[trigger] b[i]).seq == seq && b[i].pos
            == s.len() + i && b[i].token == u[i] by {
            assert(b[i] == batch[i]);
        }
        lemma_feeding_lays_on(b, seq, s, u);
        let last = batch.last();
        assert(batch[batch.len() - 1] == last);
        assert(laid(s + t) =~= laid(s + u).insert(last.pos as int, last.token));
    }
}

/// Feeding other sequences leaves a sequence alone.
pub proof fn lemma_feeding_spares(cells: Map<int, Token>, batch: Seq<Decode>, seq: u32)
    requires
        forall|i: int| 0 <= i < batch.len() ==> (#[trigger] batch[i]).seq != seq,
    ensures
        fed(cells, batch, seq) == cells,
    decreases batch.len(),
{
    if batch.len() > 0 {
        let b = batch.drop_last();
        assert forall|i: int| 0 <= i < b.len() implies (#[trigger] b[i]).seq != seq by {
            assert(b[i] == batch[i]);
        }
        lemma_feeding_spares(cells, b, seq);
        assert(batch[batch.len() - 1] == batch.last());
    }
}

/// One batch after another is one batch.
proof fn lemma_feeding_in_parts(cells: Map<int, Token>, a: Seq<Decode>, b: Seq<Decode>, seq: u32)
    ensures
        fed(cells, a + b, seq) == fed(fed(cells, a, seq), b, seq),
    decreases b.len(),
{
    if b.len() == 0 {
        assert(a + b =~= a);
    } else {
        assert((a + b).drop_last() =~= a + b.drop_last());
        lemma_feeding_in_parts(cells, a, b.drop_last(), seq);
    }
}

/// What one more call makes of the cells.
pub proof fn lemma_cells_after_call(calls: Seq<KvCall>, call: KvCall, seq: u32)
    ensures
        cells_of(calls.push(call), seq) == match call {
            KvCall::Decode { batch, .. } => fed(cells_of(calls, seq), batch, seq),
            KvCall::Clear { seq: s, .. } => if s == seq {
                Map::empty()
            } else {
                cells_of(calls, seq)
            },
            KvCall::Copy { src, dst, .. } => if dst == seq {
                cells_of(calls, seq).union_prefer_right(cells_of(calls, src))
            } else {
                cells_of(calls, seq)
            },
        },
{
    assert(calls.push(call).drop_last() =~= calls);
}

/// Feeding a run of tokens in batches lays it behind what is there.
pub proof fn lemma_feeds_lay_on(
    calls: Seq<KvCall>,
    s: Seq<Token>,
    toks: Seq<Token>,
    from: int,
    base: int,
    seq: u32,
)
    requires
        0 <= from <= toks.len(),
        0 <= base,
        base + toks.len() <= i32::MAX,
        s.len() == base + from,
        cells_of(calls, seq) == laid(s),
    ensures
        cells_of(calls + feeds(toks, from, base, seq), seq) == laid(s + toks.skip(from)),
    decreases toks.len() - from,
{
    if from == toks.len() {
        assert(calls + feeds(toks, from, base, seq) =~= calls);
        assert(s + toks.skip(from) =~= s);
    } else {
        let to = batch_end(toks.len() as int, from);
        let batch = feed_batch(toks, from, to, base, seq);
        let call = KvCall::Decode { batch, ok: true };
        let part = toks.subrange(from, to);
        lemma_feeding_lays_on(batch, seq, s, part);
        lemma_cells_after_call(calls, call, seq);
        lemma_feeds_lay_on(calls.push(call), s + part, toks, to, base, seq);
        assert(calls + feeds(toks, from, base, seq) =~= calls.push(call) + feeds(
            toks,
            to,
            base,
            seq,
        ));
        assert(s + part + toks.skip(to) =~= s + toks.skip(from));
    }
}

/// Feeding a run of tokens to one sequence leaves the others alone.
pub proof fn lemma_feeds_spare(
    calls: Seq<KvCall>,
    toks: Seq<Token>,
    from: int,
    base: int,
    other: u32,
    seq: u32,
)
    requires
        other != seq,
    ensures
        cells_of(calls + feeds(toks, from, base, other), seq) == cells_of(calls, seq),
    decreases toks.len() - from,
{
    if from < 0 || from >= toks.len() {
        assert(calls + feeds(toks, from, base, other) =~= calls);
    } else {
        let to = batch_end(toks.len() as int, from);
        let batch = feed_batch(toks, from, to, base, other);
        let call = KvCall::Decode { batch, ok: true };
        lemma_feeding_spares(cells_of(calls, seq), batch, seq);
        lemma_cells_after_call(calls, call, seq);
        lemma_feeds_spare(calls.push(call), toks, to, base, other, seq);
        assert(calls + feeds(toks, from, base, other) =~= calls.push(call) + feeds(
            toks,
            to,
            base,
            other,
        ));
    }
}

// ---------------------------------------------------------------------------------------------
// The observation sequence
// ---------------------------------------------------------------------------------------------

/// The observation sequence holds exactly the live context, and the next position follows it.
pub open spec fn synced(v: LobeView) -> bool {
    &&& v.pos == v.window.live().len()
    &&& v.window.live().len() <= i32::MAX
    &&& cells_of(v.calls, 0) == laid(v.window.live())
}

/// A new observer is in sync, and a preamble keeps it so.
pub proof fn lemma_priming_syncs<B: Backend>(
    engine: &B,
    n_ctx: u32,
    cfg: LobeConfig,
    tokens: Seq<Token>,
    primed: LobeView,
)
    requires
        tokens.len() <= i32::MAX,
        ({
            let v = fresh(engine, n_ctx, cfg);
            primed == (LobeView {
                logits: primed.logits,
                pos: v.pos + tokens.len(),
                window: v.window.primed(tokens, room_for(v, tokens.len())),
                calls: v.calls + feeds(tokens, 0, v.pos, 0),
                answers: primed.answers,
                ..v
            })
        }),
    ensures
        synced(fresh(engine, n_ctx, cfg)),
        synced(primed),
        primed.window.live() == tokens,
{
    let v = fresh(engine, n_ctx, cfg);
    assert(v.window.live() =~= Seq::empty());
    assert(cells_of(v.calls, 0) =~= laid(Seq::empty()));
    lemma_feeds_lay_on(v.calls, Seq::empty(), tokens, 0, 0, 0);
    assert(Seq::<Token>::empty() + tokens.skip(0) =~= tokens);
    assert(primed.window.live() =~= tokens);
}

/// A reset puts the observer in sync, whatever its cache held before: the sequence then holds the
/// pinned preamble and the recent window. It leaves the stream index, the firing state, the memory of
/// asides and the generation in flight as they were.
pub proof fn lemma_reset_syncs(v: LobeView, answers: Answers)
    requires
        v.wf(),
        v.window.resets < u64::MAX,
    ensures
        synced(v.rolled(answers)),
        v.rolled(answers).window.live() == v.window.replay(),
        v.rolled(answers).window.resets == v.window.resets + 1,
        v.rolled(answers).index == v.index,
        v.rolled(answers).firing == v.firing,
        v.rolled(answers).memory == v.memory,
        v.rolled(answers).gen == v.gen,
        cells_of(v.rolled(answers).calls, GEN_SEQ) == cells_of(v.calls, GEN_SEQ),
{
    lemma_reset_replays_the_window(v.window);
    let replay = v.window.replay();
    let clear = KvCall::Clear { seq: 0, ok: true };
    let cleared = v.calls.push(clear);
    assert(replay.len() <= v.window.live().len());
    lemma_cells_after_call(v.calls, clear, 0);
    lemma_cells_after_call(v.calls, clear, GEN_SEQ);
    assert(cells_of(cleared, 0) =~= laid(Seq::empty()));
    lemma_feeds_lay_on(cleared, Seq::empty(), replay, 0, 0, 0);
    lemma_feeds_spare(cleared, replay, 0, 0, 0, GEN_SEQ);
    assert(Seq::<Token>::empty() + replay.skip(0) =~= replay);
    assert(v.calls + v.roll_calls() =~= cleared + feeds(replay, 0, 0, 0));
}

/// A stream token that is fed joins the observation sequence at its end, behind a reset where one was
/// due.
pub proof fn lemma_feeding_keeps_sync(v: LobeView, tok: Token, answers: Answers)
    requires
        v.wf(),
        v.has_room(),
        synced(v),
    ensures
        synced(v.fed(tok, answers).counted(tok)),
        v.fed(tok, answers).counted(tok).window.live() == v.guarded(answers).window.live().push(tok),
        cells_of(v.fed(tok, answers).calls, GEN_SEQ) == cells_of(v.calls, GEN_SEQ),
{
    let g = v.guarded(answers);
    if v.due() {
        lemma_reset_syncs(v, answers);
        assert(v.calls + v.fed_calls(tok) =~= g.calls.push(feed_one(tok, g.pos)));
        assert(v.window.replay().len() <= v.window.live().len());
    } else {
        assert(v.calls + v.fed_calls(tok) =~= g.calls.push(feed_one(tok, g.pos)));
    }
    lemma_pushed_wf(g.window, tok);
    let batch = seq![Decode { token: tok, pos: g.pos as i32, seq: 0, logits: true }];
    lemma_cells_after_call(g.calls, feed_one(tok, g.pos), 0);
    lemma_cells_after_call(g.calls, feed_one(tok, g.pos), GEN_SEQ);
    lemma_feeding_lays_on(batch, 0, g.window.live(), seq![tok]);
    lemma_feeding_spares(cells_of(g.calls, GEN_SEQ), batch, GEN_SEQ);
    assert(g.window.live() + seq![tok] =~= g.window.live().push(tok));
}

/// Observing keeps the observer in sync: from one state in which the observation sequence holds the
/// live context to the next.
pub proof fn lemma_observing_keeps_sync<B: Backend, N: Numerics>(
    engine: &B,
    num: &N,
    v: LobeView,
    seen: Vec<F32>,
    tok: Token,
    stats: Welford,
    stats_after: Welford,
    z_threshold: F32,
    topk: nat,
    a: LobeView,
    step: Step,
    answers: Answers,
)
    requires
        v.wf(),
        v.has_room(),
        synced(v),
        scored(engine, num, v, seen, tok, stats, stats_after, z_threshold, topk, a, step),
    ensures
        synced(a.fed(tok, answers).counted(tok)),
        a.fed(tok, answers).counted(tok).index == v.index + 1,
{
    lemma_scoring_is_offline(engine, num, v, seen, tok, stats, stats_after, z_threshold, topk, a, step);
    lemma_feeding_keeps_sync(a, tok, answers);
}

/// Scoring a token calls nothing: the cache, the live context, the position and the aside in flight
/// are as they were, and the shape is kept.
pub proof fn lemma_scoring_is_offline<B: Backend, N: Numerics>(
    engine: &B,
    num: &N,
    v: LobeView,
    seen: Vec<F32>,
    tok: Token,
    stats: Welford,
    stats_after: Welford,
    z_threshold: F32,
    topk: nat,
    a: LobeView,
    step: Step,
)
    requires
        scored(engine, num, v, seen, tok, stats, stats_after, z_threshold, topk, a, step),
    ensures
        a.calls == v.calls,
        a.answers == v.answers,
        a.pos == v.pos,
        a.logits == v.logits,
        a.window.live() == v.window.live(),
        a.window.replay() == v.window.replay(),
        a.gen == v.gen,
        a.index == v.index,
        v.wf() ==> a.wf(),
        v.has_room() ==> a.has_room(),
        synced(v) ==> synced(a),
{
}

/// What an observation says: a token that nothing predicted is neutral and leaves the baseline alone;
/// any other is measured by the distribution at hand and against the baseline as it was. There is a
/// trigger exactly where it fired. The stream index counts the tokens, and without a reset the position
/// moves on by one. The distribution left behind is the row that this token's own pass answered.
pub proof fn lemma_observing_scores_by_the_row_at_hand<B: Backend, N: Numerics>(
    engine: &B,
    num: &N,
    v: LobeView,
    tok: Token,
    stats: Welford,
    stats_after: Welford,
    z_threshold: F32,
    topk: nat,
    after: LobeView,
    step: Step,
)
    requires
        observed(engine, num, v, tok, stats, stats_after, z_threshold, topk, after, step),
    ensures
        step.trigger is Some <==> step.fired,
        step.stream_index == v.index,
        after.index == v.index + 1,
        !v.due() ==> after.pos == v.pos + 1,
        after.logits == after.answers.last()[0],
        v.logits.len() == 0 ==> {
            &&& step.surprisal == F32(0)
            &&& step.entropy == F32(0)
            &&& step.z == F32(0)
            &&& !step.fired
            &&& stats_after == stats
        },
        v.logits.len() > 0 ==> exists|row: Vec<F32>|
            row@ == v.logits && #[trigger] measured(num, v, row, tok, stats, stats_after, step),
{
    if v.logits.len() > 0 {
        let (row, a) = choose|row: Vec<F32>, a: LobeView|
            #[trigger] scored(
                engine,
                num,
                v,
                row,
                tok,
                stats,
                stats_after,
                z_threshold,
                topk,
                a,
                step,
            ) && after == a.fed(tok, after.answers).counted(tok);
        assert(measured(num, v, row, tok, stats, stats_after, step));
    }
}

/// The values of a step are those of `tok` under `row`, and its score that of the active one against
/// the baseline, which has then taken it in.
pub open spec fn measured<N: Numerics>(
    num: &N,
    v: LobeView,
    row: Vec<F32>,
    tok: Token,
    stats: Welford,
    stats_after: Welford,
    step: Step,
) -> bool {
    let value = active(v.firing.signal, step);
    &&& call_ensures(N::surprisal, (num, &row, tok), step.surprisal)
    &&& call_ensures(N::entropy, (num, &row), step.entropy)
    &&& call_ensures(N::z, (num, &stats, value), step.z)
    &&& exists|m: (F32, F32)| #[trigger]
        call_ensures(N::moments, (num, &stats, value), m) && stats_after == stats.taken(m)
}

/// Each token is measured by the row that the pass of the token before it answered, and by no other.
pub proof fn lemma_each_token_is_measured_by_the_row_before<B: Backend, N: Numerics>(
    engine: &B,
    num: &N,
    v: LobeView,
    w: LobeView,
    x: LobeView,
    toks: (Token, Token),
    stats: (Welford, Welford, Welford),
    z_threshold: F32,
    topk: nat,
    steps: (Step, Step),
)
    requires
        w.wf(),
        observed(engine, num, v, toks.0, stats.0, stats.1, z_threshold, topk, w, steps.0),
        observed(engine, num, w, toks.1, stats.1, stats.2, z_threshold, topk, x, steps.1),
        w.logits.len() > 0,
    ensures
        exists|row: Vec<F32>|
            row@ == w.answers.last()[0] && #[trigger] measured(
                num,
                w,
                row,
                toks.1,
                stats.1,
                stats.2,
                steps.1,
            ),
        x.answers[w.answers.len() - 1] == w.answers.last(),
{
    lemma_observing_scores_by_the_row_at_hand(
        engine,
        num,
        v,
        toks.0,
        stats.0,
        stats.1,
        z_threshold,
        topk,
        w,
        steps.0,
    );
    lemma_observing_scores_by_the_row_at_hand(
        engine,
        num,
        w,
        toks.1,
        stats.1,
        stats.2,
        z_threshold,
        topk,
        x,
        steps.1,
    );
    let k = w.answers.len() - 1;
    assert(w.answers.len() > 0) by {
        assert(w.calls.len() > 0);
    }
    assert(x.answers.take(w.answers.len() as int)[k] == x.answers[k]);
}

// ---------------------------------------------------------------------------------------------
// The fused step
// ---------------------------------------------------------------------------------------------

/// What a step says. An aside starts on exactly the tokens that fire while none is in flight, and then
/// on what was looked up for that token; it moves on or ends only where one was in flight; where
/// neither is the case nothing happens to asides. While one is in flight the observation sequence is
/// never reset. There is a trigger exactly where the token fired. It is measured by the distribution at
/// hand, or behind a reset by the one that the replay left. Where no aside starts, the distribution left
/// behind is the row of the stream's own lane in the pass of this step.
pub proof fn lemma_what_a_step_says<B: Backend, N: Numerics, R: Fn(&str) -> Option<String>>(
    engine: &B,
    num: &N,
    retrieve: R,
    v: LobeView,
    tok: Token,
    stats: Welford,
    stats_after: Welford,
    z_threshold: F32,
    topk: nat,
    max: usize,
    after: LobeView,
    out: StepOutcome,
)
    requires
        stepped(
            engine,
            num,
            retrieve,
            v,
            tok,
            stats,
            stats_after,
            z_threshold,
            topk,
            max,
            after,
            out,
        ),
    ensures
        out.step.trigger is Some <==> out.step.fired,
        out.step.stream_index == v.index,
        out.interjection@ is Started <==> out.step.fired && v.gen.fused is None,
        out.interjection@ is Started ==> exists|recalled: Option<Seq<char>>| #[trigger]
            recalls(retrieve, out.step.token_text@, recalled),
        out.interjection@ is Working || out.interjection@ is Done <==> v.gen.fused is Some,
        out.interjection@ is Idle <==> v.gen.fused is None && !out.step.fired,
        v.gen.fused is Some ==> after.window.resets == v.window.resets && after.pos == v.pos + 1,
        exists|g: LobeView, row: Vec<F32>|
            #![trigger readied(v, max, g), measured(num, g, row, tok, stats, stats_after, out.step)]
            readied(v, max, g) && row@ == g.logits && measured(
                num,
                g,
                row,
                tok,
                stats,
                stats_after,
                out.step,
            ),
        !(out.interjection@ is Started) ==> exists|n: int|
            v.answers.len() <= n < after.answers.len() && after.logits == (
            #[trigger] after.answers[n])[0],
{
    let (g, row, a, f, status) = lemma_step_unpacked(
        engine,
        num,
        retrieve,
        v,
        tok,
        stats,
        stats_after,
        z_threshold,
        topk,
        max,
        after,
        out,
    );
    assert(readied(v, max, g) && measured(num, g, row, tok, stats, stats_after, out.step));
    if !(out.interjection@ is Started) {
        let n = a.answers.len() as int;
        assert(after.logits == after.answers[n][0]);
        assert(after.answers.len() > n);
    }
}

/// The lanes of an aside are all on the scratch sequence.
proof fn lemma_gen_lanes_are_scratch(v: LobeView)
    ensures
        forall|i: int|
            0 <= i < batch_of(v.gen_lanes()).len() ==> (#[trigger] batch_of(v.gen_lanes())[i]).seq
                == GEN_SEQ,
{
}

/// The pass of a step feeds the observation sequence the stream token and nothing else, and the
/// scratch sequence the lanes of the aside and nothing else.
pub proof fn lemma_pass_keeps_sequences_apart(v: LobeView, tok: Token, rows: Seq<Seq<F32>>)
    requires
        v.wf(),
        v.pos < i32::MAX,
        v.window.live().len() < i32::MAX,
        synced(v),
    ensures
        synced(v.passed(tok, rows)),
        v.passed(tok, rows).window.live() == v.window.live().push(tok),
        cells_of(v.passed(tok, rows).calls, GEN_SEQ) == fed(
            cells_of(v.calls, GEN_SEQ),
            batch_of(v.gen_lanes()),
            GEN_SEQ,
        ),
{
    let own = Lane { token: tok, pos: v.pos as i32, seq: 0, logits: true };
    let a = seq![own.entry()];
    let b = batch_of(v.gen_lanes());
    let batch = batch_of(v.lanes(tok));
    assert(batch =~= a + b);
    lemma_gen_lanes_are_scratch(v);
    let call = KvCall::Decode { batch, ok: true };
    lemma_cells_after_call(v.calls, call, 0);
    lemma_cells_after_call(v.calls, call, GEN_SEQ);
    lemma_feeding_in_parts(cells_of(v.calls, 0), a, b, 0);
    lemma_feeding_in_parts(cells_of(v.calls, GEN_SEQ), a, b, GEN_SEQ);
    lemma_feeding_lays_on(a, 0, v.window.live(), seq![tok]);
    lemma_feeding_spares(fed(cells_of(v.calls, 0), a, 0), b, 0);
    lemma_feeding_spares(cells_of(v.calls, GEN_SEQ), a, GEN_SEQ);
    lemma_pushed_wf(v.window, tok);
    assert(v.window.live() + seq![tok] =~= v.window.live().push(tok));
}

/// The pass of a step keeps the observer in sync, whatever the aside does in it.
pub proof fn lemma_forwarding_keeps_sync<B: Backend, N: Numerics>(
    engine: &B,
    num: &N,
    v: LobeView,
    tok: Token,
    after: LobeView,
    status: Progress,
)
    requires
        v.wf(),
        v.pos < i32::MAX,
        v.window.live().len() < i32::MAX,
        synced(v),
        forwarded(engine, num, v, tok, after, status),
    ensures
        synced(after),
        after.window.live() == v.window.live().push(tok),
        after.pos == v.pos + 1,
{
    let rows = after.answers[v.answers.len() as int];
    let p = v.passed(tok, rows);
    lemma_pass_keeps_sequences_apart(v, tok, rows);
    lemma_cells_after_call(p.calls, KvCall::Clear { seq: GEN_SEQ, ok: true }, 0);
    assert(after.calls == p.calls || after.calls == p.calls.push(
        KvCall::Clear { seq: GEN_SEQ, ok: true },
    ));
}

/// Starting an aside keeps the observer in sync. In the context mode the scratch sequence then holds
/// exactly the live context, and the ask is to go right behind it; in the snippet mode it holds
/// nothing, and the ask is to go to its start.
pub proof fn lemma_starting_forks_the_live_context<B: Backend>(
    engine: &B,
    v: LobeView,
    max: nat,
    recalled: Option<Seq<char>>,
    after: LobeView,
)
    requires
        v.wf(),
        v.window.resets < u64::MAX,
        synced(v),
        started(engine, v, max, recalled, after),
    ensures
        synced(after),
        attends(
            after,
            match v.icfg.mode {
                InterjectMode::Context => after.window.live(),
                InterjectMode::Snippet => Seq::empty(),
            },
        ),
        after.index == v.index,
{
    let clear = KvCall::Clear { seq: GEN_SEQ, ok: true };
    lemma_cells_after_call(v.calls, clear, 0);
    lemma_cells_after_call(v.calls, clear, GEN_SEQ);
    let s = v.scratched();
    assert(cells_of(s.calls, GEN_SEQ) =~= laid(Seq::empty()));
    match v.icfg.mode {
        InterjectMode::Snippet => {},
        InterjectMode::Context => {
            lemma_reset_syncs(s, after.answers.drop_last());
            let ask = engine.tokens_of(v.ask_text(recalled), false)->0;
            let base = if v.window.evict == EvictMode::Reset && v.crowded(ask.len(), max) {
                s.rolled(after.answers.drop_last())
            } else {
                s
            };
            let copy = KvCall::Copy { src: 0, dst: GEN_SEQ, ok: true };
            lemma_cells_after_call(base.calls, copy, 0);
            lemma_cells_after_call(base.calls, copy, GEN_SEQ);
            assert(cells_of(after.calls, GEN_SEQ) =~= laid(base.window.live()));
        },
    }
}

/// The scratch sequence holds exactly `seen`, and the next token of the aside goes right behind it.
pub open spec fn attends(v: LobeView, seen: Seq<Token>) -> bool {
    &&& cells_of(v.calls, GEN_SEQ) == laid(seen)
    &&& v.gen.fused matches Some(f) && match f {
        FusedView::Prefill { ask, next, pos, max } => pos == seen.len(),
        FusedView::Reply { pending, pos, produced, max, out } => pos == seen.len(),
    }
}

/// The tokens that the next step feeds to the scratch sequence.
pub open spec fn offered(v: LobeView) -> Seq<Token> {
    v.gen_lanes().map_values(|l: Lane| l.token)
}

/// While an aside is in flight each step lays the tokens that it offers right behind what the aside
/// attends to; when it is over its sequence is empty. An ask is thus laid whole behind the context it
/// was forked from, whatever the size of the pieces it is fed in, and the reply behind it; nothing is
/// drawn from the sampler's stream before the whole ask has been fed.
pub proof fn lemma_aside_grows_behind_its_context<B: Backend, N: Numerics>(
    engine: &B,
    num: &N,
    v: LobeView,
    seen: Seq<Token>,
    tok: Token,
    after: LobeView,
    status: Progress,
)
    requires
        v.wf(),
        v.pos < i32::MAX,
        v.window.live().len() < i32::MAX,
        synced(v),
        attends(v, seen),
        forwarded(engine, num, v, tok, after, status),
    ensures
        after.gen.fused is Some ==> attends(after, seen + offered(v)),
        after.gen.fused is None ==> cells_of(after.calls, GEN_SEQ) == Map::<int, Token>::empty(),
        v.gen.fused matches Some(FusedView::Prefill { ask, next, pos, max }) ==> offered(v)
            == ask.subrange(next, next + v.chunk_of(ask.len() - next)),
        after.gen.fused matches Some(FusedView::Prefill { .. }) ==> after.gen.rng == v.gen.rng,
{
    let rows = after.answers[v.answers.len() as int];
    let p = v.passed(tok, rows);
    lemma_pass_keeps_sequences_apart(v, tok, rows);
    lemma_gen_lanes_are_scratch(v);
    let lanes = batch_of(v.gen_lanes());
    assert forall|i: int| 0 <= i < lanes.len() implies (#[trigger] lanes[i]).seq == GEN_SEQ
        && lanes[i].pos == seen.len() + i && lanes[i].token == offered(v)[i] by {}
    lemma_feeding_lays_on(lanes, GEN_SEQ, seen, offered(v));
    lemma_cells_after_call(p.calls, KvCall::Clear { seq: GEN_SEQ, ok: true }, GEN_SEQ);
    match v.gen.fused {
        Some(FusedView::Prefill { ask, next, pos, max }) => {
            assert(offered(v) =~= ask.subrange(next, next + v.chunk_of(ask.len() - next)));
        },
        _ => {
            assert(offered(v).len() == 1);
        },
    }
}

/// The parts of a step: the state behind the guard, the row that scored, the state behind the scoring,
/// the state behind the pass, and where the aside in flight stood then.
pub proof fn lemma_step_unpacked<B: Backend, N: Numerics, R: Fn(&str) -> Option<String>>(
    engine: &B,
    num: &N,
    retrieve: R,
    v: LobeView,
    tok: Token,
    stats: Welford,
    stats_after: Welford,
    z_threshold: F32,
    topk: nat,
    max: usize,
    after: LobeView,
    out: StepOutcome,
) -> (parts: (LobeView, Vec<F32>, LobeView, LobeView, Progress))
    requires
        stepped(
            engine,
            num,
            retrieve,
            v,
            tok,
            stats,
            stats_after,
            z_threshold,
            topk,
            max,
            after,
            out,
        ),
    ensures
        ({
            let (g, row, a, f, status) = parts;
            &&& readied(v, max, g)
            &&& scored(
                engine,
                num,
                g,
                row,
                tok,
                stats,
                stats_after,
                z_threshold,
                topk,
                a,
                out.step,
            )
            &&& forwarded(engine, num, a, tok, f, status)
            &&& a.gen == v.gen
            &&& if out.step.fired && a.gen.fused is None {
                &&& out.interjection@ == Progress::Started
                &&& kindled(engine, retrieve, f, out.step.token_text@, max as nat, after)
            } else {
                &&& out.interjection@ == status
                &&& after == (LobeView { index: f.index + 1, ..f })
            }
        }),
{
    let (f, status) = choose|f: LobeView, status: Progress|
        {
            &&& #[trigger] reached(
                engine,
                num,
                v,
                tok,
                stats,
                stats_after,
                z_threshold,
                topk,
                max,
                out.step,
                f,
                status,
            )
            &&& if out.step.fired && v.gen.fused is None {
                &&& out.interjection@ == Progress::Started
                &&& kindled(engine, retrieve, f, out.step.token_text@, max as nat, after)
            } else {
                &&& out.interjection@ == status
                &&& after == (LobeView { index: f.index + 1, ..f })
            }
        };
    let (g, row, a) = choose|g: LobeView, row: Vec<F32>, a: LobeView|
        #![trigger readied(v, max, g), scored(engine, num, g, row, tok, stats, stats_after, z_threshold, topk, a, out.step)]
        {
            &&& readied(v, max, g)
            &&& scored(
                engine,
                num,
                g,
                row,
                tok,
                stats,
                stats_after,
                z_threshold,
                topk,
                a,
                out.step,
            )
            &&& forwarded(engine, num, a, tok, f, status)
        };
    (g, row, a, f, status)
}

/// A whole step keeps the observer in sync and moves the stream index on by one.
pub proof fn lemma_stepping_keeps_sync<B: Backend, N: Numerics, R: Fn(&str) -> Option<String>>(
    engine: &B,
    num: &N,
    retrieve: R,
    v: LobeView,
    tok: Token,
    stats: Welford,
    stats_after: Welford,
    z_threshold: F32,
    topk: nat,
    max: usize,
    after: LobeView,
    out: StepOutcome,
)
    requires
        v.wf(),
        v.has_room(),
        super::model::hint_fits(max as nat),
        synced(v),
        stepped(
            engine,
            num,
            retrieve,
            v,
            tok,
            stats,
            stats_after,
            z_threshold,
            topk,
            max,
            after,
            out,
        ),
    ensures
        synced(after),
        after.index == v.index + 1,
{
    let (g, row, a, f, status) = lemma_step_unpacked(
        engine,
        num,
        retrieve,
        v,
        tok,
        stats,
        stats_after,
        z_threshold,
        topk,
        max,
        after,
        out,
    );
    lemma_readied_syncs(v, max, g);
    lemma_scoring_is_offline(
        engine,
        num,
        g,
        row,
        tok,
        stats,
        stats_after,
        z_threshold,
        topk,
        a,
        out.step,
    );
    lemma_forwarding_keeps_sync(engine, num, a, tok, f, status);
    lemma_forwarding_keeps_shape(engine, num, a, tok, f, status);
    if out.step.fired && a.gen.fused is None {
        let recalled = choose|recalled: Option<Seq<char>>|
            #[trigger] recalls(retrieve, out.step.token_text@, recalled) && started(
                engine,
                f,
                max as nat,
                recalled,
                LobeView { index: f.index, ..after },
            ) && after.index == f.index + 1;
        lemma_starting_forks_the_live_context(
            engine,
            f,
            max as nat,
            recalled,
            LobeView { index: f.index, ..after },
        );
    }
}

proof fn lemma_readied_syncs(v: LobeView, max: usize, g: LobeView)
    requires
        v.wf(),
        v.has_room(),
        super::model::hint_fits(max as nat),
        synced(v),
        readied(v, max, g),
    ensures
        synced(g),
        g.wf(),
        g.pos < i32::MAX,
        g.window.live().len() < i32::MAX,
        g.window.resets + 1 <= u64::MAX,
        g.index == v.index,
        g.gen == v.gen,
{
    let h = LobeView {
        icfg: super::interject::InterjectConfig { max_hint: max, ..v.icfg },
        ..v
    };
    if h.due() && h.gen.fused is None {
        lemma_reset_syncs(h, g.answers);
        lemma_reset_replays_the_window(h.window);
        assert(h.window.replay().len() <= h.window.live().len());
    }
}

/// The pass of a step keeps the shape of the observer.
pub proof fn lemma_forwarding_keeps_shape<B: Backend, N: Numerics>(
    engine: &B,
    num: &N,
    v: LobeView,
    tok: Token,
    after: LobeView,
    status: Progress,
)
    requires
        v.wf(),
        v.pos < i32::MAX,
        v.window.live().len() < i32::MAX,
        forwarded(engine, num, v, tok, after, status),
    ensures
        after.wf(),
        after.index == v.index,
        after.window.resets == v.window.resets,
{
    lemma_pushed_wf(v.window, tok);
}

/// A step without an aside and without a reset feeds the stream token just as observing it does.
pub proof fn lemma_idle_step_feeds_as_observing_does(
    v: LobeView,
    tok: Token,
    rows: Seq<Seq<F32>>,
)
    requires
        v.gen.fused is None,
        !v.due(),
    ensures
        (LobeView { index: v.index + 1, ..v.passed(tok, rows) }) == v.fed(
            tok,
            v.answers.push(rows),
        ).counted(tok),
{
    let own = Lane { token: tok, pos: v.pos as i32, seq: 0, logits: true };
    assert(batch_of(v.lanes(tok)) =~= seq![own.entry()]);
    assert(v.calls + v.fed_calls(tok) =~= v.calls.push(feed_one(tok, v.pos)));
}

// ---------------------------------------------------------------------------------------------
// Asides and searches leave observation alone
// ---------------------------------------------------------------------------------------------

/// Everything that observing goes by is the same in both states.
pub open spec fn observes_alike(v: LobeView, w: LobeView) -> bool {
    &&& cells_of(w.calls, 0) == cells_of(v.calls, 0)
    &&& observes_alike_but_calls(v, w)
}

/// Dropping the scratch sequence or forking onto it leaves observation alone.
proof fn lemma_scratch_calls_spare(v: LobeView)
    ensures
        cells_of(v.scratched().calls, 0) == cells_of(v.calls, 0),
        cells_of(v.forked().calls, 0) == cells_of(v.calls, 0),
        cells_of(v.scratched().calls, GEN_SEQ) == Map::<int, Token>::empty(),
{
    lemma_cells_after_call(v.calls, KvCall::Clear { seq: GEN_SEQ, ok: true }, 0);
    lemma_cells_after_call(v.calls, KvCall::Clear { seq: GEN_SEQ, ok: true }, GEN_SEQ);
    lemma_cells_after_call(v.calls, KvCall::Copy { src: 0, dst: GEN_SEQ, ok: true }, 0);
}

/// One pump of an aside leaves observation alone, and the pump that finishes it leaves the scratch
/// sequence empty.
pub proof fn lemma_pumping_leaves_observation_alone<B: Backend, N: Numerics>(
    engine: &B,
    num: &N,
    v: LobeView,
    after: LobeView,
    status: Progress,
)
    requires
        pumped(engine, num, v, after, status),
    ensures
        observes_alike(v, after),
        status is Done ==> cells_of(after.calls, GEN_SEQ) == Map::<int, Token>::empty()
            && after.gen.fsm is None,
{
    match v.gen.fsm {
        None => {},
        Some(FsmView::Prefill { toks, start, max }) => {
            lemma_feeds_spare(v.calls, toks, 0, start, GEN_SEQ, 0);
        },
        Some(FsmView::Gen { pos, produced, max, out, logits }) => {
            let tok = choose|tok: Token|
                #[trigger] chosen(num, v, logits, after.gen.rng, tok) && if halts(
                    engine,
                    v,
                    tok,
                    produced,
                    max,
                    out,
                ) {
                    &&& after == v.with_rng(after.gen.rng).with_fsm(None).scratched()
                    &&& status == Progress::Done(out)
                } else {
                    &&& status is Working
                    &&& after.calls == v.calls + feeds(seq![tok], 0, pos, GEN_SEQ)
                    &&& observes_alike_but_calls(v, after)
                };
            if halts(engine, v, tok, produced, max, out) {
                lemma_scratch_calls_spare(v.with_rng(after.gen.rng).with_fsm(None));
            } else {
                lemma_feeds_spare(v.calls, seq![tok], 0, pos, GEN_SEQ, 0);
            }
        },
    }
}

/// All but the aside in flight and the history of calls is the same in both states.
pub open spec fn observes_alike_but_calls(v: LobeView, w: LobeView) -> bool {
    w == (LobeView { gen: w.gen, calls: w.calls, answers: w.answers, ..v })
}

/// A whole aside leaves observation alone: the observation sequence holds what it held, and the
/// position, the distribution at hand, the baseline's inputs and the window are as they were, so the
/// stream is scored as if there had been no aside. The scratch sequence is left empty.
pub proof fn lemma_aside_leaves_observation_alone<B: Backend, N: Numerics>(
    engine: &B,
    num: &N,
    v: LobeView,
    max: nat,
    recalled: Option<Seq<char>>,
    after: LobeView,
    text: Seq<char>,
)
    requires
        aside(engine, num, v, max, recalled, after, text),
    ensures
        observes_alike(v, after),
        cells_of(after.calls, GEN_SEQ) == Map::<int, Token>::empty(),
        synced(v) ==> synced(after),
{
    let states = choose|states: Seq<LobeView>|
        {
            &&& #[trigger] states.len() >= 1
            &&& begun(engine, v, max, recalled, states[0])
            &&& forall|i: int|
                0 <= i < states.len() - 1 ==> pumping(
                    engine,
                    num,
                    #[trigger] states[i],
                    states[i + 1],
                )
            &&& pumped(engine, num, states.last(), after, Progress::Done(text))
        };
    lemma_scratch_calls_spare(v);
    lemma_scratch_calls_spare(v.scratched());
    assert(observes_alike(v, states[0]));
    lemma_pumps_leave_observation_alone(engine, num, v, states, states.len() - 1);
    lemma_pumping_leaves_observation_alone(engine, num, states.last(), after, Progress::Done(text));
}

proof fn lemma_pumps_leave_observation_alone<B: Backend, N: Numerics>(
    engine: &B,
    num: &N,
    v: LobeView,
    states: Seq<LobeView>,
    n: int,
)
    requires
        0 <= n < states.len(),
        observes_alike(v, states[0]),
        forall|i: int|
            0 <= i < states.len() - 1 ==> pumping(engine, num, #[trigger] states[i], states[i + 1]),
    ensures
        observes_alike(v, states[n]),
    decreases n,
{
    if n > 0 {
        lemma_pumps_leave_observation_alone(engine, num, v, states, n - 1);
        assert(pumping(engine, num, states[n - 1], states[n]));
        let s = choose|s: Seq<char>| #[trigger]
            pumped(engine, num, states[n - 1], states[n], Progress::Working(s));
        lemma_pumping_leaves_observation_alone(
            engine,
            num,
            states[n - 1],
            states[n],
            Progress::Working(s),
        );
    }
}

proof fn lemma_trickle_spares(calls: Seq<KvCall>, toks: Seq<Token>, start: int)
    ensures
        cells_of(calls + trickle(toks, start), 0) == cells_of(calls, 0),
    decreases toks.len(),
{
    if toks.len() == 0 {
        assert(calls + trickle(toks, start) =~= calls);
    } else {
        let head = toks.drop_last();
        lemma_trickle_spares(calls, head, start);
        lemma_feeds_spare(
            calls + trickle(head, start),
            seq![toks.last()],
            0,
            start + toks.len() - 1,
            GEN_SEQ,
            0,
        );
        assert(calls + trickle(toks, start) =~= calls + trickle(head, start) + feeds(
            seq![toks.last()],
            0,
            start + toks.len() - 1,
            GEN_SEQ,
        ));
    }
}

/// A search pass leaves observation alone, and the scratch sequence empty.
pub proof fn lemma_search_leaves_observation_alone<
    B: Backend,
    F: Fn(Source, &str) -> Option<String>,
>(
    engine: &B,
    retrieve: F,
    v: LobeView,
    surprising: Seq<char>,
    max: nat,
    after: LobeView,
    out: RagOutcome,
)
    requires
        consulted(engine, retrieve, v, surprising, max, after, out),
    ensures
        observes_alike(v, after),
        cells_of(after.calls, GEN_SEQ) == Map::<int, Token>::empty(),
        synced(v) ==> synced(after),
{
    let ask = super::rag::search_tokens(engine, v, surprising)->0;
    let first = choose|first: Seq<Token>|
        {
            &&& #[trigger] thinks(engine, v, ask, max, after.answers, first)
            &&& match out.retrieved {
                None => after == thought_aloud(v, ask, first, after.answers).scratched(),
                Some(found) => told(
                    engine,
                    thought_aloud(v, ask, first, after.answers),
                    (ask.len() + first.len()) as int,
                    found@,
                    max,
                    after,
                    out.response,
                ),
            }
        };
    let heard = thought_aloud(v, ask, first, after.answers);
    lemma_scratch_calls_spare(v);
    lemma_feeds_spare(v.scratched().calls, ask, 0, 0, GEN_SEQ, 0);
    lemma_trickle_spares(
        v.scratched().calls + feeds(ask, 0, 0, GEN_SEQ),
        first,
        ask.len() as int,
    );
    lemma_scratch_calls_spare(heard);
    if let Some(found) = out.retrieved {
        let pos = (ask.len() + first.len()) as int;
        let bridge = engine.tokens_of(crate::prompt::search_answer(found@), false)->0;
        let second = choose|second: Seq<Token>|
            {
                &&& #[trigger] replies(engine, heard, bridge, pos, max, after.answers, second)
                &&& after == replied(heard, bridge, pos, second, after.answers).scratched()
            };
        let said = replied(heard, bridge, pos, second, after.answers);
        lemma_feeds_spare(heard.calls, bridge, 0, pos, GEN_SEQ, 0);
        lemma_trickle_spares(
            heard.calls + feeds(bridge, 0, pos, GEN_SEQ),
            second,
            (pos + bridge.len()) as int,
        );
        lemma_scratch_calls_spare(said);
    }
}

// ---------------------------------------------------------------------------------------------
// Bounds
// ---------------------------------------------------------------------------------------------

/// The pinned preamble and a full recent window leave the margin free, and there is a margin to speak
/// of: a context of one or two cells has none.
pub open spec fn window_fits(v: LobeView) -> bool {
    &&& 3 <= v.n_ctx
    &&& v.window.evict == EvictMode::Reset
    &&& v.window.preamble.len() + v.window.keep <= v.n_ctx - margin_of(
        v.icfg.max_hint as nat,
        v.n_ctx,
    )
}

/// A preamble that leaves room beside the margin is pinned with a recent window that fits.
pub proof fn lemma_priming_makes_the_window_fit(v: LobeView, tokens: Seq<Token>, primed: LobeView)
    requires
        v.wf(),
        v.window.evict == EvictMode::Reset,
        3 <= v.n_ctx,
        tokens.len() < v.n_ctx - margin_of(v.icfg.max_hint as nat, v.n_ctx),
        primed.window == v.window.primed(tokens, room_for(v, tokens.len())),
        primed.icfg == v.icfg,
        primed.n_ctx == v.n_ctx,
    ensures
        window_fits(primed),
{
}

/// Under cap and reset the position never reaches the end of the context: it stays at most one above
/// the line at which a reset is due, however long the stream.
pub proof fn lemma_observing_stays_inside_the_context(v: LobeView, tok: Token, answers: Answers)
    requires
        v.wf(),
        window_fits(v),
        v.pos <= v.n_ctx - margin_of(v.icfg.max_hint as nat, v.n_ctx) + 1,
    ensures
        ({
            let after = v.fed(tok, answers).counted(tok);
            &&& window_fits(after)
            &&& after.pos <= after.n_ctx - margin_of(
                after.icfg.max_hint as nat,
                after.n_ctx,
            ) + 1
            &&& after.pos < after.n_ctx
        }),
{
}

/// One observation, with the baseline and the report left open.
pub open spec fn observing<B: Backend, N: Numerics>(
    engine: &B,
    num: &N,
    v: LobeView,
    tok: Token,
    z_threshold: F32,
    topk: nat,
    after: LobeView,
) -> bool {
    exists|stats: Welford, stats_after: Welford, step: Step|
        #[trigger] observed(
            engine,
            num,
            v,
            tok,
            stats,
            stats_after,
            z_threshold,
            topk,
            after,
            step,
        )
}

/// What an observation does to the context: the token joins it behind a reset where one was due, and
/// the pinned preamble and the limits stay as they are.
pub proof fn lemma_observing_moves_the_stream_on<B: Backend, N: Numerics>(
    engine: &B,
    num: &N,
    v: LobeView,
    tok: Token,
    z_threshold: F32,
    topk: nat,
    after: LobeView,
)
    requires
        v.wf(),
        v.has_room(),
        synced(v),
        observing(engine, num, v, tok, z_threshold, topk, after),
    ensures
        synced(after),
        after.index == v.index + 1,
        after.window.live() == v.guarded(Seq::empty()).window.live().push(tok),
        after.window.preamble == v.window.preamble,
        after.window.keep == v.window.keep,
        after.window.evict == v.window.evict,
        after.n_ctx == v.n_ctx,
        after.icfg == v.icfg,
        after.pos == v.guarded(Seq::empty()).pos + 1,
{
    let (stats, stats_after, step) = choose|stats: Welford, stats_after: Welford, step: Step|
        #[trigger] observed(
            engine,
            num,
            v,
            tok,
            stats,
            stats_after,
            z_threshold,
            topk,
            after,
            step,
        );
    if v.logits.len() == 0 {
        let text = engine.text_of(tok, Detok::Text);
        lemma_feeding_keeps_sync(v.noted(text), tok, after.answers);
    } else {
        let (row, a) = choose|row: Vec<F32>, a: LobeView|
            #[trigger] scored(
                engine,
                num,
                v,
                row,
                tok,
                stats,
                stats_after,
                z_threshold,
                topk,
                a,
                step,
            ) && after == a.fed(tok, after.answers).counted(tok);
        lemma_scoring_is_offline(
            engine,
            num,
            v,
            row,
            tok,
            stats,
            stats_after,
            z_threshold,
            topk,
            a,
            step,
        );
        lemma_feeding_keeps_sync(a, tok, after.answers);
    }
}

/// A stream that is observed token by token from state to state.
pub open spec fn observed_run<B: Backend, N: Numerics>(
    engine: &B,
    num: &N,
    states: Seq<LobeView>,
    toks: Seq<Token>,
    z_threshold: F32,
    topk: nat,
) -> bool {
    &&& states.len() == toks.len() + 1
    &&& forall|i: int| 0 <= i < states.len() ==> (#[trigger] states[i]).wf()
    &&& forall|i: int| 0 <= i < toks.len() ==> (#[trigger] states[i]).has_room()
    &&& forall|i: int|
        0 <= i < toks.len() ==> observing(
            engine,
            num,
            #[trigger] states[i],
            toks[i],
            z_threshold,
            topk,
            states[i + 1],
        )
}

/// However long the stream, it is read in bounded space: at every moment the position lies inside the
/// context, the observation sequence holds exactly the live context, that context starts with the
/// pinned preamble and ends with the token observed last, and no token of the stream is skipped.
pub proof fn lemma_a_stream_is_read_in_bounded_space<B: Backend, N: Numerics>(
    engine: &B,
    num: &N,
    states: Seq<LobeView>,
    toks: Seq<Token>,
    z_threshold: F32,
    topk: nat,
    n: int,
)
    requires
        observed_run(engine, num, states, toks, z_threshold, topk),
        0 <= n < states.len(),
        synced(states[0]),
        window_fits(states[0]),
        states[0].pos <= states[0].n_ctx - margin_of(
            states[0].icfg.max_hint as nat,
            states[0].n_ctx,
        ) + 1,
    ensures
        ({
            let first = states[0];
            let now = states[n];
            &&& synced(now)
            &&& now.pos < first.n_ctx
            &&& now.window.preamble == first.window.preamble
            &&& now.window.live().take(first.window.preamble.len() as int) == first.window.preamble
            &&& n > 0 ==> now.window.live().last() == toks[n - 1]
            &&& now.index == first.index + n
            &&& now.n_ctx == first.n_ctx
            &&& now.icfg == first.icfg
            &&& window_fits(now)
            &&& now.pos <= now.n_ctx - margin_of(now.icfg.max_hint as nat, now.n_ctx) + 1
        }),
    decreases n,
{
    let now = states[n];
    if n > 0 {
        let before = states[n - 1];
        lemma_a_stream_is_read_in_bounded_space(
            engine,
            num,
            states,
            toks,
            z_threshold,
            topk,
            n - 1,
        );
        assert(before.wf() && before.has_room());
        assert(observing(
            engine,
            num,
            states[n - 1],
            toks[n - 1],
            z_threshold,
            topk,
            states[n - 1 + 1],
        ));
        lemma_observing_moves_the_stream_on(
            engine,
            num,
            before,
            toks[n - 1],
            z_threshold,
            topk,
            now,
        );
    }
    assert(now.window.live().take(now.window.preamble.len() as int) =~= now.window.preamble);
}

/// In how many steps `left` tokens of an ask are fed, `chunk` at a time.
pub open spec fn rounds(left: int, chunk: int) -> int
    decreases left,
{
    if left <= 0 || chunk <= 0 {
        0
    } else if left <= chunk {
        1
    } else {
        1 + rounds(left - chunk, chunk)
    }
}

proof fn lemma_rounds(left: int, chunk: int)
    requires
        chunk >= 1,
        left >= 0,
    ensures
        0 <= rounds(left, chunk) <= left / chunk + 1,
    decreases left,
{
    if left > chunk {
        lemma_rounds(left - chunk, chunk);
        vstd::arithmetic::div_mod::lemma_div_minus_one(left, chunk);
    } else if left > 0 {
        vstd::arithmetic::div_mod::lemma_div_pos_is_pos(left, chunk);
    } else {
        assert(0int / chunk == 0) by (nonlinear_arith)
            requires
                chunk >= 1,
        ;
    }
}

/// How many more steps an aside takes at most.
pub open spec fn steps_left(v: LobeView) -> int {
    match v.gen.fused {
        None => 0,
        Some(FusedView::Prefill { ask, next, pos, max }) => rounds(
            ask.len() - next,
            v.icfg.prefill_chunk as int,
        ) + max + INTERJECT_SENTENCE_SLACK,
        Some(FusedView::Reply { pending, pos, produced, max, out }) => max
            + INTERJECT_SENTENCE_SLACK - produced,
    }
}

/// The position behind the last token that an aside can still feed.
pub open spec fn aside_end(v: LobeView) -> int {
    match v.gen.fused {
        None => 0,
        Some(FusedView::Prefill { ask, next, pos, max }) => pos + (ask.len() - next) + max
            + INTERJECT_SENTENCE_SLACK,
        Some(FusedView::Reply { pending, pos, produced, max, out }) => pos + max
            + INTERJECT_SENTENCE_SLACK - produced,
    }
}

/// The most cells that the stream and an aside forked at `fork` can come to hold before the aside is
/// over.
pub open spec fn reach(v: LobeView, fork: int) -> int {
    v.pos + steps_left(v) + (aside_end(v) - fork)
}

/// An aside that starts without crowding fits: the stream and it together never come to hold more
/// cells than the context has.
pub proof fn lemma_started_aside_fits<B: Backend>(
    engine: &B,
    v: LobeView,
    max: nat,
    recalled: Option<Seq<char>>,
    after: LobeView,
)
    requires
        v.wf(),
        v.icfg.mode == InterjectMode::Context,
        started(engine, v, max, recalled, after),
        engine.tokens_of(v.ask_text(recalled), false) matches Some(ask) ==> !v.crowded(
            ask.len(),
            max,
        ),
    ensures
        reach(after, v.pos) <= v.n_ctx,
        after.pos == v.pos,
{
    let ask = engine.tokens_of(v.ask_text(recalled), false)->0;
    lemma_rounds(ask.len() as int, v.icfg.prefill_chunk as int);
}

/// While an aside is in flight each step uses up at least one of its steps, and what it can come to
/// hold together with the stream never grows: an aside that fits at its start fits to its end.
pub proof fn lemma_flight_never_outgrows<B: Backend, N: Numerics>(
    engine: &B,
    num: &N,
    v: LobeView,
    tok: Token,
    after: LobeView,
    status: Progress,
    fork: int,
)
    requires
        v.wf(),
        v.gen.fused is Some,
        forwarded(engine, num, v, tok, after, status),
    ensures
        steps_left(v) >= 1,
        after.gen.fused is Some ==> {
            &&& steps_left(after) <= steps_left(v) - 1
            &&& reach(after, fork) <= reach(v, fork)
        },
        after.gen.fused is None ==> status is Done,
{
    match v.gen.fused {
        Some(FusedView::Prefill { ask, next, pos, max }) => {
            let chunk = v.icfg.prefill_chunk as int;
            lemma_rounds(ask.len() - next, chunk);
            if ask.len() - next > chunk {
                lemma_rounds(ask.len() - next - chunk, chunk);
            }
        },
        _ => {},
    }
}

/// Where the aside in flight goes on.
pub open spec fn aside_pos(v: LobeView) -> int {
    match v.gen.fused {
        None => 0,
        Some(FusedView::Prefill { ask, next, pos, max }) => pos,
        Some(FusedView::Reply { pending, pos, produced, max, out }) => pos,
    }
}

/// The stream and the aside in flight, which was forked at `fork`, stay within the context to the
/// aside's end; without an aside the stream does.
pub open spec fn contained(v: LobeView, fork: int) -> bool {
    if v.gen.fused is None {
        v.pos <= v.n_ctx
    } else {
        &&& fork <= aside_pos(v)
        &&& reach(v, fork) <= v.n_ctx
    }
}

/// Was an aside that starts in this state left enough room?
pub open spec fn left_room(v: LobeView) -> bool {
    v.gen.fused matches Some(FusedView::Prefill { ask, next, pos, max }) ==> !v.crowded(
        ask.len(),
        max,
    )
}

/// However long the stream and however often asides form alongside it, the two together never come to
/// hold more cells than the context has: a step keeps them contained, as long as an aside that it
/// starts has room after the reset that makes room for it.
pub proof fn lemma_stepping_never_outgrows<
    B: Backend,
    N: Numerics,
    R: Fn(&str) -> Option<String>,
>(
    engine: &B,
    num: &N,
    retrieve: R,
    v: LobeView,
    tok: Token,
    stats: Welford,
    stats_after: Welford,
    z_threshold: F32,
    topk: nat,
    max: usize,
    after: LobeView,
    out: StepOutcome,
    fork: int,
)
    requires
        v.wf(),
        v.has_room(),
        v.icfg.max_hint == max,
        window_fits(v),
        contained(v, fork),
        stepped(
            engine,
            num,
            retrieve,
            v,
            tok,
            stats,
            stats_after,
            z_threshold,
            topk,
            max,
            after,
            out,
        ),
        out.interjection@ == Progress::Started ==> left_room(after),
    ensures
        contained(
            after,
            if out.interjection@ == Progress::Started {
                aside_pos(after)
            } else {
                fork
            },
        ),
        after.pos <= after.n_ctx,
        window_fits(after),
        after.icfg.max_hint == max,
{
    let (g, row, a, f, status) = lemma_step_unpacked(
        engine,
        num,
        retrieve,
        v,
        tok,
        stats,
        stats_after,
        z_threshold,
        topk,
        max,
        after,
        out,
    );
    lemma_readied_fits(v, max, g);
    lemma_scoring_is_offline(
        engine,
        num,
        g,
        row,
        tok,
        stats,
        stats_after,
        z_threshold,
        topk,
        a,
        out.step,
    );
    lemma_forwarding_keeps_shape(engine, num, a, tok, f, status);
    if a.gen.fused is Some {
        lemma_flight_never_outgrows(engine, num, a, tok, f, status, fork);
    }
    if out.step.fired && a.gen.fused is None {
        let recalled = choose|recalled: Option<Seq<char>>|
            #[trigger] recalls(retrieve, out.step.token_text@, recalled) && started(
                engine,
                f,
                max as nat,
                recalled,
                LobeView { index: f.index, ..after },
            ) && after.index == f.index + 1;
        lemma_started_stays_contained(
            engine,
            f,
            max as nat,
            recalled,
            LobeView { index: f.index, ..after },
        );
    }
}

proof fn lemma_readied_fits(v: LobeView, max: usize, g: LobeView)
    requires
        v.wf(),
        v.has_room(),
        v.icfg.max_hint == max,
        window_fits(v),
        readied(v, max, g),
    ensures
        g.wf(),
        window_fits(g),
        g.icfg == v.icfg,
        g.n_ctx == v.n_ctx,
        g.gen == v.gen,
        g.pos < i32::MAX,
        g.window.live().len() < i32::MAX,
        v.gen.fused is Some ==> g.pos == v.pos,
        v.gen.fused is None ==> g.pos <= g.n_ctx - margin_of(max as nat, g.n_ctx),
{
    assert(LobeView {
        icfg: super::interject::InterjectConfig { max_hint: max, ..v.icfg },
        ..v
    } == v);
    if v.due() && v.gen.fused is None {
        lemma_reset_replays_the_window(v.window);
        assert(v.window.replay().len() <= v.window.live().len());
    }
}

proof fn lemma_started_stays_contained<B: Backend>(
    engine: &B,
    v: LobeView,
    max: nat,
    recalled: Option<Seq<char>>,
    after: LobeView,
)
    requires
        v.wf(),
        window_fits(v),
        started(engine, v, max, recalled, after),
        left_room(after),
    ensures
        contained(after, aside_pos(after)),
        after.pos <= after.n_ctx,
        window_fits(after),
        after.icfg == v.icfg,
{
    match after.gen.fused {
        Some(FusedView::Prefill { ask, next, pos, max: m }) => {
            lemma_rounds(ask.len() as int, after.icfg.prefill_chunk as int);
            assert(ask.len() / (after.icfg.prefill_chunk as nat) == ask.len() as int
                / after.icfg.prefill_chunk as int);
        },
        _ => {},
    }
}

/// An aside that is pumped out alone ends: each pump that does not finish it uses up one of a bounded
/// number.
pub proof fn lemma_pumping_ends<B: Backend, N: Numerics>(
    engine: &B,
    num: &N,
    v: LobeView,
    after: LobeView,
)
    requires
        pumping(engine, num, v, after),
    ensures
        1 <= pumps_left(after.gen.fsm) < pumps_left(v.gen.fsm),
        after.gen.fsm is Some,
{
    let s = choose|s: Seq<char>| #[trigger] pumped(engine, num, v, after, Progress::Working(s));
}

/// A whole reply is bounded: however the model goes on, an aside that is pumped out alone is over after
/// the length asked for, the slack and two pumps, and it has spoken a token for each pump but the first
/// and the last.
pub proof fn lemma_a_whole_reply_is_bounded<B: Backend, N: Numerics>(
    engine: &B,
    num: &N,
    v: LobeView,
    max: nat,
    recalled: Option<Seq<char>>,
    states: Seq<LobeView>,
)
    requires
        states.len() >= 1,
        begun(engine, v, max, recalled, states[0]),
        forall|i: int|
            0 <= i < states.len() - 1 ==> pumping(engine, num, #[trigger] states[i], states[i + 1]),
    ensures
        states.len() <= max + INTERJECT_SENTENCE_SLACK + 2,
        forall|i: int|
            1 <= i < states.len() ==> ((#[trigger] states[i]).gen.fsm matches Some(
                FsmView::Gen { produced, .. },
            ) && produced == i - 1),
{
    lemma_pumps_count(engine, num, v, max, recalled, states, states.len() - 1);
    assert forall|i: int| 1 <= i < states.len() implies ((#[trigger] states[i]).gen.fsm matches Some(
        FsmView::Gen { produced, .. },
    ) && produced == i - 1) by {
        lemma_pumps_count(engine, num, v, max, recalled, states, i);
    }
}

proof fn lemma_pumps_count<B: Backend, N: Numerics>(
    engine: &B,
    num: &N,
    v: LobeView,
    max: nat,
    recalled: Option<Seq<char>>,
    states: Seq<LobeView>,
    n: int,
)
    requires
        0 <= n < states.len(),
        begun(engine, v, max, recalled, states[0]),
        forall|i: int|
            0 <= i < states.len() - 1 ==> pumping(engine, num, #[trigger] states[i], states[i + 1]),
    ensures
        1 <= pumps_left(states[n].gen.fsm) <= max + INTERJECT_SENTENCE_SLACK + 2 - n,
        n >= 1 ==> (states[n].gen.fsm matches Some(FsmView::Gen { produced, .. }) && produced == n
            - 1),
        n == 0 ==> (states[n].gen.fsm matches Some(FsmView::Prefill { .. })),
    decreases n,
{
    if n > 0 {
        lemma_pumps_count(engine, num, v, max, recalled, states, n - 1);
        assert(pumping(engine, num, states[n - 1], states[n - 1 + 1]));
        lemma_pumping_ends(engine, num, states[n - 1], states[n]);
        let s = choose|s: Seq<char>| #[trigger]
            pumped(engine, num, states[n - 1], states[n], Progress::Working(s));
    }
}

// ---------------------------------------------------------------------------------------------
// The random streams
// ---------------------------------------------------------------------------------------------

/// The sampler's stream never gets stuck: sampling keeps it off the fixed point of its generator.
pub proof fn lemma_sampling_keeps_the_stream_alive<N: Numerics>(
    num: &N,
    v: LobeView,
    row: Seq<F32>,
    rng: u64,
    tok: Token,
)
    requires
        v.gen.rng != 0,
        chosen(num, v, row, rng, tok),
    ensures
        rng != 0,
{
    lemma_stirred_is_not_zero(v.gen.rng);
}

} // verus!
