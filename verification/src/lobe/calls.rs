//! Laws of the operations themselves: what goes into a call and what comes out of it.

use super::firing::Firing;
use super::interject::{not_staged, text_in, FsmView, FusedView, InterjectStep, Progress};
use super::keeping::{
    lemma_how_an_aside_begins, lemma_how_an_aside_starts, lemma_what_a_pump_feeds,
    lemma_what_a_scored_step_says, lemma_where_calls_broke_off, lemma_why_an_ask_is_not_staged,
    measures, went_well,
};
use super::laws::{lemma_step_unpacked, lemma_what_a_step_says};
use super::model::{
    broke, feeds, forwarded, halts, lemma_cut_short_broke, lemma_feeds_succeed, readied, scored, LobeView,
};
use super::novelty::InterjectionMemory;
use super::observe::{advanced, engine_failed, observed, reached, recalls};
use super::promises::{
    context_words, fresh_words, heard, lemma_observed_is_heard, lemma_stepped_is_heard,
    lemma_the_ask_quotes_the_span, lemma_the_snippet_ask_carries_the_recent_text, lemma_what_fires,
    lemma_where_the_rest_weighs_nothing_the_greatest_is_drawn,
    lemma_without_a_temperature_the_greatest_is_taken, names_something, recall_words, said_words,
};
use super::rag::{directive_in, directive_view, spoken, thought_in, RagOutcome, Source};
use super::replies::{lemma_an_aside_is_pumped_out, lemma_how_a_reply_ends};
use super::sampling::{aligned, drawn, sample_topp, sampled, sentence_end};
use super::types::{EvictMode, LobeError, Step, StepOutcome};
use super::window::StreamWindow;
use super::Lobe;
use crate::backend::{Backend, Detok, KvCall, Token};
use crate::number::F32;
use crate::numerics::Numerics;
use crate::prompt::{search_answer, search_ask};
use crate::stats::Welford;
use crate::text::{texts, trimmed};
use vstd::prelude::*;

verus! {

// ---------------------------------------------------------------------------------------------
// Sampling
// ---------------------------------------------------------------------------------------------

/// The temperature that sampling is called with is the one that weighs: where at that temperature the
/// arithmetic leaves no weight to any logit below the greatest, the greatest is drawn. At zero or below
/// the greatest is taken without drawing. What comes out lies in the row.
pub proof fn lemma_sampling_weighs_by_the_temperature<N: Numerics>(
    logits: &Vec<F32>,
    temp: F32,
    top_p: F32,
    rng: &mut u64,
    num: &N,
    t: Token,
)
    requires
        logits@.len() > 0,
        call_ensures(sample_topp::<N>, (logits, temp, top_p, rng, num), t),
    ensures
        0 <= t.0 < logits@.len(),
        temp.at_most(F32(0)) ==> *final(rng) == *old(rng),
        temp.at_most(F32(0)) && (exists|j: int|
            0 <= j < logits@.len() && F32(0xff80_0000).below(#[trigger] logits@[j])) ==> forall|j: int|
            0 <= j < logits@.len() ==> !logits@[t.0 as int].below(#[trigger] logits@[j]),
        !temp.at_most(F32(0)) ==> exists|u: F32| #[trigger] drawn(*old(rng), *final(rng), u),
        !temp.at_most(F32(0)) && (forall|i: int, k: int, w: F32|
            0 <= i < logits@.len() && 0 <= k < logits@.len() && logits@[i].total_rank()
                < logits@[k].total_rank() && #[trigger] call_ensures(
                N::weight,
                (num, logits@[i], logits@[k], temp),
                w,
            ) ==> w == F32(0)) && (forall|x: F32, y: F32| #[trigger]
            call_ensures(N::plus, (num, x, F32(0)), y) ==> y == x) && (forall|
            u: F32,
            x: F32,
            y: F32,
        |
            u.0 < 0x3f80_0000 && #[trigger] call_ensures(N::times, (num, u, x), y) ==> y.at_most(x))
            ==> forall|k: int|
            0 <= k < logits@.len() ==> (#[trigger] logits@[k]).total_rank()
                <= logits@[t.0 as int].total_rank(),
{
    let row = logits@;
    let before = *old(rng);
    let after = *final(rng);
    assert(sampled(num, row, temp, top_p, before, after, t));
    assert(row.len() == logits.len());
    if temp.at_most(F32(0)) {
        if exists|j: int| 0 <= j < row.len() && F32(0xff80_0000).below(#[trigger] row[j]) {
            lemma_without_a_temperature_the_greatest_is_taken(
                num,
                row,
                temp,
                top_p,
                before,
                after,
                t,
            );
        }
    } else {
        let d = super::promises::lemma_how_a_token_is_drawn(num, row, temp, top_p, before, after, t);
        assert(drawn(before, after, d.unit));
        if (forall|i: int, k: int, w: F32|
            0 <= i < row.len() && 0 <= k < row.len() && row[i].total_rank() < row[k].total_rank()
                && #[trigger] call_ensures(N::weight, (num, row[i], row[k], temp), w) ==> w == F32(
                0,
            )) && (forall|x: F32, y: F32| #[trigger]
            call_ensures(N::plus, (num, x, F32(0)), y) ==> y == x) && (forall|
            u: F32,
            x: F32,
            y: F32,
        |
            u.0 < 0x3f80_0000 && #[trigger] call_ensures(N::times, (num, u, x), y) ==> y.at_most(x)) {
            lemma_where_the_rest_weighs_nothing_the_greatest_is_drawn(
                num,
                row,
                temp,
                top_p,
                before,
                after,
                t,
            );
        }
    }
}

// ---------------------------------------------------------------------------------------------
// Observing
// ---------------------------------------------------------------------------------------------

/// What is said of a token that was scored, from the observer and the baseline as they were before:
/// which token it is, what the arithmetic gives for it by the distribution that was at hand, how far that
/// lies from the baseline as it was, that the baseline took it in, and when it fired.
pub open spec fn told_of<B: Backend, N: Numerics>(
    engine: &B,
    num: &N,
    v: LobeView,
    row: Vec<F32>,
    tok: Token,
    stats: Welford,
    stats_after: Welford,
    z_threshold: F32,
    step: Step,
) -> bool {
    let text = engine.text_of(tok, Detok::Text);
    let open = stats_after.count > stats_after.warmup && v.window.settle == 0 && v.firing.refractory
        == 0 && (v.firing.identifiers_only ==> names_something(text));
    let hard = v.firing.softness.0 == 0 || 0x8000_0000 <= v.firing.softness.0 <= 0xff80_0000;
    &&& row@ == v.logits
    &&& step.stream_index == v.index
    &&& step.token_text@ == text
    &&& call_ensures(N::surprisal, (num, &row, tok), step.surprisal)
    &&& call_ensures(N::entropy, (num, &row), step.entropy)
    &&& v.firing.signal is Surprisal ==> measures(num, stats, stats_after, step.surprisal, step.z)
    &&& v.firing.signal is Entropy ==> measures(num, stats, stats_after, step.entropy, step.z)
    &&& stats_after.count == stats.count + 1
    &&& stats_after.warmup == stats.warmup
    &&& step.fired ==> open
    &&& hard ==> (step.fired <==> open && z_threshold.at_most(step.z))
    &&& step.fired <==> step.trigger is Some
}

proof fn lemma_scored_is_told<B: Backend, N: Numerics>(
    engine: &B,
    num: &N,
    v: LobeView,
    row: Vec<F32>,
    tok: Token,
    stats: Welford,
    stats_after: Welford,
    z_threshold: F32,
    topk: nat,
    after: LobeView,
    step: Step,
)
    requires
        stats.count < u64::MAX,
        scored(engine, num, v, row, tok, stats, stats_after, z_threshold, topk, after, step),
    ensures
        told_of(engine, num, v, row, tok, stats, stats_after, z_threshold, step),
{
    lemma_what_fires(
        engine,
        num,
        v,
        row,
        tok,
        stats,
        stats_after,
        z_threshold,
        topk,
        after,
        step,
    );
    lemma_what_a_scored_step_says(
        engine,
        num,
        v,
        row,
        tok,
        stats,
        stats_after,
        z_threshold,
        topk,
        after,
        step,
    );
}

/// Observing: the first token of an empty context is fed with nothing said of it; any other is scored by
/// the distribution at hand, against the baseline as it was and under the threshold of the call. Its text
/// is heard in any case, and becomes part of the span where it fires. The aside in flight is not touched.
pub proof fn lemma_what_observing_does<'a, B: Backend, N: Numerics>(
    lobe: &mut Lobe<'a, B>,
    tok: Token,
    stats: &mut Welford,
    z_threshold: F32,
    topk: usize,
    num: &N,
    r: Result<Step, LobeError>,
)
    requires
        old(lobe)@.wf(),
        old(stats).count < u64::MAX,
        call_ensures(
            Lobe::<'a, B>::observe::<N>,
            (lobe, tok, stats, z_threshold, topk, num),
            r,
        ),
    ensures
        r matches Ok(step) ==> {
            let engine = old(lobe).engine;
            let v = old(lobe)@;
            let w = final(lobe)@;
            &&& heard(v.memory, engine.text_of(tok, Detok::Text), step.fired, w.memory)
            &&& w.memory.asides == v.memory.asides
            &&& w.index == v.index + 1
            &&& w.gen == v.gen
            &&& w.icfg == v.icfg
            &&& w.logits == w.answers.last()[0]
            &&& v.logits.len() == 0 ==> {
                &&& !step.fired && step.trigger is None
                &&& step.surprisal == F32(0) && step.entropy == F32(0) && step.z == F32(0)
                &&& *final(stats) == *old(stats)
            }
            &&& v.logits.len() > 0 ==> told_of(
                engine,
                num,
                v,
                old(lobe).last_logits,
                tok,
                *old(stats),
                *final(stats),
                z_threshold,
                step,
            )
        },
{
    if r is Ok {
        let step = r->Ok_0;
        let engine = old(lobe).engine;
        let v = old(lobe)@;
        let w = final(lobe)@;
        if v.logits.len() > 0 {
            let a = choose|a: LobeView|
                #[trigger] scored(
                    engine,
                    num,
                    v,
                    old(lobe).last_logits,
                    tok,
                    *old(stats),
                    *final(stats),
                    z_threshold,
                    topk as nat,
                    a,
                    step,
                ) && w == a.fed(tok, w.answers).counted(tok);
            lemma_scored_is_told(
                engine,
                num,
                v,
                old(lobe).last_logits,
                tok,
                *old(stats),
                *final(stats),
                z_threshold,
                topk as nat,
                a,
                step,
            );
        }
        assert(observed(
            engine,
            num,
            v,
            tok,
            *old(stats),
            *final(stats),
            z_threshold,
            topk as nat,
            w,
            step,
        ));
        lemma_observed_is_heard(
            engine,
            num,
            v,
            tok,
            *old(stats),
            *final(stats),
            z_threshold,
            topk as nat,
            w,
            step,
        );
    }
}

/// A step: the token is heard and told of as in observing. An aside starts exactly where the token fires
/// and none is in flight, and then in the context mode its ask quotes the span that the fire took; one in
/// flight moves on or ends; else nothing happens to asides. Without a distribution at hand the token is
/// only fed.
pub proof fn lemma_what_a_step_does<'a, B: Backend, N: Numerics, R: Fn(&str) -> Option<String>>(
    lobe: &mut Lobe<'a, B>,
    tok: Token,
    stats: &mut Welford,
    z_threshold: F32,
    topk: usize,
    max: usize,
    retrieve: &R,
    num: &N,
    r: Result<StepOutcome, LobeError>,
)
    requires
        old(lobe)@.wf(),
        old(stats).count < u64::MAX,
        call_ensures(
            Lobe::<'a, B>::step::<N, R>,
            (lobe, tok, stats, z_threshold, topk, max, retrieve, num),
            r,
        ),
    ensures
        r matches Ok(out) ==> {
            let engine = old(lobe).engine;
            let v = old(lobe)@;
            let w = final(lobe)@;
            let step = out.step;
            &&& heard(v.memory, engine.text_of(tok, Detok::Text), step.fired, w.memory)
            &&& w.memory.asides == v.memory.asides
            &&& v.logits.len() == 0 ==> {
                &&& !step.fired && step.trigger is None
                &&& out.interjection@ == Progress::Idle
                &&& *final(stats) == *old(stats)
            }
            &&& v.logits.len() > 0 ==> {
                &&& out.interjection@ is Started <==> step.fired && v.gen.fused is None
                &&& out.interjection@ is Idle <==> !step.fired && v.gen.fused is None
                &&& w.icfg.max_hint == max
                &&& v.gen.fused is Some ==> w.pos == v.pos + 1
                &&& exists|g: LobeView, row: Vec<F32>|
                    g.firing == v.firing && g.gen == v.gen && g.index == v.index && #[trigger] told_of(
                        engine,
                        num,
                        g,
                        row,
                        tok,
                        *old(stats),
                        *final(stats),
                        z_threshold,
                        step,
                    )
            }
            &&& step.fired ==> final(stats).count > final(stats).warmup
            &&& step.fired && v.gen.fused is None && v.icfg.mode is Context ==> exists|
                query: &str,
                found: Option<String>,
            |
                {
                    let recalled = match found {
                        Some(s) => Some(s@),
                        None => None,
                    };
                    let words = context_words(
                        trimmed(aligned(w.memory.span)),
                        recall_words(recalled) + said_words(v.icfg.novelty_mode, v.memory.asides),
                        fresh_words(v.icfg.novelty_mode),
                        v.icfg.ask_mode,
                    );
                    &&& query@ == engine.text_of(tok, Detok::Text)
                    &&& #[trigger] retrieve.ensures((query,), found)
                    &&& w.gen.fused matches Some(FusedView::Prefill { ask, .. })
                    &&& engine.tokens_of(words, false) == Some(ask)
                }
        },
{
    if r is Ok {
        let out = r->Ok_0;
        let engine = old(lobe).engine;
        let v = old(lobe)@;
        let w = final(lobe)@;
        assert(advanced(
            engine,
            num,
            *retrieve,
            v,
            tok,
            *old(stats),
            *final(stats),
            z_threshold,
            topk as nat,
            max,
            w,
            out,
        ));
        lemma_stepped_is_heard(
            engine,
            num,
            *retrieve,
            v,
            tok,
            *old(stats),
            *final(stats),
            z_threshold,
            topk as nat,
            max,
            w,
            out,
        );
        if v.logits.len() > 0 {
            lemma_what_a_step_says(
                engine,
                num,
                *retrieve,
                v,
                tok,
                *old(stats),
                *final(stats),
                z_threshold,
                topk as nat,
                max,
                w,
                out,
            );
            let (g, row, a, f, status) = lemma_step_unpacked(
                engine,
                num,
                *retrieve,
                v,
                tok,
                *old(stats),
                *final(stats),
                z_threshold,
                topk as nat,
                max,
                w,
                out,
            );
            lemma_scored_is_told(
                engine,
                num,
                g,
                row,
                tok,
                *old(stats),
                *final(stats),
                z_threshold,
                topk as nat,
                a,
                out.step,
            );
            assert(g.firing == v.firing && g.gen == v.gen && g.index == v.index);
        }
        if out.step.fired && v.gen.fused is None && v.icfg.mode is Context {
            let recalled = choose|recalled: Option<Seq<char>>|
                {
                    let words = context_words(
                        trimmed(aligned(w.memory.span)),
                        recall_words(recalled) + said_words(v.icfg.novelty_mode, v.memory.asides),
                        fresh_words(v.icfg.novelty_mode),
                        v.icfg.ask_mode,
                    );
                    &&& #[trigger] recalls(
                        *retrieve,
                        engine.text_of(tok, Detok::Text),
                        recalled,
                    )
                    &&& w.gen.fused matches Some(FusedView::Prefill { ask, .. })
                    &&& engine.tokens_of(words, false) == Some(ask)
                };
            let (query, found) = choose|query: &str, found: Option<String>|
                query@ == engine.text_of(tok, Detok::Text) && #[trigger] retrieve.ensures(
                    (query,),
                    found,
                ) && recalled == match found {
                    Some(s) => Some(s@),
                    None => None,
                };
            assert(retrieve.ensures((query,), found));
        }
    }
}

// ---------------------------------------------------------------------------------------------
// Asides
// ---------------------------------------------------------------------------------------------

/// Beginning an aside, alone or alongside the stream: in the context mode its ask quotes the span that the
/// last fire took and shows what was recalled; in the snippet mode it carries the latest texts.
pub proof fn lemma_what_an_aside_asks<'a, B: Backend>(
    lobe: &mut Lobe<'a, B>,
    surprising: &str,
    max: usize,
    recalled: Option<&str>,
    r: Result<(), LobeError>,
)
    requires
        call_ensures(
            Lobe::<'a, B>::interject_begin,
            (lobe, surprising, max, recalled),
            r,
        ),
        r is Ok,
    ensures
        ({
            let engine = old(lobe).engine;
            let v = old(lobe)@;
            let w = final(lobe)@;
            let found = match recalled {
                Some(s) => Some(s@),
                None => None,
            };
            &&& w.gen.fsm matches Some(FsmView::Prefill { toks, start, max: m }) && {
                &&& m == max
                &&& v.icfg.mode is Context ==> start == v.pos && engine.tokens_of(
                    context_words(
                        trimmed(aligned(v.memory.span)),
                        recall_words(found) + said_words(v.icfg.novelty_mode, v.memory.asides),
                        fresh_words(v.icfg.novelty_mode),
                        v.icfg.ask_mode,
                    ),
                    false,
                ) == Some(toks)
                &&& v.icfg.mode is Snippet ==> start == 0 && engine.tokens_of(
                    "<|turn>user\n"@ + "Here is the passage the text has just reached:\n\n"@
                        + trimmed(aligned(v.recent.flatten()))
                        + "\n\nGive your brief aside on it — what's happening, what it's doing, what it means."@
                        + "<turn|>\n"@ + "<|turn>model\n"@,
                    true,
                ) == Some(toks)
            }
            &&& w.memory == v.memory
            &&& w.window == v.window
            &&& w.pos == v.pos
            &&& w.logits == v.logits
        }),
{
    let engine = old(lobe).engine;
    let v = old(lobe)@;
    let w = final(lobe)@;
    lemma_how_an_aside_begins(engine, v, max as nat, text_in(recalled), w);
    if v.icfg.mode is Context {
        lemma_the_ask_quotes_the_span(engine, v, max as nat, text_in(recalled), w);
    } else {
        lemma_the_snippet_ask_carries_the_recent_text(engine, v, max as nat, text_in(recalled), w);
    }
}

/// A reply of these tokens, before `next`: its text is what they say. There are at most 64 more than were
/// asked for, none of them a turn mark, and no sentence ended past the length asked for before the last.
/// It stops at a turn mark, with that slack used up, or past the length asked for at the end of a
/// sentence.
pub open spec fn is_reply<B: Backend>(
    engine: &B,
    v: LobeView,
    max: nat,
    text: Seq<char>,
    toks: Seq<Token>,
    next: Token,
) -> bool {
    &&& text == toks.map_values(|t: Token| engine.text_of(t, Detok::Plain)).flatten()
    &&& toks.len() <= max + 64
    &&& forall|i: int|
        0 <= i < toks.len() ==> !engine.ends_generation(#[trigger] toks[i]) && Some(toks[i]) != v.eot
            && Some(toks[i]) != v.sot
    &&& forall|i: int|
        max <= i < toks.len() ==> !sentence_end(
            #[trigger] spoken(engine, toks.take(i), Detok::Plain),
        )
    &&& {
        ||| engine.ends_generation(next) || Some(next) == v.eot || Some(next) == v.sot
        ||| toks.len() == max + 64
        ||| toks.len() >= max && sentence_end(text)
    }
}

/// A whole aside says such a reply. What is observed is not touched, and no aside is in flight afterwards.
pub proof fn lemma_what_a_whole_aside_says<'a, B: Backend, N: Numerics>(
    lobe: &mut Lobe<'a, B>,
    surprising: &str,
    max: usize,
    recalled: Option<&str>,
    num: &N,
    r: Result<String, LobeError>,
)
    requires
        call_ensures(
            Lobe::<'a, B>::interject::<N>,
            (lobe, surprising, max, recalled, num),
            r,
        ),
        r is Ok,
    ensures
        exists|toks: Seq<Token>, next: Token|
            #[trigger] is_reply(
                old(lobe).engine,
                old(lobe)@,
                max as nat,
                r->Ok_0@,
                toks,
                next,
            ),
        final(lobe)@.gen.fsm is None,
        final(lobe)@.pos == old(lobe)@.pos,
        final(lobe)@.logits == old(lobe)@.logits,
        final(lobe)@.window == old(lobe)@.window,
        final(lobe)@.memory == old(lobe)@.memory,
        final(lobe)@.firing == old(lobe)@.firing,
        final(lobe)@.index == old(lobe)@.index,
{
    let engine = old(lobe).engine;
    let v = old(lobe)@;
    let w = final(lobe)@;
    let text = r->Ok_0@;
    let run = lemma_an_aside_is_pumped_out(
        engine,
        num,
        v,
        max as nat,
        text_in(recalled),
        w,
        text,
    );
    let reply = lemma_how_a_reply_ends(
        engine,
        num,
        v,
        max as nat,
        text_in(recalled),
        run.0,
        run.1,
        w,
        text,
    );
    let toks = reply.0;
    super::promises::lemma_concat_flattens(
        toks.map_values(|t: Token| engine.text_of(t, Detok::Plain)),
    );
    assert forall|i: int| 0 <= i < toks.len() implies !engine.ends_generation(#[trigger] toks[i])
        && Some(toks[i]) != v.eot && Some(toks[i]) != v.sot by {
        assert(!super::model::turns(engine, v, toks[i]));
    }
    assert(is_reply(engine, v, max as nat, text, toks, reply.1));
}

// ---------------------------------------------------------------------------------------------
// Parts
// ---------------------------------------------------------------------------------------------

/// Deciding: a token fires only where no reset is fresh, the baseline is warm, the cooldown is over, and
/// where only names may fire it is one; under a hard threshold it then fires exactly where its score
/// reaches it. A fire starts the cooldown, any other token lets it run down by one. It says besides
/// whether the cooldown was on and whether the text may fire at all.
pub proof fn lemma_what_is_decided<N: Numerics>(
    firing: &mut Firing,
    text: &str,
    z: F32,
    z_threshold: F32,
    warm: bool,
    suppressed: bool,
    num: &N,
    r: (bool, bool, bool),
)
    requires
        call_ensures(
            Firing::decide::<N>,
            (firing, text, z, z_threshold, warm, suppressed, num),
            r,
        ),
    ensures
        ({
            let open = warm && !suppressed && old(firing).refractory == 0 && (old(
                firing,
            ).identifiers_only ==> names_something(text@));
            let hard = old(firing).softness.0 == 0 || 0x8000_0000 <= old(firing).softness.0
                <= 0xff80_0000;
            &&& r.0 ==> open
            &&& hard ==> (r.0 <==> open && z_threshold.at_most(z))
            &&& r.1 == (old(firing).refractory > 0)
            &&& r.2 == (old(firing).identifiers_only ==> names_something(text@))
            &&& r.0 ==> final(firing).refractory == old(firing).period
            &&& !r.0 && old(firing).refractory > 0 ==> final(firing).refractory == old(
                firing,
            ).refractory - 1
            &&& !r.0 && old(firing).refractory == 0 ==> final(firing).refractory == 0
            &&& !open || hard ==> final(firing).fire_rng == old(firing).fire_rng
            &&& final(firing).period == old(firing).period
            &&& final(firing).signal == old(firing).signal
            &&& final(firing).softness == old(firing).softness
            &&& final(firing).identifiers_only == old(firing).identifiers_only
        }),
{
    crate::text::lemma_byte_len_is_utf8_len(trimmed(text@));
}

/// The window: a token that is recorded joins the record of the live context and the end of the recent
/// window, which loses its oldest where it is full.
pub proof fn lemma_what_recording_a_token_does(w: &mut StreamWindow, tok: Token, u: ())
    requires
        call_ensures(StreamWindow::push_id, (w, tok), u),
        old(w).recent_ids@.len() <= old(w).keep_recent,
    ensures
        final(w).context_ids@ == old(w).context_ids@.push(tok),
        final(w).preamble@ == old(w).preamble@,
        old(w).recent_ids@.len() < old(w).keep_recent ==> final(w).recent_ids@ == old(
            w,
        ).recent_ids@.push(tok),
        old(w).recent_ids@.len() == old(w).keep_recent ==> final(w).recent_ids@ == old(
            w,
        ).recent_ids@.push(tok).skip(1),
        final(w).keep_recent == old(w).keep_recent,
        final(w).settle == old(w).settle,
        final(w).resets == old(w).resets,
        final(w).evict == old(w).evict,
{
    let a = old(w)@;
    let b = final(w)@;
    assert(b == a.pushed(tok));
    assert(b.context == final(w).context_ids@ && b.preamble == final(w).preamble@ && b.recent
        == final(w).recent_ids@);
}

/// A reset that is recorded makes the recent window the live context, counts, and keeps the next sixteen
/// tokens from firing; each token of the settling takes one off, and says whether there was one.
pub proof fn lemma_what_recording_a_reset_does(
    w: &mut StreamWindow,
    u: (),
    s: &mut StreamWindow,
    suppressed: bool,
)
    requires
        old(w)@.resets < u64::MAX,
        call_ensures(StreamWindow::mark_rolled, (w,), u),
        call_ensures(StreamWindow::tick_settle, (s,), suppressed),
    ensures
        final(w).context_ids@ == old(w).recent_ids@,
        final(w).recent_ids@ == old(w).recent_ids@,
        final(w).preamble@ == old(w).preamble@,
        final(w).settle == 16,
        final(w).resets == old(w).resets + 1,
        final(w).keep_recent == old(w).keep_recent,
        suppressed == (old(s).settle > 0),
        suppressed ==> final(s).settle == old(s).settle - 1,
        !suppressed ==> final(s).settle == 0,
        final(s).context_ids@ == old(s).context_ids@,
        final(s).recent_ids@ == old(s).recent_ids@,
        final(s).resets == old(s).resets,
{
    let a = old(w)@;
    let b = final(w)@;
    assert(b == a.rolled());
    assert(b.context == final(w).context_ids@ && b.preamble == final(w).preamble@ && b.recent
        == final(w).recent_ids@ && b.settle == final(w).settle && b.resets == final(w).resets
        && b.keep == final(w).keep_recent);
    let c = old(s)@;
    let d = final(s)@;
    assert(d == c.ticked());
    assert(d.context == final(s).context_ids@ && d.recent == final(s).recent_ids@ && d.settle
        == final(s).settle && d.resets == final(s).resets);
}

/// Pinning a preamble starts the stream anew, with a recent window of the length that was set or of the
/// room there is, whichever is less; where the room is less, the length that was set is handed back.
pub proof fn lemma_what_pinning_a_preamble_does(
    w: &mut StreamWindow,
    preamble: Vec<Token>,
    room: usize,
    clamped: Option<usize>,
    e: &mut StreamWindow,
    evict: EvictMode,
    keep: usize,
    u: (),
)
    requires
        call_ensures(StreamWindow::begin_prime, (w, preamble, room), clamped),
        call_ensures(StreamWindow::set_eviction, (e, evict, keep), u),
    ensures
        final(w).preamble@ == preamble@,
        final(w).n_keep == preamble@.len(),
        final(w).context_ids@.len() == 0,
        final(w).recent_ids@.len() == 0,
        old(w).keep_recent <= room ==> final(w).keep_recent == old(w).keep_recent && clamped is None,
        old(w).keep_recent > room ==> final(w).keep_recent == room && clamped == Some(
            old(w).keep_recent,
        ),
        final(e).evict == evict,
        keep > 0 ==> final(e).keep_recent == keep,
        keep == 0 ==> final(e).keep_recent == 1,
        final(e).context_ids@ == old(e).context_ids@,
{
    let b = final(w)@;
    assert(b == old(w)@.primed(preamble@, room));
    assert(b.preamble == final(w).preamble@ && b.context == final(w).context_ids@ && b.recent
        == final(w).recent_ids@ && b.keep == final(w).keep_recent);
    let d = final(e)@;
    assert(d.evict == final(e).evict && d.keep == final(e).keep_recent && d.context
        == final(e).context_ids@);
    assert(old(e)@.context == old(e).context_ids@);
}

/// The memory: a text that is heard joins those since the last fire, the latest 128 of which stay; a fire
/// makes them the span and forgets them; an aside that is recorded is kept, trimmed, among the last six.
pub proof fn lemma_what_the_memory_does(
    m: &mut InterjectionMemory,
    n: &mut InterjectionMemory,
    k: &mut InterjectionMemory,
    text: &str,
    u: (),
)
    requires
        old(m)@.since.len() <= 128,
        call_ensures(InterjectionMemory::push_span, (m, text), u),
        call_ensures(InterjectionMemory::snapshot_span, (n,), u),
        call_ensures(InterjectionMemory::record, (k, text), u),
    ensures
        ({
            let heard = texts(old(m).since_last_fire@).push(text@);
            &&& old(m).since_last_fire@.len() < 128 ==> texts(final(m).since_last_fire@) == heard
            &&& old(m).since_last_fire@.len() == 128 ==> texts(final(m).since_last_fire@)
                == heard.skip(1)
            &&& texts(final(m).recent_interjections@) == texts(old(m).recent_interjections@)
            &&& final(m).last_span@ == old(m).last_span@
        }),
        final(n).last_span@ == texts(old(n).since_last_fire@).flatten(),
        final(n).since_last_fire@.len() == 0,
        texts(final(n).recent_interjections@) == texts(old(n).recent_interjections@),
        ({
            let all = texts(old(k).recent_interjections@).push(trimmed(text@));
            let kept = texts(final(k).recent_interjections@);
            &&& trimmed(text@).len() == 0 ==> kept == texts(old(k).recent_interjections@)
            &&& trimmed(text@).len() > 0 && all.len() <= 6 ==> kept == all
            &&& trimmed(text@).len() > 0 && all.len() > 6 ==> kept == all.skip(all.len() - 6)
            &&& final(k).last_span@ == old(k).last_span@
        }),
{
    let a = old(m)@;
    let b = final(m)@;
    assert(b == a.observed(text@));
    assert(a.since.len() == old(m).since_last_fire@.len());
    assert(b.since == texts(final(m).since_last_fire@));
    assert(b.asides == texts(final(m).recent_interjections@));
    let c = old(n)@;
    let d = final(n)@;
    assert(d == c.fired());
    super::promises::lemma_concat_flattens(c.since);
    assert(d.since.len() == final(n).since_last_fire@.len());
    assert(d.asides == texts(final(n).recent_interjections@));
    let f = final(k)@;
    assert(f == old(k)@.recorded(text@));
    assert(f.asides == texts(final(k).recent_interjections@));
    super::novelty::lemma_six_asides_are_kept(old(k)@, text@);
}

/// A pump: without an aside in flight it is idle; the first feeds the ask; each further one samples a
/// token at the temperature and the nucleus of the observer, and either ends the reply there or says it.
pub proof fn lemma_what_a_pump_does<'a, B: Backend, N: Numerics>(
    lobe: &mut Lobe<'a, B>,
    num: &N,
    r: Result<InterjectStep, LobeError>,
)
    requires
        call_ensures(Lobe::<'a, B>::interject_step::<N>, (lobe, num), r),
        r is Ok,
    ensures
        ({
            let engine = old(lobe).engine;
            let v = old(lobe)@;
            let w = final(lobe)@;
            let said = r->Ok_0@;
            &&& v.gen.fsm is None ==> said == Progress::Idle
            &&& v.gen.fsm matches Some(FsmView::Prefill { .. }) ==> said == Progress::Working(
                Seq::empty(),
            )
            &&& v.gen.fsm matches Some(FsmView::Gen { pos, produced, max, out, logits }) ==> exists|
                tok: Token,
            |
                {
                    &&& #[trigger] sampled(
                        num,
                        logits,
                        v.icfg.temp,
                        v.icfg.top_p,
                        v.gen.rng,
                        w.gen.rng,
                        tok,
                    )
                    &&& halts(engine, v, tok, produced, max, out) ==> said == Progress::Done(out)
                    &&& !halts(engine, v, tok, produced, max, out) ==> said == Progress::Working(
                        out + engine.text_of(tok, Detok::Plain),
                    )
                }
            &&& w.pos == v.pos && w.logits == v.logits && w.window == v.window && w.memory == v.memory
        }),
{
    lemma_what_a_pump_feeds(old(lobe).engine, num, old(lobe)@, final(lobe)@, r->Ok_0@);
}

/// Starting an aside alongside the stream: the ask is that of its mode, to be fed from its first token on.
/// In the context mode it goes behind the live context as it is forked; in the snippet mode it stands
/// alone.
pub proof fn lemma_what_starting_an_aside_does<'a, B: Backend>(
    lobe: &mut Lobe<'a, B>,
    max: usize,
    recalled: Option<&str>,
    r: Result<(), LobeError>,
)
    requires
        call_ensures(Lobe::<'a, B>::start_fused_interjection, (lobe, max, recalled), r),
        r is Ok,
    ensures
        ({
            let engine = old(lobe).engine;
            let v = old(lobe)@;
            let w = final(lobe)@;
            let found = match recalled {
                Some(s) => Some(s@),
                None => None,
            };
            &&& w.gen.fused matches Some(FusedView::Prefill { ask, next, pos, max: m }) && {
                &&& m == max
                &&& next == 0
                &&& v.icfg.mode is Context ==> pos == w.pos && engine.tokens_of(
                    context_words(
                        trimmed(aligned(v.memory.span)),
                        recall_words(found) + said_words(v.icfg.novelty_mode, v.memory.asides),
                        fresh_words(v.icfg.novelty_mode),
                        v.icfg.ask_mode,
                    ),
                    false,
                ) == Some(ask)
                &&& v.icfg.mode is Snippet ==> pos == 0 && engine.tokens_of(
                    "<|turn>user\n"@ + "Here is the passage the text has just reached:\n\n"@
                        + trimmed(aligned(v.recent.flatten()))
                        + "\n\nGive your brief aside on it — what's happening, what it's doing, what it means."@
                        + "<turn|>\n"@ + "<|turn>model\n"@,
                    true,
                ) == Some(ask)
            }
            &&& w.memory == v.memory
            &&& w.firing == v.firing
        }),
{
    let engine = old(lobe).engine;
    let v = old(lobe)@;
    let w = final(lobe)@;
    lemma_how_an_aside_starts(engine, v, max as nat, text_in(recalled), w);
    if v.icfg.mode is Context {
        lemma_the_ask_quotes_the_span(engine, v, max as nat, text_in(recalled), w);
    } else {
        lemma_the_snippet_ask_carries_the_recent_text(engine, v, max as nat, text_in(recalled), w);
    }
}

// ---------------------------------------------------------------------------------------------
// Failures
// ---------------------------------------------------------------------------------------------

/// Calls were made, and the last of them, and only that, failed.
pub open spec fn failed_last(before: Seq<KvCall>, after: Seq<KvCall>) -> bool {
    &&& before.len() < after.len()
    &&& after.take(before.len() as int) == before
    &&& forall|i: int| before.len() <= i < after.len() - 1 ==> went_well(#[trigger] after[i])
    &&& !went_well(after.last())
}

/// The tokens of the ask that an aside would have.
pub open spec fn ask_tokens<B: Backend>(
    engine: &B,
    v: LobeView,
    recalled: Option<Seq<char>>,
) -> Option<Seq<Token>> {
    if v.icfg.mode is Context {
        engine.tokens_of(v.ask_text(recalled), false)
    } else {
        engine.tokens_of(v.snippet_text(), true)
    }
}

/// An ask could not be staged: it has no tokens, or too many to be counted with the length asked for, or
/// the engine failed, in a call or at tokenizing it.
pub open spec fn refused<B: Backend>(
    engine: &B,
    v: LobeView,
    max: nat,
    recalled: Option<Seq<char>>,
    after: LobeView,
    e: LobeError,
) -> bool {
    let toks = ask_tokens(engine, v, recalled);
    &&& e is EmptyPrompt ==> toks == Some(Seq::<Token>::empty())
    &&& e is TooLong ==> toks is Some && (if v.icfg.mode is Context {
        after.pos
    } else {
        0
    }) + toks->Some_0.len() + max + 65 > 0x7fff_ffff
    &&& e is Backend ==> toks is None || failed_last(v.calls, after.calls)
}

proof fn lemma_refused<B: Backend>(
    engine: &B,
    v: LobeView,
    max: nat,
    recalled: Option<Seq<char>>,
    after: LobeView,
    e: LobeError,
)
    requires
        not_staged(engine, v, max, recalled, after, e),
    ensures
        refused(engine, v, max, recalled, after, e),
{
    lemma_why_an_ask_is_not_staged(engine, v, max, recalled, after, e);
    if e is Backend && broke(v.calls, after.calls) {
        lemma_where_calls_broke_off(v.calls, after.calls);
    }
}

/// Observing fails only where the engine fails in a call, and a pump likewise. Beginning an aside, or a
/// whole one, fails only there or where its ask cannot be staged.
pub proof fn lemma_when_operations_fail<'a, B: Backend, N: Numerics>(
    o: &mut Lobe<'a, B>,
    tok: Token,
    stats: &mut Welford,
    z_threshold: F32,
    topk: usize,
    num: &N,
    observing: Result<Step, LobeError>,
    p: &mut Lobe<'a, B>,
    pumping: Result<InterjectStep, LobeError>,
    b: &mut Lobe<'a, B>,
    surprising: &str,
    max: usize,
    recalled: Option<&str>,
    beginning: Result<(), LobeError>,
    w: &mut Lobe<'a, B>,
    whole: Result<String, LobeError>,
    s: &mut Lobe<'a, B>,
    starting: Result<(), LobeError>,
)
    requires
        call_ensures(
            Lobe::<'a, B>::observe::<N>,
            (o, tok, stats, z_threshold, topk, num),
            observing,
        ),
        call_ensures(Lobe::<'a, B>::interject_step::<N>, (p, num), pumping),
        call_ensures(
            Lobe::<'a, B>::interject_begin,
            (b, surprising, max, recalled),
            beginning,
        ),
        call_ensures(
            Lobe::<'a, B>::interject::<N>,
            (w, surprising, max, recalled, num),
            whole,
        ),
        call_ensures(
            Lobe::<'a, B>::start_fused_interjection,
            (s, max, recalled),
            starting,
        ),
    ensures
        observing matches Err(e) ==> e is Backend && failed_last(old(o)@.calls, final(o)@.calls),
        pumping matches Err(e) ==> e is Backend && failed_last(old(p)@.calls, final(p)@.calls),
        beginning matches Err(e) ==> refused(
            old(b).engine,
            old(b)@,
            max as nat,
            text_in(recalled),
            final(b)@,
            e,
        ),
        whole matches Err(e) ==> refused(
            old(w).engine,
            old(w)@,
            max as nat,
            text_in(recalled),
            final(w)@,
            e,
        ),
        starting matches Err(e) ==> refused(
            old(s).engine,
            old(s)@,
            max as nat,
            text_in(recalled),
            final(s)@,
            e,
        ),
{
    if observing is Err {
        let v = old(o)@;
        let plan = v.fed_calls(tok);
        lemma_fed_calls_succeed(v, tok);
        lemma_cut_short_broke(v.calls, plan, final(o)@.calls);
        lemma_where_calls_broke_off(v.calls, final(o)@.calls);
    }
    if pumping is Err {
        lemma_where_calls_broke_off(old(p)@.calls, final(p)@.calls);
    }
    if let Err(e) = beginning {
        lemma_refused(old(b).engine, old(b)@, max as nat, text_in(recalled), final(b)@, e);
    }
    if let Err(e) = whole {
        lemma_refused(old(w).engine, old(w)@, max as nat, text_in(recalled), final(w)@, e);
    }
    if let Err(e) = starting {
        lemma_refused(old(s).engine, old(s)@, max as nat, text_in(recalled), final(s)@, e);
    }
}

proof fn lemma_fed_calls_succeed(v: LobeView, tok: Token)
    ensures
        forall|i: int|
            0 <= i < v.fed_calls(tok).len() ==> (#[trigger] v.fed_calls(tok)[i]).succeeded(),
{
    let plan = v.fed_calls(tok);
    lemma_feeds_succeed(v.window.replay(), 0, 0, 0);
    let rest = feeds(v.window.replay(), 0, 0, 0);
    assert forall|i: int| 0 <= i < plan.len() implies (#[trigger] plan[i]).succeeded() by {
        if v.due() && 0 < i < plan.len() - 1 {
            assert(plan[i] == rest[i - 1]);
        }
    }
}

/// A step fails only where the engine fails in a call, or where the token fired, no aside was in flight, and
/// the ask of one could not be staged.
pub proof fn lemma_when_a_step_fails<'a, B: Backend, N: Numerics, R: Fn(&str) -> Option<String>>(
    lobe: &mut Lobe<'a, B>,
    tok: Token,
    stats: &mut Welford,
    z_threshold: F32,
    topk: usize,
    max: usize,
    retrieve: &R,
    num: &N,
    r: Result<StepOutcome, LobeError>,
)
    requires
        old(stats).count < u64::MAX,
        call_ensures(
            Lobe::<'a, B>::step::<N, R>,
            (lobe, tok, stats, z_threshold, topk, max, retrieve, num),
            r,
        ),
    ensures
        r matches Err(e) ==> {
            ||| e is Backend && failed_last(old(lobe)@.calls, final(lobe)@.calls)
            ||| old(lobe)@.gen.fused is None && old(lobe)@.logits.len() > 0 && final(stats).count
                > final(stats).warmup && exists|f: LobeView, recalled: Option<Seq<char>>|
                #[trigger] refused(
                    old(lobe).engine,
                    f,
                    max as nat,
                    recalled,
                    final(lobe)@,
                    e,
                )
        },
{
    if let Err(e) = r {
        let engine = old(lobe).engine;
        let v = old(lobe)@;
        if engine_failed(e, v.calls, final(lobe)@.calls) {
            lemma_where_calls_broke_off(v.calls, final(lobe)@.calls);
        } else {
            let (step, f, status, recalled) = choose|
                step: Step,
                f: LobeView,
                status: Progress,
                recalled: Option<Seq<char>>,
            |
                {
                    &&& #[trigger] reached(
                        engine,
                        num,
                        v,
                        tok,
                        *old(stats),
                        *final(stats),
                        z_threshold,
                        topk as nat,
                        max,
                        step,
                        f,
                        status,
                    )
                    &&& v.logits.len() > 0
                    &&& step.fired
                    &&& v.gen.fused is None
                    &&& #[trigger] recalls(*retrieve, step.token_text@, recalled)
                    &&& not_staged(engine, f, max as nat, recalled, final(lobe)@, e)
                };
            lemma_refused(engine, f, max as nat, recalled, final(lobe)@, e);
            let (g, row, a) = choose|g: LobeView, row: Vec<F32>, a: LobeView|
                #![trigger readied(v, max, g), scored(engine, num, g, row, tok, *old(stats), *final(stats), z_threshold, topk as nat, a, step)]
                {
                    &&& readied(v, max, g)
                    &&& scored(
                        engine,
                        num,
                        g,
                        row,
                        tok,
                        *old(stats),
                        *final(stats),
                        z_threshold,
                        topk as nat,
                        a,
                        step,
                    )
                    &&& forwarded(engine, num, a, tok, f, status)
                };
            lemma_scored_is_told(
                engine,
                num,
                g,
                row,
                tok,
                *old(stats),
                *final(stats),
                z_threshold,
                topk as nat,
                a,
                step,
            );
            assert(refused(engine, f, max as nat, recalled, final(lobe)@, e));
        }
    }
}

/// A search pass, as a call: what it says is read off what the model wrote, it says something only where
/// something was found, and what is observed is not touched. It fails only where the engine fails, in a
/// call or at tokenizing, where what is to be fed has no tokens, or where the ask, what was found and two
/// replies come to more than can be counted.
pub proof fn lemma_what_a_search_does<'a, B: Backend, F: Fn(Source, &str) -> Option<String>>(
    lobe: &mut Lobe<'a, B>,
    surprising: &str,
    max: usize,
    retrieve: &F,
    r: Result<RagOutcome, LobeError>,
)
    requires
        call_ensures(Lobe::<'a, B>::rag::<F>, (lobe, surprising, max, retrieve), r),
    ensures
        ({
            let engine = old(lobe).engine;
            let v = old(lobe)@;
            let w = final(lobe)@;
            let ask = engine.tokens_of(
                search_ask(trimmed(aligned(v.recent.flatten())), surprising@),
                true,
            );
            &&& w.pos == v.pos && w.logits == v.logits && w.window == v.window && w.memory == v.memory
            &&& w.gen == v.gen && w.firing == v.firing && w.index == v.index
            &&& r matches Ok(o) ==> {
                &&& ask is Some
                &&& o.response is Some <==> o.retrieved is Some
                &&& o.directive is None ==> o.retrieved is None
                &&& o.retrieved matches Some(found) ==> o.directive is Some && exists|
                    q: &str,
                    s: String,
                |
                    q@ == o.directive->Some_0.query@ && s@ == found@ && #[trigger] retrieve.ensures(
                        (o.directive->Some_0.source, q),
                        Some(s),
                    )
                &&& exists|toks: Seq<Token>|
                    #![trigger spoken(engine, toks, Detok::Text)]
                    toks.len() <= max && o.thought@ == thought_in(spoken(engine, toks, Detok::Text))
                        && directive_view(o.directive) == directive_in(
                        spoken(engine, toks, Detok::Text),
                    )
            }
            &&& r matches Err(e) ==> {
                &&& e is Backend ==> failed_last(v.calls, w.calls) || ask is None || exists|
                    found: Seq<char>,
                | engine.tokens_of(#[trigger] search_answer(found), false) is None
                &&& e is EmptyPrompt ==> ask == Some(Seq::<Token>::empty()) || exists|found: Seq<char>|
                    engine.tokens_of(#[trigger] search_answer(found), false) == Some(
                        Seq::<Token>::empty(),
                    )
                &&& e is TooLong ==> ask is Some && (ask->Some_0.len() + max > 0x7fff_ffff || exists|
                    found: Seq<char>,
                |
                    engine.tokens_of(#[trigger] search_answer(found), false) is Some
                        && ask->Some_0.len() + max + engine.tokens_of(
                        search_answer(found),
                        false,
                    )->Some_0.len() + max > 0x7fff_ffff)
            }
        }),
{
    let engine = old(lobe).engine;
    let v = old(lobe)@;
    let w = final(lobe)@;
    super::promises::lemma_concat_flattens(v.recent);
    match r {
        Ok(o) => {
            let ask = super::rag::search_tokens(engine, v, surprising@)->Some_0;
            let first = choose|first: Seq<Token>|
                {
                    let raw = spoken(engine, first, Detok::Text);
                    let heard = super::rag::thought_aloud(v, ask, first, w.answers);
                    &&& #[trigger] super::rag::thinks(
                        engine,
                        v,
                        ask,
                        max as nat,
                        w.answers,
                        first,
                    )
                    &&& !super::rag::overran(first.len(), ask.len() as int, max as nat)
                    &&& o.thought@ == thought_in(raw)
                    &&& directive_view(o.directive) == directive_in(raw)
                    &&& match o.retrieved {
                        None => {
                            &&& o.response is None
                            &&& w == heard.scratched()
                            &&& directive_in(raw) matches Some(d) ==> super::rag::finds(
                                *retrieve,
                                d,
                                None,
                            )
                        },
                        Some(found) => {
                            &&& directive_in(raw) matches Some(d) && super::rag::finds(
                                *retrieve,
                                d,
                                Some(found@),
                            )
                            &&& super::rag::told(
                                engine,
                                heard,
                                (ask.len() + first.len()) as int,
                                found@,
                                max as nat,
                                w,
                                o.response,
                            )
                        },
                    }
                };
            assert(first.len() <= max);
            let raw = spoken(engine, first, Detok::Text);
            assert(o.thought@ == thought_in(raw));
            if let Some(found) = o.retrieved {
                let d = directive_in(raw)->Some_0;
                let (q, s) = choose|q: &str, s: Option<String>|
                    q@ == d.1 && #[trigger] retrieve.ensures((d.0, q), s) && Some(found@) == match s {
                        Some(s) => Some(s@),
                        None => None,
                    };
                assert(retrieve.ensures((d.0, q), Some(s->Some_0)));
            }
        },
        Err(e) => {
            if broke(v.calls, w.calls) {
                lemma_where_calls_broke_off(v.calls, w.calls);
            }
        },
    }
}

} // verus!
