//! What the operations of the observer are for, said of what goes in and what comes out, in as plain
//! terms as there are.

use super::laws::lemma_step_unpacked;
use super::interject::{FsmView, FusedView};
use super::model::{begun, scored, started, LobeView};
use super::novelty::{concat, newest, MemoryView};
use super::observe::{advanced, observed, recalls};
use super::reproducing::read_through;
use super::firing::Firing;
use super::sampling::{
    aligned, drawn, falls_on, from_white, lands, likelier, likeliest, nucleus, picked, ranked,
    sampled, shared, snippet_of, tallied, top_ids, unit_shift, weighed,
};
use super::types::{AskMode, InterjectMode, NoveltyMode, Step, StepOutcome};
use crate::backend::{Backend, Detok, Token};
use crate::number::F32;
use crate::numerics::Numerics;
use crate::stats::Welford;
use crate::text::{
    alphanumeric, joined, lemma_byte_len_is_utf8_len, lemma_flatten_push, trimmed, uppercase, white,
};
use vstd::arithmetic::power2::pow2;
use vstd::prelude::*;

verus! {

// ---------------------------------------------------------------------------------------------
// Firing
// ---------------------------------------------------------------------------------------------

/// A name, a word of code or something with a number in it: letters, digits and underscores alone, two
/// bytes at least, with a capital in front or an underscore or a digit anywhere.
pub open spec fn names_something(text: Seq<char>) -> bool {
    let t = trimmed(text);
    &&& vstd::utf8::encode_utf8(t).len() >= 2
    &&& forall|i: int| 0 <= i < t.len() ==> alphanumeric(#[trigger] t[i]) || t[i] == '_'
    &&& {
        ||| uppercase(t[0])
        ||| exists|i: int|
            0 <= i < t.len() && (#[trigger] t[i] == '_' || ('0' <= t[i] && t[i] <= '9'))
    }
}

/// A token fires only where nothing stands in its way: the baseline, this token included, has taken in
/// more than its warm-up, no reset is fresh, the cooldown is over, and where only names may fire it is
/// one. Under a hard threshold it then fires exactly where its score reaches the threshold; otherwise
/// exactly where the next number of the firing stream falls below the chance of its score. A fire
/// starts the cooldown, any other token lets it run down by one, and nothing else of the state of firing
/// moves but the stream.
pub proof fn lemma_what_fires<B: Backend, N: Numerics>(
    engine: &B,
    num: &N,
    v: LobeView,
    row: Vec<F32>,
    tok: Token,
    stats: Welford,
    stats_after: Welford,
    z_threshold: F32,
    topk: nat,
    after: LobeView,
    step: Step,
)
    requires
        stats.count < u64::MAX,
        scored(engine, num, v, row, tok, stats, stats_after, z_threshold, topk, after, step),
    ensures
        ({
            let text = engine.text_of(tok, Detok::Text);
            let open = stats_after.count > stats_after.warmup && v.window.settle == 0
                && v.firing.refractory == 0 && (v.firing.identifiers_only ==> names_something(text));
            let hard = v.firing.softness.0 == 0 || 0x8000_0000 <= v.firing.softness.0 <= 0xff80_0000;
            &&& stats_after.count == stats.count + 1
            &&& stats_after.warmup == stats.warmup
            &&& step.fired ==> open
            &&& hard ==> (step.fired <==> open && z_threshold.at_most(step.z))
            &&& open && !hard ==> exists|u: F32, p: F32|
                {
                    &&& #[trigger] drawn(v.firing.fire_rng, after.firing.fire_rng, u)
                    &&& #[trigger] call_ensures(
                        N::chance,
                        (num, step.z, z_threshold, v.firing.softness),
                        p,
                    )
                    &&& step.fired == u.below(p)
                }
            &&& !open || hard ==> after.firing.fire_rng == v.firing.fire_rng
            &&& step.fired ==> after.firing.refractory == v.firing.period
            &&& !step.fired && v.firing.refractory > 0 ==> after.firing.refractory
                == v.firing.refractory - 1
            &&& !step.fired && v.firing.refractory == 0 ==> after.firing.refractory == 0
            &&& after.firing.period == v.firing.period
            &&& after.firing.signal == v.firing.signal
            &&& after.firing.softness == v.firing.softness
            &&& after.firing.identifiers_only == v.firing.identifiers_only
            &&& v.window.settle > 0 ==> after.window.settle == v.window.settle - 1
            &&& v.window.settle == 0 ==> after.window.settle == 0
        }),
{
    lemma_byte_len_is_utf8_len(trimmed(engine.text_of(tok, Detok::Text)));
}

/// Whatever is observed or taken in a step fires only once the baseline, the token itself included, has
/// taken in more values than its warm-up.
pub proof fn lemma_nothing_fires_before_the_warm_up_is_over<
    B: Backend,
    N: Numerics,
    R: Fn(&str) -> Option<String>,
>(
    engine: &B,
    num: &N,
    retrieve: R,
    v: LobeView,
    tok: Token,
    stats: Welford,
    stats_after: Welford,
    z_threshold: F32,
    topk: nat,
    max: usize,
    after: LobeView,
    step: Step,
    out: StepOutcome,
)
    requires
        stats.count < u64::MAX,
    ensures
        observed(engine, num, v, tok, stats, stats_after, z_threshold, topk, after, step)
            && step.fired ==> stats_after.count > stats_after.warmup && stats_after.count
            == stats.count + 1,
        advanced(
            engine,
            num,
            retrieve,
            v,
            tok,
            stats,
            stats_after,
            z_threshold,
            topk,
            max,
            after,
            out,
        ) && out.step.fired ==> stats_after.count > stats_after.warmup && stats_after.count
            == stats.count + 1,
{
    if observed(engine, num, v, tok, stats, stats_after, z_threshold, topk, after, step)
        && step.fired {
        let (row, a) = choose|row: Vec<F32>, a: LobeView|
            #[trigger] scored(
                engine,
                num,
                v,
                row,
                tok,
                stats,
                stats_after,
                z_threshold,
                topk,
                a,
                step,
            ) && after == a.fed(tok, after.answers).counted(tok);
        lemma_what_fires(
            engine,
            num,
            v,
            row,
            tok,
            stats,
            stats_after,
            z_threshold,
            topk,
            a,
            step,
        );
    }
    if advanced(
        engine,
        num,
        retrieve,
        v,
        tok,
        stats,
        stats_after,
        z_threshold,
        topk,
        max,
        after,
        out,
    ) && out.step.fired {
        let (g, row, a, f, status) = lemma_step_unpacked(
            engine,
            num,
            retrieve,
            v,
            tok,
            stats,
            stats_after,
            z_threshold,
            topk,
            max,
            after,
            out,
        );
        lemma_what_fires(
            engine,
            num,
            g,
            row,
            tok,
            stats,
            stats_after,
            z_threshold,
            topk,
            a,
            out.step,
        );
    }
}

/// Softening keeps the order: from one state, what fires on a chance fires on any greater one.
pub proof fn lemma_a_greater_chance_fires_too<N: Numerics>(
    num: &N,
    firing: Firing,
    text: Seq<char>,
    z: (F32, F32),
    z_threshold: F32,
    next: (Firing, Firing),
    fired: (bool, bool),
)
    requires
        F32(0).below(firing.softness),
        firing.decided(num, text, z.0, z_threshold, true, false, next.0, fired.0),
        firing.decided(num, text, z.1, z_threshold, true, false, next.1, fired.1),
        forall|p: F32, q: F32| #[trigger]
            call_ensures(N::chance, (num, z.0, z_threshold, firing.softness), p)
                && #[trigger] call_ensures(N::chance, (num, z.1, z_threshold, firing.softness), q)
                ==> p.at_most(q),
    ensures
        fired.0 ==> fired.1,
{
    if fired.0 {
        let (p, u) = choose|p: F32, u: F32|
            #[trigger] drawn(firing.fire_rng, next.0.fire_rng, u) && fired.0 == u.below(p)
                && #[trigger] call_ensures(N::chance, (num, z.0, z_threshold, firing.softness), p);
        let (q, w) = choose|q: F32, w: F32|
            #[trigger] drawn(firing.fire_rng, next.1.fire_rng, w) && fired.1 == w.below(q)
                && #[trigger] call_ensures(N::chance, (num, z.1, z_threshold, firing.softness), q);
        super::reproducing::lemma_a_draw_is_reproducible(
            firing.fire_rng,
            next.0.fire_rng,
            next.1.fire_rng,
            u,
            w,
        );
    }
}

/// A number that is drawn is the top 24 bits of the next state of the stream, as a fraction of 2^24: it
/// lies at zero or above and below one, and read as a binary32 number, with its exponent and its
/// mantissa, it is that fraction exactly. The next state follows from the one before by three shifts.
pub proof fn lemma_a_number_is_drawn_from_the_top_bits(before: u64, after: u64, f: F32)
    requires
        drawn(before, after, f),
    ensures
        ({
            let a = before ^ (before << 13);
            let b = a ^ (a >> 7);
            after == b ^ (b << 17)
        }),
        f.0 < 0x3f80_0000,
        after >> 40 == 0 ==> f.0 == 0,
        after >> 40 > 0 ==> f.0 / 0x80_0000 <= 126 && (after >> 40) * pow2(
            (126 - f.0 / 0x80_0000) as nat,
        ) == f.0 % 0x80_0000 + 0x80_0000,
{
    let a = before ^ (before << 13);
    let b = a ^ (a >> 7);
    assert(after == b ^ (b << 17));
    let n = (after >> 40) as nat;
    if n > 0 {
        let k = choose|k: nat| #[trigger] unit_shift(n, k, f);
        let m = n * pow2(k) - 0x80_0000;
        assert(f.0 == (126 - k) * 0x80_0000 + m);
        assert(k <= 126) by {
            if k > 126 {
                assert((126 - k) * 0x80_0000 + m < 0) by (nonlinear_arith)
                    requires
                        k > 126,
                        m < 0x80_0000,
                ;
            }
        }
        assert(f.0 / 0x80_0000 == 126 - k && f.0 % 0x80_0000 == m) by (nonlinear_arith)
            requires
                f.0 == (126 - k) * 0x80_0000 + m,
                0 <= m < 0x80_0000,
                k <= 126,
        ;
        assert((126 - k) * 0x80_0000 + m < 0x3f80_0000) by (nonlinear_arith)
            requires
                0 <= m < 0x80_0000,
                k >= 0,
        ;
    }
}

// ---------------------------------------------------------------------------------------------
// What an aside is about
// ---------------------------------------------------------------------------------------------

/// Texts one after the other are the list of their characters.
pub proof fn lemma_concat_flattens(parts: Seq<Seq<char>>)
    ensures
        concat(parts) == parts.flatten(),
    decreases parts.len(),
{
    if parts.len() > 0 {
        lemma_concat_flattens(parts.drop_last());
        lemma_flatten_push(parts.drop_last(), parts.last());
        assert(parts.drop_last().push(parts.last()) =~= parts);
    } else {
        assert(concat(parts) =~= parts.flatten());
    }
}

/// The memory has taken in one more text: it is kept with those since the last fire, of which no more
/// than the latest 128 are, and a fire makes all of them the span and keeps none for the next.
pub open spec fn heard(m: MemoryView, text: Seq<char>, fired: bool, n: MemoryView) -> bool {
    let since = if m.since.len() < 128 {
        m.since.push(text)
    } else {
        m.since.push(text).skip(1)
    };
    if fired {
        n.span == since.flatten() && n.since.len() == 0
    } else {
        n.span == m.span && n.since == since
    }
}

proof fn lemma_scoring_is_heard<B: Backend, N: Numerics>(
    engine: &B,
    num: &N,
    v: LobeView,
    row: Vec<F32>,
    tok: Token,
    stats: Welford,
    stats_after: Welford,
    z_threshold: F32,
    topk: nat,
    after: LobeView,
    step: Step,
)
    requires
        v.memory.since.len() <= 128,
        scored(engine, num, v, row, tok, stats, stats_after, z_threshold, topk, after, step),
    ensures
        heard(v.memory, engine.text_of(tok, Detok::Text), step.fired, after.memory),
        after.memory.asides == v.memory.asides,
        after.memory.dedup == v.memory.dedup,
{
    let since = v.memory.observed(engine.text_of(tok, Detok::Text)).since;
    lemma_concat_flattens(since);
}

/// Every token that is observed is heard: its text joins those since the last fire, and where it fires
/// they become the span that the aside is about.
pub proof fn lemma_observed_is_heard<B: Backend, N: Numerics>(
    engine: &B,
    num: &N,
    v: LobeView,
    tok: Token,
    stats: Welford,
    stats_after: Welford,
    z_threshold: F32,
    topk: nat,
    after: LobeView,
    step: Step,
)
    requires
        v.memory.since.len() <= 128,
        observed(engine, num, v, tok, stats, stats_after, z_threshold, topk, after, step),
    ensures
        heard(v.memory, engine.text_of(tok, Detok::Text), step.fired, after.memory),
        after.memory.asides == v.memory.asides,
        after.memory.dedup == v.memory.dedup,
        after.memory.since.len() <= 128,
        after.icfg == v.icfg,
{
    let text = engine.text_of(tok, Detok::Text);
    lemma_concat_flattens(v.memory.observed(text).since);
    if v.logits.len() > 0 {
        let (row, a) = choose|row: Vec<F32>, a: LobeView|
            #[trigger] scored(
                engine,
                num,
                v,
                row,
                tok,
                stats,
                stats_after,
                z_threshold,
                topk,
                a,
                step,
            ) && after == a.fed(tok, after.answers).counted(tok);
        lemma_scoring_is_heard(
            engine,
            num,
            v,
            row,
            tok,
            stats,
            stats_after,
            z_threshold,
            topk,
            a,
            step,
        );
    }
}

/// A token that is taken in a step is heard all the same, and an aside that starts on it is about the
/// span that it took.
pub proof fn lemma_stepped_is_heard<B: Backend, N: Numerics, R: Fn(&str) -> Option<String>>(
    engine: &B,
    num: &N,
    retrieve: R,
    v: LobeView,
    tok: Token,
    stats: Welford,
    stats_after: Welford,
    z_threshold: F32,
    topk: nat,
    max: usize,
    after: LobeView,
    out: StepOutcome,
)
    requires
        v.memory.since.len() <= 128,
        advanced(
            engine,
            num,
            retrieve,
            v,
            tok,
            stats,
            stats_after,
            z_threshold,
            topk,
            max,
            after,
            out,
        ),
    ensures
        heard(v.memory, engine.text_of(tok, Detok::Text), out.step.fired, after.memory),
        after.memory.asides == v.memory.asides,
        after.memory.dedup == v.memory.dedup,
        after.memory.since.len() <= 128,
        after.icfg.mode == v.icfg.mode,
        after.icfg.ask_mode == v.icfg.ask_mode,
        after.icfg.novelty_mode == v.icfg.novelty_mode,
        out.step.fired && v.gen.fused is None && v.icfg.mode == InterjectMode::Context ==> exists|
            recalled: Option<Seq<char>>,
        |
            {
                let words = context_words(
                    trimmed(aligned(after.memory.span)),
                    recall_words(recalled) + said_words(v.icfg.novelty_mode, v.memory.asides),
                    fresh_words(v.icfg.novelty_mode),
                    v.icfg.ask_mode,
                );
                &&& #[trigger] recalls(retrieve, engine.text_of(tok, Detok::Text), recalled)
                &&& after.gen.fused matches Some(FusedView::Prefill { ask, .. })
                &&& engine.tokens_of(words, false) == Some(ask)
            },
{
    let text = engine.text_of(tok, Detok::Text);
    lemma_concat_flattens(v.memory.observed(text).since);
    if v.logits.len() > 0 {
        let (g, row, a, f, status) = lemma_step_unpacked(
            engine,
            num,
            retrieve,
            v,
            tok,
            stats,
            stats_after,
            z_threshold,
            topk,
            max,
            after,
            out,
        );
        lemma_scoring_is_heard(
            engine,
            num,
            g,
            row,
            tok,
            stats,
            stats_after,
            z_threshold,
            topk,
            a,
            out.step,
        );
        assert(f.memory == a.memory);
        assert(f.icfg == a.icfg);
        if out.step.fired && a.gen.fused is None {
            let recalled = choose|recalled: Option<Seq<char>>|
                #[trigger] recalls(retrieve, out.step.token_text@, recalled) && started(
                    engine,
                    f,
                    max as nat,
                    recalled,
                    LobeView { index: f.index, ..after },
                ) && after.index == f.index + 1;
            if v.icfg.mode == InterjectMode::Context {
                lemma_the_ask_quotes_the_span(
                    engine,
                    f,
                    max as nat,
                    recalled,
                    LobeView { index: f.index, ..after },
                );
            }
        }
    }
}

/// Between two fires with at most 128 tokens, the span that the second takes is what the tokens after
/// the first say, one after the other and to the last: nothing that was read before counts.
pub proof fn lemma_the_span_is_what_was_read_since(
    ms: Seq<MemoryView>,
    texts: Seq<Seq<char>>,
    fired: Seq<bool>,
)
    requires
        ms.len() == texts.len() + 1,
        fired.len() == texts.len(),
        2 <= texts.len() <= 129,
        forall|i: int| 0 <= i < texts.len() ==> heard(ms[i], #[trigger] texts[i], fired[i], ms[i + 1]),
        fired[0],
        fired.last(),
        forall|i: int| 0 < i < texts.len() - 1 ==> !#[trigger] fired[i],
    ensures
        ms.last().span == texts.skip(1).flatten(),
{
    let n = texts.len() - 1;
    lemma_heard_so_far(ms, texts, fired, n);
    let t = texts[n];
    assert(heard(ms[n], texts[n], fired[n], ms[n + 1]));
    assert(texts.subrange(1, n).push(t) =~= texts.skip(1));
}

proof fn lemma_heard_so_far(
    ms: Seq<MemoryView>,
    texts: Seq<Seq<char>>,
    fired: Seq<bool>,
    n: int,
)
    requires
        ms.len() == texts.len() + 1,
        fired.len() == texts.len(),
        1 <= n < texts.len() <= 129,
        forall|i: int| 0 <= i < texts.len() ==> heard(ms[i], #[trigger] texts[i], fired[i], ms[i + 1]),
        fired[0],
        forall|i: int| 0 < i < texts.len() - 1 ==> !#[trigger] fired[i],
    ensures
        ms[n].since == texts.subrange(1, n),
    decreases n,
{
    if n == 1 {
        assert(heard(ms[0], texts[0], fired[0], ms[n]));
        assert(ms[1].since =~= texts.subrange(1, 1));
    } else {
        lemma_heard_so_far(ms, texts, fired, n - 1);
        assert(heard(ms[n - 1], texts[n - 1], fired[n - 1], ms[n - 1 + 1]));
        assert(!fired[n - 1]);
        assert(texts.subrange(1, n - 1).push(texts[n - 1]) =~= texts.subrange(1, n));
    }
}

/// The text from the first blank in it on, or all of it where it has none: a piece of a word that it
/// starts with drops out.
pub proof fn lemma_a_span_starts_at_a_word(s: Seq<char>, k: int)
    ensures
        0 <= k < s.len() && white(s[k]) && (forall|i: int| 0 <= i < k ==> !white(#[trigger] s[i]))
            ==> aligned(s) == s.skip(k),
        (forall|i: int| 0 <= i < s.len() ==> !white(#[trigger] s[i])) ==> aligned(s) == s,
    decreases s.len(),
{
    lemma_from_white(s, k);
}

proof fn lemma_from_white(s: Seq<char>, k: int)
    ensures
        0 <= k < s.len() && white(s[k]) && (forall|i: int| 0 <= i < k ==> !white(#[trigger] s[i]))
            ==> from_white(s) == s.skip(k),
        (forall|i: int| 0 <= i < s.len() ==> !white(#[trigger] s[i])) ==> from_white(s).len() == 0,
    decreases s.len(),
{
    if s.len() > 0 && !white(s[0]) {
        let t = s.drop_first();
        lemma_from_white(t, k - 1);
        if 0 <= k < s.len() && white(s[k]) && (forall|i: int|
            0 <= i < k ==> !white(#[trigger] s[i])) {
            assert forall|i: int| 0 <= i < k - 1 implies !white(#[trigger] t[i]) by {
                assert(t[i] == s[i + 1]);
            }
            assert(t.skip(k - 1) =~= s.skip(k));
        }
        if forall|i: int| 0 <= i < s.len() ==> !white(#[trigger] s[i]) {
            assert forall|i: int| 0 <= i < t.len() implies !white(#[trigger] t[i]) by {
                assert(t[i] == s[i + 1]);
            }
        }
    } else if s.len() > 0 {
        assert(white(s[0]));
        if k > 0 && (forall|i: int| 0 <= i < k ==> !white(#[trigger] s[i])) {
            assert(!white(s[0]));
        }
        assert(s.skip(0) =~= s);
    }
}

/// What the context ask says of an earlier passage.
pub open spec fn recall_words(recalled: Option<Seq<char>>) -> Seq<char> {
    match recalled {
        None => Seq::empty(),
        Some(s) => "\n\nIt brings back an earlier passage:\n\u{201c}"@ + trimmed(snippet_of(s, 240))
            + "\u{201d}"@,
    }
}

/// What it says of the asides before: the latest two, the latest first, unless they are not to be shown.
pub open spec fn said_words(mode: NoveltyMode, asides: Seq<Seq<char>>) -> Seq<char> {
    let n = asides.len() as int;
    if mode == NoveltyMode::Off || n == 0 {
        Seq::empty()
    } else if n == 1 {
        "\n\nYou recently said:\n"@ + ("- "@ + trimmed(asides[0]))
    } else {
        "\n\nYou recently said:\n"@ + (("- "@ + trimmed(asides[n - 1])) + "\n"@ + ("- "@ + trimmed(
            asides[n - 2],
        )))
    }
}

/// What it asks for in view of them.
pub open spec fn fresh_words(mode: NoveltyMode) -> Seq<char> {
    match mode {
        NoveltyMode::Fresh => " — but find a fresh angle, not one you've already made"@,
        NoveltyMode::Form => " — but vary your rhythm and how you begin, not just the subject"@,
        NoveltyMode::Off => Seq::empty(),
    }
}

/// The whole context ask: the open turn is closed, a user turn quotes `quote` and shows what was
/// recalled and said before, asks, and is closed, and the model's turn is opened.
pub open spec fn context_words(
    quote: Seq<char>,
    shown: Seq<char>,
    asked: Seq<char>,
    mode: AskMode,
) -> Seq<char> {
    let (lead, request) = match mode {
        AskMode::Passage => (
            "Here is the passage the text has just reached, quoted for you to comment on (not continue):\n\n"@,
            "\n\nGive your aside on it — what's happening here, what it's doing, what it means, and how it connects to what came before"@,
        ),
        AskMode::Continuous => (
            "You've been musing as you read, and the text has moved on to:\n\n"@,
            "\n\nGo on — pick up your running commentary in your own voice"@,
        ),
    };
    "<turn|>\n"@ + "<|turn>user\n"@ + lead + "\u{201c}"@ + quote + "\u{201d}"@ + shown + request
        + asked + "."@ + "<turn|>\n"@ + "<|turn>model\n"@
}

proof fn lemma_ask_words(v: LobeView, recalled: Option<Seq<char>>)
    ensures
        v.ask_text(recalled) == context_words(
            trimmed(aligned(v.memory.span)),
            recall_words(recalled) + said_words(v.icfg.novelty_mode, v.memory.asides),
            fresh_words(v.icfg.novelty_mode),
            v.icfg.ask_mode,
        ),
{
    let n = v.memory.asides.len() as int;
    let shown = newest(v.memory.asides, 2);
    let bullets = shown.map_values(|s: Seq<char>| "- "@ + trimmed(s));
    if n == 1 {
        assert(bullets =~= seq!["- "@ + trimmed(v.memory.asides[0])]);
    } else if n >= 2 {
        assert(bullets =~= seq![
            "- "@ + trimmed(v.memory.asides[n - 1]),
            "- "@ + trimmed(v.memory.asides[n - 2]),
        ]);
        assert(bullets.drop_last() =~= seq!["- "@ + trimmed(v.memory.asides[n - 1])]);
        assert(joined(bullets.drop_last(), "\n"@) == "- "@ + trimmed(v.memory.asides[n - 1]));
    }
    assert(v.novelty_block() == said_words(v.icfg.novelty_mode, v.memory.asides));
}

/// The ask of an aside in the context mode, pumped out alone or alongside the stream, quotes the span
/// that the last fire took, without a piece of a word and blanks around it, and with what was recalled
/// and the latest two asides; the span is all that it quotes of the stream.
pub proof fn lemma_the_ask_quotes_the_span<B: Backend>(
    engine: &B,
    v: LobeView,
    max: nat,
    recalled: Option<Seq<char>>,
    after: LobeView,
)
    requires
        v.icfg.mode == InterjectMode::Context,
    ensures
        ({
            let words = context_words(
                trimmed(aligned(v.memory.span)),
                recall_words(recalled) + said_words(v.icfg.novelty_mode, v.memory.asides),
                fresh_words(v.icfg.novelty_mode),
                v.icfg.ask_mode,
            );
            &&& begun(engine, v, max, recalled, after) ==> (after.gen.fsm matches Some(
                FsmView::Prefill { toks, .. },
            ) && engine.tokens_of(words, false) == Some(toks))
            &&& started(engine, v, max, recalled, after) ==> (after.gen.fused matches Some(
                FusedView::Prefill { ask, next, .. },
            ) && next == 0 && engine.tokens_of(words, false) == Some(ask))
        }),
{
    lemma_ask_words(v, recalled);
}

/// In the snippet mode the ask carries the latest 48 texts of the stream instead.
pub proof fn lemma_the_snippet_ask_carries_the_recent_text<B: Backend>(
    engine: &B,
    v: LobeView,
    max: nat,
    recalled: Option<Seq<char>>,
    after: LobeView,
)
    requires
        v.icfg.mode == InterjectMode::Snippet,
    ensures
        ({
            let words = "<|turn>user\n"@ + "Here is the passage the text has just reached:\n\n"@
                + trimmed(aligned(v.recent.flatten()))
                + "\n\nGive your brief aside on it — what's happening, what it's doing, what it means."@
                + "<turn|>\n"@ + "<|turn>model\n"@;
            &&& begun(engine, v, max, recalled, after) ==> (after.gen.fsm matches Some(
                FsmView::Prefill { toks, start, .. },
            ) && start == 0 && engine.tokens_of(words, true) == Some(toks))
            &&& started(engine, v, max, recalled, after) ==> (after.gen.fused matches Some(
                FusedView::Prefill { ask, pos, .. },
            ) && pos == 0 && engine.tokens_of(words, true) == Some(ask))
        }),
{
    lemma_concat_flattens(v.recent);
}

/// An aside on the second of two fires with at most 128 tokens between them is about the text since the
/// first, and that alone: what the ask quotes is what the tokens after the first fire say, one after the
/// other, whatever was read before. Two observers that agree on those tokens quote the same.
pub proof fn lemma_an_aside_is_about_the_text_since_the_last_fire<B: Backend, N: Numerics>(
    engine: &B,
    num: &N,
    states: Seq<LobeView>,
    toks: Seq<Token>,
    stats: Seq<Welford>,
    z_threshold: F32,
    topk: nat,
    steps: Seq<Step>,
    max: nat,
    recalled: Option<Seq<char>>,
    after: LobeView,
)
    requires
        read_through(engine, num, states, toks, stats, z_threshold, topk, steps),
        2 <= toks.len() <= 129,
        states[0].memory.since.len() <= 128,
        steps[0].fired,
        steps.last().fired,
        forall|i: int| 0 < i < toks.len() - 1 ==> !(#[trigger] steps[i]).fired,
        states.last().icfg.mode == InterjectMode::Context,
        begun(engine, states.last(), max, recalled, after),
    ensures
        ({
            let v = states.last();
            let said = toks.skip(1).map_values(|t: Token| engine.text_of(t, Detok::Text)).flatten();
            let words = context_words(
                trimmed(aligned(said)),
                recall_words(recalled) + said_words(v.icfg.novelty_mode, v.memory.asides),
                fresh_words(v.icfg.novelty_mode),
                v.icfg.ask_mode,
            );
            after.gen.fsm matches Some(FsmView::Prefill { toks: ask, .. }) && engine.tokens_of(
                words,
                false,
            ) == Some(ask)
        }),
{
    let ms = states.map_values(|v: LobeView| v.memory);
    let texts = toks.map_values(|t: Token| engine.text_of(t, Detok::Text));
    let fired = steps.map_values(|s: Step| s.fired);
    assert forall|i: int| 0 <= i < texts.len() implies heard(
        ms[i],
        #[trigger] texts[i],
        fired[i],
        ms[i + 1],
    ) by {
        lemma_read_is_heard(
            engine,
            num,
            states,
            toks,
            stats,
            z_threshold,
            topk,
            steps,
            i,
        );
    }
    assert forall|i: int| 0 < i < texts.len() - 1 implies !#[trigger] fired[i] by {
        assert(!steps[i].fired);
    }
    lemma_the_span_is_what_was_read_since(ms, texts, fired);
    assert(texts.skip(1) =~= toks.skip(1).map_values(|t: Token| engine.text_of(t, Detok::Text)));
    lemma_the_ask_quotes_the_span(engine, states.last(), max, recalled, after);
}

proof fn lemma_read_is_heard<B: Backend, N: Numerics>(
    engine: &B,
    num: &N,
    states: Seq<LobeView>,
    toks: Seq<Token>,
    stats: Seq<Welford>,
    z_threshold: F32,
    topk: nat,
    steps: Seq<Step>,
    n: int,
)
    requires
        read_through(engine, num, states, toks, stats, z_threshold, topk, steps),
        states[0].memory.since.len() <= 128,
        0 <= n < toks.len(),
    ensures
        heard(
            states[n].memory,
            engine.text_of(toks[n], Detok::Text),
            steps[n].fired,
            states[n + 1].memory,
        ),
        states[n + 1].memory.since.len() <= 128,
        states[n + 1].memory.asides == states[n].memory.asides,
    decreases n,
{
    if n > 0 {
        lemma_read_is_heard(
            engine,
            num,
            states,
            toks,
            stats,
            z_threshold,
            topk,
            steps,
            n - 1,
        );
    }
    let tok = toks[n];
    lemma_observed_is_heard(
        engine,
        num,
        states[n],
        tok,
        stats[n],
        stats[n + 1],
        z_threshold,
        topk,
        states[n + 1],
        steps[n],
    );
}

// ---------------------------------------------------------------------------------------------
// Sampling
// ---------------------------------------------------------------------------------------------

/// How a token was drawn from a row.
pub struct Draw {
    /// The number drawn.
    pub unit: F32,
    /// The places of the row, the greatest logit first.
    pub ids: Seq<usize>,
    /// Their weights.
    pub weights: Seq<F32>,
    /// The sums of the weights up to each place.
    pub sums: Seq<F32>,
    /// The sums of their shares in the whole, up to the end of the nucleus.
    pub shares: Seq<F32>,
    /// How many places the nucleus has.
    pub cut: int,
    /// How far the draw goes.
    pub goal: F32,
    /// The place it falls on.
    pub at: int,
}

/// Of two places of a row, `a` comes first: its logit is greater, or the same and `a` is the earlier.
pub open spec fn comes_first(row: Seq<F32>, a: usize, b: usize) -> bool {
    row[a as int].total_rank() > row[b as int].total_rank() || (row[a as int].total_rank()
        == row[b as int].total_rank() && a < b)
}

/// `after` is `before` and the share that `w` has in `total`.
pub open spec fn adds_its_share<N: Numerics>(
    num: &N,
    w: F32,
    total: F32,
    before: F32,
    after: F32,
) -> bool {
    exists|q: F32|
        call_ensures(N::over, (num, w, total), q) && #[trigger] call_ensures(
            N::plus,
            (num, before, q),
            after,
        )
}

/// Above a temperature of zero the next number of the stream is drawn. Each logit weighs what the
/// arithmetic gives for it, the greatest logit and the temperature that was asked for; the nucleus is
/// the fewest of the weightiest places whose shares in the whole come to the share asked for; and the
/// token is the one at the first place of the nucleus where the running sum of the weights reaches the
/// number drawn times the weight of the nucleus.
pub proof fn lemma_how_a_token_is_drawn<N: Numerics>(
    num: &N,
    row: Seq<F32>,
    temp: F32,
    top_p: F32,
    before: u64,
    after: u64,
    t: Token,
) -> (d: Draw)
    requires
        sampled(num, row, temp, top_p, before, after, t),
        !temp.at_most(F32(0)),
    ensures
        drawn(before, after, d.unit),
        d.ids.len() == row.len(),
        forall|i: int| 0 <= i < d.ids.len() ==> #[trigger] d.ids[i] < row.len(),
        forall|i: int, j: int|
            0 <= i < j < d.ids.len() ==> comes_first(row, #[trigger] d.ids[i], #[trigger] d.ids[j]),
        d.weights.len() == d.ids.len(),
        forall|i: int|
            0 <= i < d.ids.len() ==> call_ensures(
                N::weight,
                (num, row[d.ids[i] as int], row[d.ids[0] as int], temp),
                #[trigger] d.weights[i],
            ),
        d.sums.len() == d.weights.len() + 1,
        d.sums[0] == F32(0),
        forall|i: int|
            0 <= i < d.weights.len() ==> call_ensures(
                N::plus,
                (num, d.sums[i], #[trigger] d.weights[i]),
                d.sums[i + 1],
            ),
        0 < d.cut <= d.weights.len(),
        d.shares.len() == d.cut + 1,
        d.shares[0] == F32(0),
        forall|i: int|
            0 <= i < d.cut ==> adds_its_share(
                num,
                #[trigger] d.weights[i],
                d.sums.last(),
                d.shares[i],
                d.shares[i + 1],
            ),
        forall|i: int| 0 < i < d.cut ==> !top_p.at_most(#[trigger] d.shares[i]),
        d.cut < d.weights.len() ==> top_p.at_most(d.shares[d.cut]),
        call_ensures(N::times, (num, d.unit, d.sums[d.cut]), d.goal),
        0 <= d.at < d.cut,
        forall|i: int| 0 < i <= d.at ==> !d.goal.at_most(#[trigger] d.sums[i]),
        d.at < d.cut - 1 ==> d.goal.at_most(d.sums[d.at + 1]),
        t.0 == d.ids[d.at],
{
    let unit = choose|unit: F32|
        drawn(before, after, unit) && #[trigger] picked(num, row, temp, top_p, unit, t);
    let (ids, cut, at) = choose|ids: Seq<usize>, cut: int, j: int|
        {
            &&& ranked(row, ids)
            &&& #[trigger] falls_on(num, row, temp, top_p, unit, ids, cut, j)
            &&& 0 <= j < cut <= ids.len()
            &&& t.0 == ids[j]
        };
    let (weights, sums, shares, goal) = choose|
        ws: Seq<F32>,
        sums: Seq<F32>,
        cums: Seq<F32>,
        goal: F32,
    |
        {
            &&& #[trigger] weighed(num, row, temp, ids, ws)
            &&& #[trigger] tallied(num, ws, sums)
            &&& #[trigger] nucleus(num, ws, sums.last(), top_p, cums, cut)
            &&& call_ensures(N::times, (num, unit, sums[cut]), goal)
            &&& #[trigger] lands(sums, cut, goal, at)
        };
    assert forall|i: int, j: int| 0 <= i < j < ids.len() implies comes_first(
        row,
        #[trigger] ids[i],
        #[trigger] ids[j],
    ) by {
        assert(likelier(row, ids[i] as int, ids[j] as int));
    }
    assert forall|i: int| 0 <= i < cut implies adds_its_share(
        num,
        #[trigger] weights[i],
        sums.last(),
        shares[i],
        shares[i + 1],
    ) by {
        assert(shared(num, shares[i], weights[i], sums.last(), shares[i + 1]));
    }
    Draw { unit, ids, weights, sums, shares, cut, goal, at }
}

/// The temperature counts: where at the temperature asked for the arithmetic leaves no weight to any
/// logit below the greatest, the greatest is drawn. All that is asked of the arithmetic beside it is
/// that zero adds nothing and that a number below one does not stretch a sum.
pub proof fn lemma_where_the_rest_weighs_nothing_the_greatest_is_drawn<N: Numerics>(
    num: &N,
    row: Seq<F32>,
    temp: F32,
    top_p: F32,
    before: u64,
    after: u64,
    t: Token,
)
    requires
        sampled(num, row, temp, top_p, before, after, t),
        !temp.at_most(F32(0)),
        row.len() <= usize::MAX,
        forall|i: int, k: int, w: F32|
            0 <= i < row.len() && 0 <= k < row.len() && row[i].total_rank() < row[k].total_rank()
                && #[trigger] call_ensures(N::weight, (num, row[i], row[k], temp), w) ==> w == F32(
                0,
            ),
        forall|x: F32, y: F32| #[trigger]
            call_ensures(N::plus, (num, x, F32(0)), y) ==> y == x,
        forall|u: F32, x: F32, y: F32|
            u.0 < 0x3f80_0000 && #[trigger] call_ensures(N::times, (num, u, x), y) ==> y.at_most(x),
    ensures
        0 <= t.0 < row.len(),
        forall|k: int|
            0 <= k < row.len() ==> (#[trigger] row[k]).total_rank() <= row[t.0 as int].total_rank(),
{
    let d = lemma_how_a_token_is_drawn(num, row, temp, top_p, before, after, t);
    lemma_a_number_is_drawn_from_the_top_bits(before, after, d.unit);
    let top = row[d.ids[0] as int].total_rank();
    lemma_first_is_greatest(row, d.ids);
    let mine = row[d.ids[d.at] as int].total_rank();
    assert(mine <= top) by {
        if d.at > 0 {
            assert(comes_first(row, d.ids[0], d.ids[d.at]));
        }
    }
    if mine < top {
        let m = d.at;
        lemma_flat(num, row, temp, d, m, d.cut, top);
        assert(d.sums[d.cut] == d.sums[m]);
        assert(d.goal.at_most(d.sums[m]));
        assert(!d.goal.at_most(d.sums[m]));
    }
}

proof fn lemma_flat<N: Numerics>(
    num: &N,
    row: Seq<F32>,
    temp: F32,
    d: Draw,
    m: int,
    n: int,
    top: int,
)
    requires
        0 < m <= n <= d.weights.len(),
        d.ids.len() == row.len(),
        d.weights.len() == d.ids.len(),
        d.sums.len() == d.weights.len() + 1,
        forall|i: int| 0 <= i < d.ids.len() ==> #[trigger] d.ids[i] < row.len(),
        forall|i: int, j: int|
            0 <= i < j < d.ids.len() ==> comes_first(row, #[trigger] d.ids[i], #[trigger] d.ids[j]),
        row[d.ids[0] as int].total_rank() == top,
        m < d.ids.len() ==> row[d.ids[m] as int].total_rank() < top,
        forall|i: int|
            0 <= i < d.ids.len() ==> call_ensures(
                N::weight,
                (num, row[d.ids[i] as int], row[d.ids[0] as int], temp),
                #[trigger] d.weights[i],
            ),
        forall|i: int|
            0 <= i < d.weights.len() ==> call_ensures(
                N::plus,
                (num, d.sums[i], #[trigger] d.weights[i]),
                d.sums[i + 1],
            ),
        forall|i: int, k: int, w: F32|
            0 <= i < row.len() && 0 <= k < row.len() && row[i].total_rank() < row[k].total_rank()
                && #[trigger] call_ensures(N::weight, (num, row[i], row[k], temp), w) ==> w == F32(
                0,
            ),
        forall|x: F32, y: F32| #[trigger]
            call_ensures(N::plus, (num, x, F32(0)), y) ==> y == x,
    ensures
        d.sums[n] == d.sums[m],
    decreases n,
{
    if n > m {
        lemma_flat(num, row, temp, d, m, n - 1, top);
        let i = n - 1;
        if i > m {
            assert(comes_first(row, d.ids[m], d.ids[i]));
        }
        let w = d.weights[i];
        assert(call_ensures(
            N::weight,
            (num, row[d.ids[i] as int], row[d.ids[0] as int], temp),
            w,
        ));
        assert(w == F32(0));
        assert(call_ensures(N::plus, (num, d.sums[i], w), d.sums[i + 1]));
    }
}

proof fn lemma_first_is_greatest(row: Seq<F32>, ids: Seq<usize>)
    requires
        ids.len() == row.len(),
        0 < row.len() <= usize::MAX,
        forall|i: int| 0 <= i < ids.len() ==> #[trigger] ids[i] < row.len(),
        forall|i: int, j: int|
            0 <= i < j < ids.len() ==> comes_first(row, #[trigger] ids[i], #[trigger] ids[j]),
    ensures
        forall|k: int|
            0 <= k < row.len() ==> (#[trigger] row[k]).total_rank() <= row[ids[0] as int].total_rank(),
{
    assert forall|i: int, j: int| 0 <= i < j < ids.len() implies likelier(
        row,
        #[trigger] ids[i] as int,
        #[trigger] ids[j] as int,
    ) by {
        assert(comes_first(row, ids[i], ids[j]));
    }
    super::reproducing::lemma_ranked_is_likeliest(row, ids);
    assert forall|k: int| 0 <= k < row.len() implies (#[trigger] row[k]).total_rank()
        <= row[ids[0] as int].total_rank() by {
        let p = k as usize;
        if ids.contains(p) {
            let w = choose|w: int| 0 <= w < ids.len() && ids[w] == p;
            if w > 0 {
                assert(comes_first(row, ids[0], ids[w]));
            }
        } else {
            assert(likelier(row, ids[0] as int, p as int));
        }
    }
}

/// The nucleus counts: where the share of a single place already comes to the share asked for, the
/// greatest logit is drawn, whatever the number drawn.
pub proof fn lemma_a_narrow_nucleus_leaves_no_choice<N: Numerics>(
    num: &N,
    row: Seq<F32>,
    temp: F32,
    top_p: F32,
    before: u64,
    after: u64,
    t: Token,
)
    requires
        sampled(num, row, temp, top_p, before, after, t),
        !temp.at_most(F32(0)),
        row.len() <= usize::MAX,
        forall|q: F32, c: F32| #[trigger]
            call_ensures(N::plus, (num, F32(0), q), c) ==> top_p.at_most(c),
    ensures
        0 <= t.0 < row.len(),
        forall|k: int|
            0 <= k < row.len() ==> (#[trigger] row[k]).total_rank() <= row[t.0 as int].total_rank(),
{
    let d = lemma_how_a_token_is_drawn(num, row, temp, top_p, before, after, t);
    lemma_first_is_greatest(row, d.ids);
    let w = d.weights[0];
    let one: int = 1;
    let q = choose|q: F32|
        call_ensures(N::over, (num, w, d.sums.last()), q) && #[trigger] call_ensures(
            N::plus,
            (num, d.shares[0], q),
            d.shares[one],
        );
    if d.cut > 1 {
        assert(!top_p.at_most(d.shares[1]));
    }
}

/// At a temperature of zero or below nothing is drawn and the token is the greatest logit, the earliest
/// of several: none lies above it, and all before it lie below.
pub proof fn lemma_without_a_temperature_the_greatest_is_taken<N: Numerics>(
    num: &N,
    row: Seq<F32>,
    temp: F32,
    top_p: F32,
    before: u64,
    after: u64,
    t: Token,
)
    requires
        sampled(num, row, temp, top_p, before, after, t),
        temp.at_most(F32(0)),
        exists|j: int| 0 <= j < row.len() && F32(0xff80_0000).below(#[trigger] row[j]),
    ensures
        after == before,
        0 <= t.0 < row.len(),
        forall|j: int| 0 <= j < row.len() ==> !row[t.0 as int].below(#[trigger] row[j]),
        forall|j: int| 0 <= j < t.0 ==> !row[t.0 as int].at_most(#[trigger] row[j]),
{
}

/// The likeliest tokens of a row are the places of its greatest logits: as many as asked for, or all,
/// the greatest first, and none that is left out comes before one that is in.
pub proof fn lemma_the_likeliest_are_the_greatest(logits: &Vec<F32>, k: usize, ids: Vec<usize>)
    requires
        call_ensures(top_ids, (logits, k), ids),
    ensures
        ids@.len() == if k <= logits@.len() {
            k as int
        } else {
            logits@.len() as int
        },
        forall|i: int| 0 <= i < ids@.len() ==> #[trigger] ids@[i] < logits@.len(),
        forall|i: int, j: int|
            0 <= i < j < ids@.len() ==> comes_first(logits@, #[trigger] ids@[i], #[trigger] ids@[j]),
        forall|p: usize, i: int|
            p < logits@.len() && 0 <= i < ids@.len() && !#[trigger] ids@.contains(p) ==> comes_first(
                logits@,
                #[trigger] ids@[i],
                p,
            ),
{
    assert(likeliest(logits@, k as nat, ids@));
    assert forall|i: int, j: int| 0 <= i < j < ids@.len() implies comes_first(
        logits@,
        #[trigger] ids@[i],
        #[trigger] ids@[j],
    ) by {
        assert(likelier(logits@, ids@[i] as int, ids@[j] as int));
    }
    assert forall|p: usize, i: int|
        p < logits@.len() && 0 <= i < ids@.len() && !#[trigger] ids@.contains(p) implies comes_first(
        logits@,
        #[trigger] ids@[i],
        p,
    ) by {
        assert(likelier(logits@, ids@[i] as int, p as int));
    }
}

} // verus!
