//! Laws of the observer's limits: what is kept of the stream, when the context is rebuilt and from what,
//! how runs of tokens are fed, and where a reply ends.

use super::{fresh, Lobe};
use super::interject::{not_staged, FsmView, FusedView, InterjectConfig, Progress};
use super::fused::batch_of;
use super::model::{
    active, begun, broke, chosen, cut_short, expectation, failed, fed_scratch, feeds, forwarded, halts, last_row, pumped, readied,
    scored, started, LobeView,
};
use super::observe::{kindled, observed, recalls, stepped, taken_on};
use super::promises::{comes_first, lemma_concat_flattens};
use super::sampling::{
    closing, ends_sentence, head_within, last_word_cut, likelier, likeliest, sampled, sentence_end,
    trim_snippet, unclosed,
};
use super::types::{EvictMode, InterjectMode, LobeConfig, LobeError, Step, StepOutcome};
use super::window::WindowView;
use crate::backend::{Answers, Backend, Decode, Detok, KvCall, Session, Token};
use crate::number::F32;
use crate::numerics::Numerics;
use crate::stats::Welford;
use crate::text::{byte_len, trim_end, white};
use vstd::prelude::*;

verus! {

// ---------------------------------------------------------------------------------------------
// The window
// ---------------------------------------------------------------------------------------------

/// A stream token joins the record of the live context and the recent window, of which only the last
/// `keep` tokens stay; nothing else of the window changes.
pub proof fn lemma_a_token_joins_the_window(w: WindowView, tok: Token)
    ensures
        w.pushed(tok).context == w.context.push(tok),
        w.pushed(tok).recent.len() == if w.recent.len() + 1 <= w.keep {
            w.recent.len() + 1
        } else {
            w.keep as nat
        },
        w.pushed(tok).recent == w.recent.push(tok).skip(
            w.recent.len() + 1 - w.pushed(tok).recent.len(),
        ),
        w.pushed(tok).evict == w.evict,
        w.pushed(tok).preamble == w.preamble,
        w.pushed(tok).keep == w.keep,
        w.pushed(tok).settle == w.settle,
        w.pushed(tok).resets == w.resets,
{
}

/// A reset counts, keeps the next sixteen tokens from firing, and leaves the preamble, the recent window
/// and the policy as they were; each token then takes one off the settling, and nothing else.
pub proof fn lemma_sixteen_tokens_settle(w: WindowView)
    requires
        w.resets < u64::MAX,
    ensures
        w.rolled().settle == 16,
        w.rolled().resets == w.resets + 1,
        w.rolled().context == w.recent,
        w.rolled().recent == w.recent,
        w.rolled().preamble == w.preamble,
        w.rolled().evict == w.evict,
        w.rolled().keep == w.keep,
        w.settle > 0 ==> w.ticked().settle == w.settle - 1,
        w.settle == 0 ==> w.ticked() == w,
        w.ticked().context == w.context,
        w.ticked().recent == w.recent,
        w.ticked().preamble == w.preamble,
        w.ticked().evict == w.evict,
        w.ticked().keep == w.keep,
        w.ticked().resets == w.resets,
{
}

/// A reset is due under the policy of resets only, and there once the position is nearer to the end of
/// the context than the margin: 256 tokens and five for each token that an aside may have, but never
/// more than three quarters of the context.
pub proof fn lemma_when_a_reset_is_due(v: LobeView)
    requires
        0 <= v.n_ctx,
    ensures
        v.window.evict != EvictMode::Reset ==> !v.due(),
        v.window.evict == EvictMode::Reset ==> {
            &&& v.pos + 256 + 5 * v.icfg.max_hint < v.n_ctx ==> !v.due()
            &&& v.pos + (v.n_ctx * 3) / 4 < v.n_ctx ==> !v.due()
            &&& v.pos + 256 + 5 * v.icfg.max_hint >= v.n_ctx && v.pos + (v.n_ctx * 3) / 4 >= v.n_ctx
                ==> v.due()
        },
{
}

/// Of the stream the latest 48 token texts are kept for a prompt.
pub proof fn lemma_forty_eight_texts_are_kept(v: LobeView, text: Seq<char>)
    requires
        v.recent.len() <= 48,
    ensures
        v.noted(text).recent.len() == if v.recent.len() < 48 {
            v.recent.len() + 1
        } else {
            48
        },
        v.noted(text).recent == v.recent.push(text).skip(
            v.recent.len() + 1 - v.noted(text).recent.len(),
        ),
{
}

// ---------------------------------------------------------------------------------------------
// Feeding
// ---------------------------------------------------------------------------------------------

/// The entries of the passes, one batch after the other.
pub open spec fn entries(calls: Seq<KvCall>) -> Seq<Decode> {
    calls.map_values(|c: KvCall| c->Decode_batch).flatten()
}

/// A run of tokens is fed in passes of at most 512, all of them full but the last. Together they hold
/// each token of the run once and in order, at the positions from `base` on, on the one sequence; only
/// the last token of the run wants its distribution. The row at hand afterwards is the one at the place
/// of that token in the last pass.
pub proof fn lemma_a_run_is_fed_in_order(toks: Seq<Token>, base: int, seq: u32, answers: Answers)
    requires
        toks.len() > 0,
    ensures
        ({
            let calls = feeds(toks, 0, base, seq);
            &&& calls.len() > 0
            &&& forall|i: int|
                0 <= i < calls.len() ==> {
                    &&& (#[trigger] calls[i]) is Decode
                    &&& calls[i]->Decode_ok
                    &&& 0 < calls[i]->Decode_batch.len() <= 512
                    &&& i < calls.len() - 1 ==> calls[i]->Decode_batch.len() == 512
                }
            &&& entries(calls).len() == toks.len()
            &&& forall|i: int|
                0 <= i < toks.len() ==> #[trigger] entries(calls)[i] == (Decode {
                    token: toks[i],
                    pos: (base + i) as i32,
                    seq,
                    logits: i == toks.len() - 1,
                })
            &&& last_row(answers, toks.len() as int)
                == answers.last()[calls.last()->Decode_batch.len() - 1]
        }),
{
    lemma_feeds_from(toks, 0, base, seq);
}

/// What is to be fed of a run from `from` on.
spec fn wanted(toks: Seq<Token>, from: int, base: int, seq: u32) -> Seq<Decode> {
    Seq::new(
        (toks.len() - from) as nat,
        |i: int|
            Decode {
                token: toks[from + i],
                pos: (base + from + i) as i32,
                seq,
                logits: from + i == toks.len() - 1,
            },
    )
}

proof fn lemma_feeds_from(toks: Seq<Token>, from: int, base: int, seq: u32)
    requires
        0 <= from < toks.len(),
        from % 512 == 0,
    ensures
        ({
            let calls = feeds(toks, from, base, seq);
            &&& calls.len() > 0
            &&& forall|i: int|
                0 <= i < calls.len() ==> {
                    &&& (#[trigger] calls[i]) is Decode
                    &&& calls[i]->Decode_ok
                    &&& 0 < calls[i]->Decode_batch.len() <= 512
                    &&& i < calls.len() - 1 ==> calls[i]->Decode_batch.len() == 512
                }
            &&& entries(calls) == wanted(toks, from, base, seq)
            &&& calls.last()->Decode_batch.len() == (toks.len() - 1) % 512 + 1
        }),
    decreases toks.len() - from,
{
    let to = super::model::batch_end(toks.len() as int, from);
    let calls = feeds(toks, from, base, seq);
    let rest = feeds(toks, to, base, seq);
    let batch = super::model::feed_batch(toks, from, to, base, seq);
    let first = KvCall::Decode { batch, ok: true };
    assert(calls == seq![first] + rest);
    let batches = calls.map_values(|c: KvCall| c->Decode_batch);
    let others = rest.map_values(|c: KvCall| c->Decode_batch);
    assert(batches.first() == batch);
    assert(batches.drop_first() =~= others);
    assert(batches.flatten() == batch + others.flatten());
    if to < toks.len() {
        lemma_feeds_from(toks, to, base, seq);
        assert(entries(rest) == wanted(toks, to, base, seq));
        assert forall|i: int| 0 <= i < calls.len() implies {
            &&& (#[trigger] calls[i]) is Decode
            &&& calls[i]->Decode_ok
            &&& 0 < calls[i]->Decode_batch.len() <= 512
            &&& i < calls.len() - 1 ==> calls[i]->Decode_batch.len() == 512
        } by {
            if i > 0 {
                assert(calls[i] == rest[i - 1]);
            }
        }
        assert(calls.last() == rest.last());
    } else {
        assert(rest =~= Seq::empty());
        assert(others =~= Seq::empty());
        assert(calls.last() == first);
    }
    assert(entries(calls) =~= wanted(toks, from, base, seq));
}

// ---------------------------------------------------------------------------------------------
// What a step reports
// ---------------------------------------------------------------------------------------------

/// What a fire reports as expected are the likeliest tokens of the distribution at hand, as many as asked
/// for, the likeliest first, each as the tokenizer renders it and with the share that the arithmetic
/// gives it.
pub proof fn lemma_the_likeliest_were_expected<B: Backend, N: Numerics>(
    engine: &B,
    num: &N,
    row: Vec<F32>,
    k: nat,
    expected: Seq<(String, F32)>,
) -> (ids: Seq<usize>)
    requires
        expectation(engine, num, row, k, expected),
    ensures
        ids.len() == if k <= row@.len() {
            k
        } else {
            row@.len()
        },
        expected.len() == ids.len(),
        forall|i: int| 0 <= i < ids.len() ==> #[trigger] ids[i] < row@.len(),
        forall|i: int, j: int|
            0 <= i < j < ids.len() ==> comes_first(row@, #[trigger] ids[i], #[trigger] ids[j]),
        forall|p: usize, i: int|
            p < row@.len() && 0 <= i < ids.len() && !#[trigger] ids.contains(p) ==> comes_first(
                row@,
                #[trigger] ids[i],
                p,
            ),
        forall|i: int|
            0 <= i < ids.len() ==> (#[trigger] expected[i]).0@ == engine.text_of(
                Token(ids[i] as i32),
                Detok::Text,
            ) && call_ensures(N::share, (num, &row, ids[i]), expected[i].1),
{
    let ids = choose|ids: Seq<usize>|
        #[trigger] likeliest(row@, k, ids) && expected.len() == ids.len() && forall|i: int|
            0 <= i < ids.len() ==> (#[trigger] expected[i]).0@ == engine.text_of(
                Token(ids[i] as i32),
                Detok::Text,
            ) && call_ensures(N::share, (num, &row, ids[i]), expected[i].1);
    assert forall|i: int, j: int| 0 <= i < j < ids.len() implies comes_first(
        row@,
        #[trigger] ids[i],
        #[trigger] ids[j],
    ) by {
        assert(likelier(row@, ids[i] as int, ids[j] as int));
    }
    assert forall|p: usize, i: int|
        p < row@.len() && 0 <= i < ids.len() && !#[trigger] ids.contains(p) implies comes_first(
        row@,
        #[trigger] ids[i],
        p,
    ) by {
        assert(likelier(row@, ids[i] as int, p as int));
    }
    ids
}

/// `z` is how far `value` lies from the baseline, which has then taken it in.
pub open spec fn measures<N: Numerics>(
    num: &N,
    stats: Welford,
    stats_after: Welford,
    value: F32,
    z: F32,
) -> bool {
    &&& call_ensures(N::z, (num, &stats, value), z)
    &&& exists|m: (F32, F32)| #[trigger]
        call_ensures(N::moments, (num, &stats, value), m) && stats_after.mean == m.0 && if stats.window
            == 0 {
            stats_after.m2 == m.1 && stats_after.var_ewma == stats.var_ewma
        } else {
            stats_after.var_ewma == m.1 && stats_after.m2 == stats.m2
        }
}

/// A scored step says which token it is, what both signals came to, and how far the chosen one lies from
/// the baseline: the surprisal or the entropy, as the observer is set. The baseline takes in that value
/// and counts it. What a fire reports repeats the step.
pub proof fn lemma_what_a_scored_step_says<B: Backend, N: Numerics>(
    engine: &B,
    num: &N,
    v: LobeView,
    row: Vec<F32>,
    tok: Token,
    stats: Welford,
    stats_after: Welford,
    z_threshold: F32,
    topk: nat,
    after: LobeView,
    step: Step,
)
    requires
        scored(engine, num, v, row, tok, stats, stats_after, z_threshold, topk, after, step),
        stats.count < u64::MAX,
    ensures
        row@ == v.logits,
        step.stream_index == v.index,
        step.token_text@ == engine.text_of(tok, Detok::Text),
        call_ensures(N::surprisal, (num, &row, tok), step.surprisal),
        call_ensures(N::entropy, (num, &row), step.entropy),
        v.firing.signal is Surprisal ==> measures(num, stats, stats_after, step.surprisal, step.z),
        v.firing.signal is Entropy ==> measures(num, stats, stats_after, step.entropy, step.z),
        stats_after.count == stats.count + 1,
        stats_after.warmup == stats.warmup,
        stats_after.window == stats.window,
        step.fired == (step.trigger is Some),
        step.trigger matches Some(t) ==> {
            &&& t.stream_index == step.stream_index
            &&& t.token_text@ == step.token_text@
            &&& t.surprisal == step.surprisal
            &&& t.entropy == step.entropy
            &&& t.z == step.z
            &&& expectation(engine, num, row, topk, t.expected@)
        },
{
    let value = active(v.firing.signal, step);
    let m = choose|m: (F32, F32)| #[trigger]
        call_ensures(N::moments, (num, &stats, value), m) && stats_after == stats.taken(m);
    assert(measures(num, stats, stats_after, value, step.z));
}

// ---------------------------------------------------------------------------------------------
// Where a reply ends
// ---------------------------------------------------------------------------------------------

/// What may follow the end of a sentence: quotes, emphasis and brackets that close.
pub open spec fn closes_only(s: Seq<char>) -> bool {
    forall|i: int|
        0 <= i < s.len() ==> "\"'*_`)]\u{2019}\u{201d}\u{bb}"@.contains(#[trigger] s[i])
}

/// Nothing but whitespace.
pub open spec fn white_only(s: Seq<char>) -> bool {
    forall|i: int| 0 <= i < s.len() ==> white(#[trigger] s[i])
}

/// The text up to its first `a` characters ends in a mark that ends a sentence; from there to `b` there
/// is only what may follow it, and then only whitespace.
pub open spec fn ends_at(s: Seq<char>, a: int, b: int) -> bool {
    &&& 0 < a <= b <= s.len()
    &&& ".!?\u{2026}"@.contains(s[a - 1])
    &&& closes_only(s.subrange(a, b))
    &&& white_only(s.subrange(b, s.len() as int))
}

proof fn lemma_trim_end_cuts(s: Seq<char>)
    ensures
        trim_end(s).len() <= s.len(),
        trim_end(s) == s.take(trim_end(s).len() as int),
        white_only(s.subrange(trim_end(s).len() as int, s.len() as int)),
        trim_end(s).len() > 0 ==> !white(trim_end(s).last()),
    decreases s.len(),
{
    if s.len() > 0 && white(s.last()) {
        let t = s.drop_last();
        lemma_trim_end_cuts(t);
        let n = trim_end(s).len() as int;
        assert(trim_end(s) =~= s.take(n));
        assert forall|i: int| 0 <= i < s.len() - n implies white(
            #[trigger] s.subrange(n, s.len() as int)[i],
        ) by {
            if i < t.len() - n {
                assert(t.subrange(n, t.len() as int)[i] == s[n + i]);
            }
        }
    } else {
        assert(trim_end(s) =~= s.take(s.len() as int));
    }
}

proof fn lemma_closing_marks(c: char)
    ensures
        closing(c) == "\"'*_`)]\u{2019}\u{201d}\u{bb}"@.contains(c),
        super::sampling::terminal(c) == ".!?\u{2026}"@.contains(c),
{
    reveal_strlit("\"'*_`)]\u{2019}\u{201d}\u{bb}");
    reveal_strlit(".!?\u{2026}");
    let m = "\"'*_`)]\u{2019}\u{201d}\u{bb}"@;
    assert(m[0] == '"' && m[1] == '\'' && m[2] == '*' && m[3] == '_' && m[4] == '`' && m[5] == ')'
        && m[6] == ']' && m[7] == '\u{2019}' && m[8] == '\u{201d}' && m[9] == '\u{bb}');
    let t = ".!?\u{2026}"@;
    assert(t[0] == '.' && t[1] == '!' && t[2] == '?' && t[3] == '\u{2026}');
}

proof fn lemma_unclosed_cuts(s: Seq<char>)
    ensures
        unclosed(s).len() <= s.len(),
        unclosed(s) == s.take(unclosed(s).len() as int),
        closes_only(s.subrange(unclosed(s).len() as int, s.len() as int)),
        unclosed(s).len() > 0 ==> !closing(unclosed(s).last()),
    decreases s.len(),
{
    if s.len() > 0 && closing(s.last()) {
        let t = s.drop_last();
        lemma_unclosed_cuts(t);
        let n = unclosed(s).len() as int;
        assert(unclosed(s) =~= s.take(n));
        lemma_closing_marks(s.last());
        assert forall|i: int| 0 <= i < s.len() - n implies "\"'*_`)]\u{2019}\u{201d}\u{bb}"@.contains(
            #[trigger] s.subrange(n, s.len() as int)[i],
        ) by {
            if i < t.len() - n {
                assert(t.subrange(n, t.len() as int)[i] == s[n + i]);
            }
        }
    } else {
        assert(unclosed(s) =~= s.take(s.len() as int));
    }
}

/// A text ends a sentence exactly where a full stop, an exclamation mark, a question mark or an ellipsis
/// comes last in it, but for quotes, emphasis and brackets that close behind it and whitespace behind
/// these.
pub proof fn lemma_where_a_sentence_ends(s: &str, r: bool)
    requires
        call_ensures(ends_sentence, (s,), r),
    ensures
        r == exists|a: int, b: int| #[trigger] ends_at(s@, a, b),
{
    let t = trim_end(s@);
    let u = unclosed(t);
    let b = t.len() as int;
    let a = u.len() as int;
    lemma_trim_end_cuts(s@);
    lemma_unclosed_cuts(t);
    assert(u =~= s@.take(a));
    if r {
        lemma_closing_marks(u.last());
        assert(s@.subrange(a, b) =~= t.subrange(a, b));
        assert(ends_at(s@, a, b));
    }
    if exists|a: int, b: int| #[trigger] ends_at(s@, a, b) {
        let (x, y) = choose|x: int, y: int| #[trigger] ends_at(s@, x, y);
        lemma_closing_marks(s@[x - 1]);
        lemma_marks_are_apart(s@[x - 1]);
        // Everything behind the mark is closing or white, so the cuts do not go past it.
        assert(b >= x) by {
            if b < x {
                assert(s@.subrange(b, s@.len() as int)[x - 1 - b] == s@[x - 1]);
                assert(white(s@[x - 1]));
            }
        }
        assert(a >= x) by {
            if a < x {
                assert(t.subrange(a, b)[x - 1 - a] == s@[x - 1]);
                assert(closing(s@[x - 1]));
            }
        }
        if a > x {
            let c = s@[a - 1];
            assert(u.last() == c);
            lemma_closing_marks(c);
            if a - 1 < y {
                assert(s@.subrange(x, y)[a - 1 - x] == c);
                assert(closing(c));
            } else {
                assert(s@.subrange(y, s@.len() as int)[a - 1 - y] == c);
                assert(white(c));
                // Behind white space only white space stands, so nothing was closed behind it.
                if b > a {
                    assert(s@[b - 1] == t.last());
                    assert(s@.subrange(y, s@.len() as int)[b - 1 - y] == s@[b - 1]);
                }
                assert(t.last() == c || b > a);
            }
        }
        assert(a == x);
        assert(u.last() == s@[x - 1]);
    }
}

proof fn lemma_marks_are_apart(c: char)
    requires
        super::sampling::terminal(c),
    ensures
        !closing(c),
        !white(c),
{
}

/// A reply stops before a token that ends the generation or is one of the two turn marks, as soon as it
/// has the length asked for and ends a sentence, and in any case 64 tokens later; nothing else stops it.
pub proof fn lemma_what_stops_a_reply<B: Backend>(
    engine: &B,
    v: LobeView,
    tok: Token,
    produced: nat,
    max: nat,
    out: Seq<char>,
)
    ensures
        engine.ends_generation(tok) || Some(tok) == v.eot || Some(tok) == v.sot ==> halts(
            engine,
            v,
            tok,
            produced,
            max,
            out,
        ),
        produced >= max + 64 ==> halts(engine, v, tok, produced, max, out),
        produced >= max && sentence_end(out) ==> halts(engine, v, tok, produced, max, out),
        !engine.ends_generation(tok) && Some(tok) != v.eot && Some(tok) != v.sot && produced < max
            ==> !halts(engine, v, tok, produced, max, out),
        !engine.ends_generation(tok) && Some(tok) != v.eot && Some(tok) != v.sot && produced < max + 64
            && !sentence_end(out) ==> !halts(engine, v, tok, produced, max, out),
{
}

/// The next token of a reply is sampled from the row at hand at the temperature and the nucleus that the
/// observer was set to, with the observer's own stream of numbers.
pub proof fn lemma_a_reply_is_sampled_as_it_was_set<B: Backend, N: Numerics>(
    engine: &B,
    num: &N,
    n_ctx: u32,
    cfg: LobeConfig,
    v: LobeView,
    row: Seq<F32>,
    rng: u64,
    tok: Token,
)
    requires
        v.icfg == fresh(engine, n_ctx, cfg).icfg,
        chosen(num, v, row, rng, tok),
    ensures
        sampled(num, row, cfg.interject_temp, cfg.interject_top_p, v.gen.rng, rng, tok),
        v.icfg.mode == cfg.interject_mode,
        v.icfg.ask_mode == cfg.ask_mode,
        v.icfg.novelty_mode == cfg.novelty_mode,
        v.icfg.max_hint == cfg.interject_max,
        v.icfg.prefill_chunk == if cfg.prefill_chunk == 0 {
            1
        } else {
            cfg.prefill_chunk
        },
{
}

// ---------------------------------------------------------------------------------------------
// Snippets
// ---------------------------------------------------------------------------------------------

proof fn lemma_head_within(s: Seq<char>, max: nat)
    ensures
        head_within(s, max).len() <= s.len(),
        head_within(s, max) == s.take(head_within(s, max).len() as int),
        byte_len(head_within(s, max)) <= max,
        forall|i: int|
            head_within(s, max).len() < i <= s.len() ==> byte_len(#[trigger] s.take(i)) > max,
    decreases s.len(),
{
    if byte_len(s) <= max || s.len() == 0 {
        assert(head_within(s, max) =~= s.take(s.len() as int));
    } else {
        let t = s.drop_last();
        lemma_head_within(t, max);
        let n = head_within(s, max).len() as int;
        assert(head_within(s, max) =~= s.take(n));
        assert forall|i: int| n < i <= s.len() implies byte_len(#[trigger] s.take(i)) > max by {
            if i < s.len() {
                assert(s.take(i) =~= t.take(i));
            } else {
                assert(s.take(i) =~= s);
            }
        }
    }
}

proof fn lemma_last_word_cut(s: Seq<char>, w: int)
    requires
        0 <= w < s.len(),
        white(s[w]),
    ensures
        w <= last_word_cut(s).len() < s.len(),
        last_word_cut(s) == s.take(last_word_cut(s).len() as int),
        white(s[last_word_cut(s).len() as int]),
        forall|i: int| last_word_cut(s).len() < i < s.len() ==> !white(#[trigger] s[i]),
    decreases s.len(),
{
    if white(s.last()) {
        assert(last_word_cut(s) =~= s.take(s.len() - 1));
    } else {
        let t = s.drop_last();
        assert(t[w] == s[w]);
        lemma_last_word_cut(t, w);
        let n = last_word_cut(s).len() as int;
        assert(last_word_cut(s) =~= s.take(n));
        assert forall|i: int| n < i < s.len() implies !white(#[trigger] s[i]) by {
            if i < t.len() {
                assert(t[i] == s[i]);
            }
        }
    }
}

/// A snippet is the head of the text and takes no more bytes than it may; a text that fits is kept
/// whole. A head that is cut ends before a whitespace, and at the last one that would have fitted; only
/// where none would is a word cut, at the last character that fits.
pub proof fn lemma_a_snippet_splits_no_word(s: &str, max: usize, r: &str)
    requires
        call_ensures(trim_snippet, (s, max), r),
    ensures
        r@.is_prefix_of(s@),
        vstd::utf8::encode_utf8(r@).len() <= max,
        vstd::utf8::encode_utf8(s@).len() <= max ==> r@ == s@,
        vstd::utf8::encode_utf8(s@).len() > max ==> {
            &&& r@.len() < s@.len()
            &&& forall|i: int|
                r@.len() < i < s@.len() && vstd::utf8::encode_utf8(#[trigger] s@.take(i + 1)).len()
                    <= max ==> !white(s@[i])
            &&& r@.len() == 0 || white(s@[r@.len() as int]) || vstd::utf8::encode_utf8(
                s@.take((r@.len() + 1) as int),
            ).len() > max
        },
        vstd::utf8::encode_utf8(s@).len() > max && vstd::utf8::encode_utf8(
            s@.take((r@.len() + 1) as int),
        ).len() <= max ==> r@.len() > 0 && white(s@[r@.len() as int]),
{
    let t = s@;
    let head = head_within(t, max as nat);
    lemma_head_within(t, max as nat);
    crate::text::lemma_byte_len_is_utf8_len(t);
    crate::text::lemma_byte_len_is_utf8_len(r@);
    let n = head.len() as int;
    assert forall|i: int| 0 <= i <= t.len() implies byte_len(#[trigger] t.take(i))
        == vstd::utf8::encode_utf8(t.take(i)).len() by {
        crate::text::lemma_byte_len_is_utf8_len(t.take(i));
    }
    if byte_len(t) > max {
        assert(t.take(t.len() as int) =~= t);
        if n == t.len() {
            assert(head =~= t);
        }
        if exists|i: int| 0 < i < head.len() && white(#[trigger] head[i]) {
            let w = choose|i: int| 0 < i < head.len() && white(#[trigger] head[i]);
            lemma_last_word_cut(head, w);
            let k = r@.len() as int;
            assert(r@ =~= t.take(k));
            crate::text::lemma_byte_len_prefix(t, k, n);
            assert(head[k] == t[k]);
            assert forall|i: int|
                k < i < t.len() && vstd::utf8::encode_utf8(#[trigger] t.take(i + 1)).len()
                    <= max implies !white(t[i]) by {
                if i < n {
                    assert(head[i] == t[i]);
                } else {
                    assert(byte_len(t.take(i + 1)) > max);
                }
            }
        } else {
            assert(r@ == head);
            assert forall|i: int|
                n < i < t.len() && vstd::utf8::encode_utf8(#[trigger] t.take(i + 1)).len()
                    <= max implies !white(t[i]) by {
                assert(byte_len(t.take(i + 1)) > max);
            }
            assert(byte_len(t.take(n + 1)) > max);
        }
    } else {
        assert(t.take(t.len() as int) =~= t);
    }
}

// ---------------------------------------------------------------------------------------------
// How an aside starts and what is fed with it
// ---------------------------------------------------------------------------------------------

/// Would the stream and an aside overrun the context? Beside the position, the ask and twice the reply
/// with its slack of 64 tokens, a step for each piece of the ask and 32 tokens to spare have to fit.
pub open spec fn overruns(v: LobeView, len: nat, max: nat) -> bool {
    v.pos + len + 2 * max + 160 + len / (v.icfg.prefill_chunk as nat) > v.n_ctx
}

/// An aside alongside the stream starts by dropping the scratch sequence. In the snippet mode its ask is
/// to be fed from position zero on. In the context mode the observation sequence is copied onto the
/// scratch sequence and the ask goes behind it; where the two would overrun the context and the policy
/// is to reset, the observation sequence is dropped and fed the preamble and the recent window before
/// that.
pub proof fn lemma_how_an_aside_starts<B: Backend>(
    engine: &B,
    v: LobeView,
    max: nat,
    recalled: Option<Seq<char>>,
    after: LobeView,
)
    requires
        started(engine, v, max, recalled, after),
    ensures
        after.gen.fused matches Some(FusedView::Prefill { ask, next, pos, max: m }) && {
            &&& ask.len() > 0
            &&& next == 0
            &&& m == max
            &&& v.icfg.mode is Snippet ==> {
                &&& engine.tokens_of(v.snippet_text(), true) == Some(ask)
                &&& pos == 0
                &&& after.pos == v.pos
                &&& after.calls == v.calls + seq![KvCall::Clear { seq: 1, ok: true }]
            }
            &&& v.icfg.mode is Context ==> {
                &&& engine.tokens_of(v.ask_text(recalled), false) == Some(ask)
                &&& pos == after.pos
                &&& v.window.evict == EvictMode::Reset && overruns(v, ask.len(), max) ==> {
                    &&& after.pos == v.window.preamble.len() + v.window.recent.len()
                    &&& after.calls == v.calls + seq![
                        KvCall::Clear { seq: 1, ok: true },
                        KvCall::Clear { seq: 0, ok: true },
                    ] + feeds(v.window.preamble + v.window.recent, 0, 0, 0) + seq![
                        KvCall::Copy { src: 0, dst: 1, ok: true },
                    ]
                }
                &&& v.window.evict != EvictMode::Reset || !overruns(v, ask.len(), max) ==> {
                    &&& after.pos == v.pos
                    &&& after.window == v.window
                    &&& after.calls == v.calls + seq![
                        KvCall::Clear { seq: 1, ok: true },
                        KvCall::Copy { src: 0, dst: 1, ok: true },
                    ]
                }
            }
        },
        after.gen.rng == v.gen.rng,
        after.memory == v.memory,
        after.firing == v.firing,
        after.recent == v.recent,
{
    match v.icfg.mode {
        InterjectMode::Snippet => {
            assert(after.calls =~= v.calls + seq![KvCall::Clear { seq: 1, ok: true }]);
        },
        InterjectMode::Context => {
            let ask = engine.tokens_of(v.ask_text(recalled), false)->Some_0;
            assert(v.crowded(ask.len(), max) == overruns(v, ask.len(), max));
            if v.window.evict == EvictMode::Reset && v.crowded(ask.len(), max) {
                assert(after.calls =~= v.calls + seq![
                    KvCall::Clear { seq: 1, ok: true },
                    KvCall::Clear { seq: 0, ok: true },
                ] + feeds(v.window.preamble + v.window.recent, 0, 0, 0) + seq![
                    KvCall::Copy { src: 0, dst: 1, ok: true },
                ]);
            } else {
                assert(after.calls =~= v.calls + seq![
                    KvCall::Clear { seq: 1, ok: true },
                    KvCall::Copy { src: 0, dst: 1, ok: true },
                ]);
            }
        },
    }
}

/// An aside that is pumped out alone begins in the same way: the scratch sequence is dropped, in the
/// context mode it takes over the observation sequence, and the ask is to go behind it.
pub proof fn lemma_how_an_aside_begins<B: Backend>(
    engine: &B,
    v: LobeView,
    max: nat,
    recalled: Option<Seq<char>>,
    after: LobeView,
)
    requires
        begun(engine, v, max, recalled, after),
    ensures
        after.gen.fsm matches Some(FsmView::Prefill { toks, start, max: m }) && {
            &&& toks.len() > 0
            &&& m == max
            &&& v.icfg.mode is Snippet ==> {
                &&& engine.tokens_of(v.snippet_text(), true) == Some(toks)
                &&& start == 0
                &&& after.calls == v.calls + seq![KvCall::Clear { seq: 1, ok: true }]
            }
            &&& v.icfg.mode is Context ==> {
                &&& engine.tokens_of(v.ask_text(recalled), false) == Some(toks)
                &&& start == v.pos
                &&& after.calls == v.calls + seq![
                    KvCall::Clear { seq: 1, ok: true },
                    KvCall::Copy { src: 0, dst: 1, ok: true },
                ]
            }
        },
        after.pos == v.pos,
        after.window == v.window,
        after.logits == v.logits,
        after.memory == v.memory,
        after.gen.rng == v.gen.rng,
        after.gen.fused == v.gen.fused,
{
    if v.icfg.mode is Snippet {
        assert(after.calls =~= v.calls + seq![KvCall::Clear { seq: 1, ok: true }]);
    } else {
        assert(after.calls =~= v.calls + seq![
            KvCall::Clear { seq: 1, ok: true },
            KvCall::Copy { src: 0, dst: 1, ok: true },
        ]);
    }
}

/// The less of two numbers.
pub open spec fn the_less(a: int, b: int) -> int {
    if a <= b {
        a
    } else {
        b
    }
}

/// Each step makes one pass. Its first entry is the stream token at the stream's position on sequence 0;
/// behind it go, on sequence 1, the next tokens of the ask, at most as many as a piece has, of which
/// only the last of the whole ask wants its distribution, or the token of the reply that was chosen
/// last. The distribution at hand is then the row of the stream token, and a token of the reply is
/// sampled from the row of the last entry.
pub proof fn lemma_what_a_step_feeds<B: Backend, N: Numerics>(
    engine: &B,
    num: &N,
    v: LobeView,
    tok: Token,
    after: LobeView,
    status: Progress,
)
    requires
        v.wf(),
        v.answers.len() == v.calls.len(),
        forwarded(engine, num, v, tok, after, status),
    ensures
        ({
            let n = v.calls.len() as int;
            let batch = after.calls[n]->Decode_batch;
            let rows = after.answers[n];
            &&& after.calls.len() > n
            &&& after.calls.take(n) == v.calls
            &&& after.calls[n] is Decode
            &&& batch[0] == (Decode { token: tok, pos: v.pos as i32, seq: 0, logits: true })
            &&& after.logits == rows[0]
            &&& after.pos == v.pos + 1
            &&& after.window == v.window.pushed(tok)
            &&& v.gen.fused is None ==> batch.len() == 1 && after.gen == v.gen
            &&& v.gen.fused matches Some(FusedView::Prefill { ask, next, pos, max }) ==> {
                let left = ask.len() - next;
                let k = the_less(v.icfg.prefill_chunk as int, left);
                &&& batch.len() == k + 1
                &&& forall|i: int|
                    1 <= i <= k ==> #[trigger] batch[i] == (Decode {
                        token: ask[next + i - 1],
                        pos: (pos + i - 1) as i32,
                        seq: 1,
                        logits: next + i == ask.len(),
                    })
                &&& next + k < ask.len() ==> after.gen.rng == v.gen.rng
                &&& next + k == ask.len() ==> exists|first: Token|
                    #[trigger] sampled(
                        num,
                        rows[k],
                        v.icfg.temp,
                        v.icfg.top_p,
                        v.gen.rng,
                        after.gen.rng,
                        first,
                    )
            }
            &&& v.gen.fused matches Some(FusedView::Reply { pending, pos, produced, max, out }) ==> {
                &&& batch.len() == 2
                &&& batch[1] == (Decode { token: pending, pos: pos as i32, seq: 1, logits: true })
                &&& exists|next: Token|
                    #[trigger] sampled(
                        num,
                        rows[1],
                        v.icfg.temp,
                        v.icfg.top_p,
                        v.gen.rng,
                        after.gen.rng,
                        next,
                    )
            }
        }),
{
    let n = v.calls.len() as int;
    let batch = batch_of(v.lanes(tok));
    let made = v.calls.push(KvCall::Decode { batch, ok: true });
    assert(made.take(n) =~= v.calls);
    assert(made.push(KvCall::Clear { seq: 1, ok: true }).take(n) =~= v.calls);
    assert(batch[0] == v.lanes(tok)[0].entry());
    assert forall|i: int| 1 <= i < batch.len() implies #[trigger] batch[i] == v.gen_lanes()[i
        - 1].entry() by {
        assert(v.lanes(tok)[i] == v.gen_lanes()[i - 1]);
    }
    let p = v.passed(tok, after.answers[n]);
    assert(p.calls == made);
    match v.gen.fused {
        None => {
            assert(v.gen_lanes().len() == 0);
            assert(batch.len() == 1);
            assert(after.calls == made);
            assert(after.calls[n] == KvCall::Decode { batch, ok: true });
        },
        Some(FusedView::Prefill { ask, next, pos, max }) => {
            let k = v.chunk_of(ask.len() - next);
            assert(k == the_less(v.icfg.prefill_chunk as int, ask.len() - next));
            let rows = after.answers[v.answers.len() as int];
            if next + k >= ask.len() {
                let first = choose|first: Token|
                    #[trigger] chosen(num, v, rows[k], after.gen.rng, first);
                assert(chosen(num, v, rows[k], after.gen.rng, first));
            }
        },
        Some(FusedView::Reply { pending, pos, produced, max, out }) => {
            let rows = after.answers[v.answers.len() as int];
            let next = choose|next: Token| #[trigger] chosen(num, v, rows[1], after.gen.rng, next);
            assert(chosen(num, v, rows[1], after.gen.rng, next));
        },
    }
}

/// One pump feeds the whole ask, or samples a token from the row that the last token left behind and
/// feeds it, one position on, unless the reply stops there.
pub proof fn lemma_what_a_pump_feeds<B: Backend, N: Numerics>(
    engine: &B,
    num: &N,
    v: LobeView,
    after: LobeView,
    status: Progress,
)
    requires
        pumped(engine, num, v, after, status),
    ensures
        v.gen.fsm is None ==> after == v && status == Progress::Idle,
        v.gen.fsm matches Some(FsmView::Prefill { toks, start, max }) ==> {
            &&& after.calls == v.calls + feeds(toks, 0, start, 1)
            &&& after.gen.rng == v.gen.rng
            &&& status == Progress::Working(Seq::empty())
            &&& after.gen.fsm matches Some(FsmView::Gen { pos, produced, max: m, out, logits }) && pos
                == start + toks.len() && produced == 0 && m == max && out.len() == 0
        },
        v.gen.fsm matches Some(FsmView::Gen { pos, produced, max, out, logits }) ==> exists|
            tok: Token,
        | {
            &&& #[trigger] sampled(
                num,
                logits,
                v.icfg.temp,
                v.icfg.top_p,
                v.gen.rng,
                after.gen.rng,
                tok,
            )
            &&& if halts(engine, v, tok, produced, max, out) {
                &&& status == Progress::Done(out)
                &&& after.gen.fsm is None
                &&& after.calls == v.calls.push(KvCall::Clear { seq: 1, ok: true })
            } else {
                &&& status == Progress::Working(out + engine.text_of(tok, Detok::Plain))
                &&& after.calls == v.calls + feeds(seq![tok], 0, pos, 1)
                &&& after.gen.fsm matches Some(
                    FsmView::Gen { pos: p, produced: n, max: m, out: o, logits: l },
                ) && p == pos + 1 && n == produced + 1 && m == max && o == out + engine.text_of(
                    tok,
                    Detok::Plain,
                ) && l == after.answers.last()[0]
            }
        },
{
    match v.gen.fsm {
        None => {},
        Some(FsmView::Prefill { toks, start, max }) => {},
        Some(FsmView::Gen { pos, produced, max, out, logits }) => {
            let tok = choose|tok: Token|
                #[trigger] chosen(num, v, logits, after.gen.rng, tok) && if halts(
                    engine,
                    v,
                    tok,
                    produced,
                    max,
                    out,
                ) {
                    &&& after == v.with_rng(after.gen.rng).with_fsm(None).scratched()
                    &&& status == Progress::Done(out)
                } else {
                    let so_far = out + engine.text_of(tok, Detok::Plain);
                    &&& status == Progress::Working(so_far)
                    &&& after == fed_scratch(
                        v.with_rng(after.gen.rng),
                        seq![tok],
                        pos,
                        after.answers,
                    ).with_fsm(
                        Some(
                            FsmView::Gen {
                                pos: pos + 1,
                                produced: produced + 1,
                                max,
                                out: so_far,
                                logits: last_row(after.answers, 1),
                            },
                        ),
                    )
                };
            assert(sampled(num, logits, v.icfg.temp, v.icfg.top_p, v.gen.rng, after.gen.rng, tok));
        },
    }
}

/// A new observer takes its settings over as they are given, has neither observed nor called anything,
/// and holds the engine's two turn marks as what ends a reply. A recent window and a piece of an ask have
/// at least one token. Without a seed both streams of numbers start where they always do; a seed is the
/// start of the sampler's stream, unless it is zero.
pub proof fn lemma_a_new_observer_is_as_it_was_set<B: Backend>(
    engine: &B,
    n_ctx: u32,
    cfg: LobeConfig,
)
    ensures
        ({
            let v = fresh(engine, n_ctx, cfg);
            &&& v.eot == engine.special("<turn|>"@)
            &&& v.sot == engine.special("<|turn>"@)
            &&& v.logits.len() == 0 && v.recent.len() == 0 && v.calls.len() == 0
            &&& v.pos == 0 && v.index == 0 && v.n_ctx == n_ctx
            &&& v.width == engine.vocab()
            &&& v.firing.signal == cfg.signal
            &&& v.firing.identifiers_only == cfg.identifiers_only
            &&& v.firing.refractory == 0
            &&& v.firing.period == cfg.refractory
            &&& v.firing.softness == cfg.fire_softness
            &&& v.window.evict == cfg.evict
            &&& v.window.settle == 0 && v.window.resets == 0
            &&& v.window.live().len() == 0 && v.window.recent.len() == 0
            &&& v.window.keep == if cfg.keep_recent == 0 {
                1
            } else {
                cfg.keep_recent
            }
            &&& v.memory.dedup == cfg.dedup
            &&& v.memory.asides.len() == 0 && v.memory.since.len() == 0
            &&& v.gen.fsm is None && v.gen.fused is None
            &&& cfg.seed is None ==> v.gen.rng == 0x9e37_79b9_7f4a_7c15 && v.firing.fire_rng
                == 0x2545_f491_4f6c_dd1d
            &&& cfg.seed == Some(0u64) ==> v.gen.rng == 0x9e37_79b9_7f4a_7c15
            &&& cfg.seed is Some && cfg.seed->Some_0 != 0 ==> v.gen.rng == cfg.seed->Some_0
            &&& cfg.seed is Some ==> {
                let a: u64 = v.gen.rng.wrapping_add(0x9e37_79b9_7f4a_7c15);
                let b: u64 = (a ^ (a >> 30)).wrapping_mul(0xbf58_476d_1ce4_e5b9);
                let c: u64 = (b ^ (b >> 27)).wrapping_mul(0x94d0_49bb_1331_11eb);
                let z: u64 = c ^ (c >> 31);
                v.firing.fire_rng == if z == 0 {
                    0x2545_f491_4f6c_dd1d
                } else {
                    z
                }
            }
        }),
{
}

/// Before it scores, a step takes the length hint over. It rebuilds the context exactly where that is due
/// and no aside is in flight; else the context is as it was.
pub proof fn lemma_a_step_resets_between_asides(v: LobeView, max: usize, g: LobeView)
    requires
        readied(v, max, g),
        0 <= v.n_ctx,
        v.window.resets < u64::MAX,
    ensures
        g.icfg.max_hint == max,
        g.icfg.temp == v.icfg.temp,
        g.icfg.top_p == v.icfg.top_p,
        g.icfg.mode == v.icfg.mode,
        g.gen == v.gen,
        g.memory == v.memory,
        g.firing == v.firing,
        g.index == v.index,
        g.recent == v.recent,
        v.gen.fused is None && v.window.evict == EvictMode::Reset && v.pos + 256 + 5 * max >= v.n_ctx
            && v.pos + (v.n_ctx * 3) / 4 >= v.n_ctx ==> {
            &&& g.window.resets == v.window.resets + 1
            &&& g.pos == v.window.preamble.len() + v.window.recent.len()
            &&& g.window.context == v.window.recent
            &&& g.calls == v.calls + seq![KvCall::Clear { seq: 0, ok: true }] + feeds(
                v.window.preamble + v.window.recent,
                0,
                0,
                0,
            )
        },
        v.gen.fused is Some || v.window.evict != EvictMode::Reset || v.pos + 256 + 5 * max < v.n_ctx
            || v.pos + (v.n_ctx * 3) / 4 < v.n_ctx ==> {
            &&& g.window == v.window
            &&& g.pos == v.pos
            &&& g.calls == v.calls
            &&& g.logits == v.logits
        },
{
    let h = LobeView { icfg: InterjectConfig { max_hint: max, ..v.icfg }, ..v };
    lemma_when_a_reset_is_due(h);
    if h.due() && h.gen.fused is None {
        assert(g.calls =~= v.calls + seq![KvCall::Clear { seq: 0, ok: true }] + feeds(
            v.window.preamble + v.window.recent,
            0,
            0,
            0,
        ));
    }
}

/// An observation feeds the token at the end of the observation sequence: behind the context as it
/// stands, or behind the preamble and the recent window where a reset was due.
pub proof fn lemma_what_an_observation_feeds(v: LobeView, tok: Token, answers: Answers)
    requires
        0 <= v.n_ctx,
        v.window.resets < u64::MAX,
    ensures
        ({
            let after = v.fed(tok, answers).counted(tok);
            let replayed = v.window.preamble + v.window.recent;
            &&& after.index == v.index + 1
            &&& after.logits == answers.last()[0]
            &&& v.due() ==> {
                &&& after.calls == v.calls + seq![KvCall::Clear { seq: 0, ok: true }] + feeds(
                    replayed,
                    0,
                    0,
                    0,
                ) + one_entry(tok, replayed.len() as int, 0)
                &&& after.pos == replayed.len() + 1
                &&& after.window.context == v.window.recent.push(tok)
                &&& after.window.settle == 16
                &&& after.window.resets == v.window.resets + 1
            }
            &&& !v.due() ==> {
                &&& after.calls == v.calls + one_entry(tok, v.pos, 0)
                &&& after.pos == v.pos + 1
                &&& after.window == v.window.pushed(tok)
            }
        }),
{
    let replayed = v.window.preamble + v.window.recent;
    let after = v.fed(tok, answers).counted(tok);
    if v.due() {
        assert(after.calls =~= v.calls + seq![KvCall::Clear { seq: 0, ok: true }] + feeds(
            replayed,
            0,
            0,
            0,
        ) + one_entry(tok, replayed.len() as int, 0));
    } else {
        assert(after.calls =~= v.calls + one_entry(tok, v.pos, 0));
    }
}

/// A pass with a single token that wants its distribution.
pub open spec fn one_entry(tok: Token, pos: int, seq: u32) -> Seq<KvCall> {
    seq![
        KvCall::Decode {
            batch: seq![Decode { token: tok, pos: pos as i32, seq, logits: true }],
            ok: true,
        },
    ]
}

/// A token can be taken exactly where the distribution at hand, if there is one, speaks of it, and the
/// position, the live context, the resets and the tokens can still be counted.
pub proof fn lemma_what_can_be_taken<'a, B: Backend>(lobe: &Lobe<'a, B>, tok: Token, r: bool)
    requires
        call_ensures(Lobe::<'a, B>::can_take, (lobe, tok), r),
    ensures
        r == {
            &&& lobe.pos < 0x7fff_ffff
            &&& lobe.window.preamble@.len() + lobe.window.context_ids@.len() < 0x7fff_ffff
            &&& lobe.window.resets <= 0xffff_ffff_ffff_fffd
            &&& lobe.stream_index < usize::MAX
            &&& lobe.last_logits@.len() == 0 || 0 <= tok.0 < lobe.session.width()
        },
{
}

/// The live context as text is that of the preamble and then of every stream token since the last reset,
/// each with its markers spelled out.
pub proof fn lemma_the_live_context_as_text<'a, B: Backend>(lobe: &Lobe<'a, B>, r: String)
    requires
        call_ensures(Lobe::<'a, B>::full_context_text, (lobe,), r),
    ensures
        r@ == (lobe.window.preamble@ + lobe.window.context_ids@).map_values(
            |t: Token| lobe.engine.text_of(t, Detok::Text),
        ).flatten(),
{
    lemma_concat_flattens(
        lobe@.window.live().map_values(|t: Token| lobe.engine.text_of(t, Detok::Text)),
    );
    assert(lobe@.window.live() == lobe.window.preamble@ + lobe.window.context_ids@);
}

/// What a frontend does with a token: where asides are on, a step with the length asked for, or where
/// nothing predicts the token yet, feeding it with nothing scored and no aside; where they are off, an
/// observation. The threshold and the number of expectations are those asked for.
pub proof fn lemma_what_a_frontend_does<B: Backend, N: Numerics, R: Fn(&str) -> Option<String>>(
    engine: &B,
    num: &N,
    retrieve: R,
    v: LobeView,
    tok: Token,
    stats: Welford,
    stats_after: Welford,
    z: F32,
    topk: nat,
    interject: Option<usize>,
    after: LobeView,
    step: Step,
    status: Progress,
)
    requires
        taken_on(
            engine,
            num,
            retrieve,
            v,
            tok,
            stats,
            stats_after,
            z,
            topk,
            interject,
            after,
            step,
            status,
        ),
    ensures
        v.logits.len() == 0 ==> {
            &&& status == Progress::Idle
            &&& step.stream_index == v.index
            &&& step.token_text@ == engine.text_of(tok, Detok::Text)
            &&& step.surprisal == F32(0) && step.entropy == F32(0) && step.z == F32(0)
            &&& !step.fired && step.trigger is None
            &&& stats_after == stats
            &&& after == v.noted(step.token_text@).fed(tok, after.answers).counted(tok)
        },
        interject is None ==> status == Progress::Idle && observed(
            engine,
            num,
            v,
            tok,
            stats,
            stats_after,
            z,
            topk,
            after,
            step,
        ),
        interject is Some && v.logits.len() > 0 ==> exists|out: StepOutcome|
            #[trigger] stepped(
                engine,
                num,
                retrieve,
                v,
                tok,
                stats,
                stats_after,
                z,
                topk,
                interject->Some_0,
                after,
                out,
            ) && out.step == step && out.interjection@ == status,
{
}

/// What an aside alongside the stream is about: it is started on the state that the pass of its token
/// left behind, with what was found for the text of that token.
pub proof fn lemma_what_an_aside_is_started_on<B: Backend, R: Fn(&str) -> Option<String>>(
    engine: &B,
    retrieve: R,
    f: LobeView,
    text: Seq<char>,
    max: nat,
    after: LobeView,
)
    requires
        kindled(engine, retrieve, f, text, max, after),
    ensures
        after.index == f.index + 1,
        exists|query: &str, found: Option<String>|
            query@ == text && #[trigger] retrieve.ensures((query,), found) && started(
                engine,
                f,
                max,
                match found {
                    Some(s) => Some(s@),
                    None => None,
                },
                LobeView { index: f.index, ..after },
            ),
{
    let recalled = choose|recalled: Option<Seq<char>>|
        #[trigger] recalls(retrieve, text, recalled) && started(
            engine,
            f,
            max,
            recalled,
            LobeView { index: f.index, ..after },
        ) && after.index == f.index + 1;
    let (query, found) = choose|query: &str, found: Option<String>|
        query@ == text && #[trigger] retrieve.ensures((query,), found) && recalled == match found {
            Some(s) => Some(s@),
            None => None,
        };
    assert(retrieve.ensures((query,), found));
}

// ---------------------------------------------------------------------------------------------
// Failures
// ---------------------------------------------------------------------------------------------

/// Did this call succeed?
pub open spec fn went_well(c: KvCall) -> bool {
    match c {
        KvCall::Decode { ok, .. } => ok,
        KvCall::Clear { ok, .. } => ok,
        KvCall::Copy { ok, .. } => ok,
    }
}

/// The two calls ask for the same.
pub open spec fn asks_alike(a: KvCall, b: KvCall) -> bool {
    match (a, b) {
        (KvCall::Decode { batch: x, .. }, KvCall::Decode { batch: y, .. }) => x == y,
        (KvCall::Clear { seq: x, .. }, KvCall::Clear { seq: y, .. }) => x == y,
        (KvCall::Copy { src: x, dst: z, .. }, KvCall::Copy { src: y, dst: w, .. }) => x == y && z == w,
        _ => false,
    }
}

/// Calls that were cut short went as planned up to one that failed, and nothing was called after it.
pub proof fn lemma_where_calls_were_cut_short(
    before: Seq<KvCall>,
    plan: Seq<KvCall>,
    after: Seq<KvCall>,
)
    requires
        cut_short(before, plan, after),
    ensures
        before.len() < after.len() <= before.len() + plan.len(),
        after.take(before.len() as int) == before,
        forall|i: int|
            before.len() <= i < after.len() - 1 ==> #[trigger] after[i] == plan[i - before.len()],
        asks_alike(after.last(), plan[after.len() - 1 - before.len()]),
        !went_well(after.last()),
{
    let k = choose|k: int|
        0 <= k < plan.len() && after == #[trigger] (before + plan.take(k)).push(failed(plan[k]));
    assert(after.take(before.len() as int) =~= before);
}

/// Calls that broke off: all that were made since succeeded but the last.
pub proof fn lemma_where_calls_broke_off(before: Seq<KvCall>, after: Seq<KvCall>)
    requires
        broke(before, after),
    ensures
        before.len() < after.len(),
        after.take(before.len() as int) == before,
        forall|i: int| before.len() <= i < after.len() - 1 ==> went_well(#[trigger] after[i]),
        !went_well(after.last()),
{
    assert forall|i: int| before.len() <= i < after.len() - 1 implies went_well(
        #[trigger] after[i],
    ) by {
        assert(after[i].succeeded());
    }
}

/// Why an ask could not be staged: it has no tokens; or the position where it would start, its tokens, the
/// length asked for and the slack come to more than can be counted; or else the engine failed, in a call
/// or at tokenizing it.
pub proof fn lemma_why_an_ask_is_not_staged<B: Backend>(
    engine: &B,
    v: LobeView,
    max: nat,
    recalled: Option<Seq<char>>,
    after: LobeView,
    e: LobeError,
)
    requires
        not_staged(engine, v, max, recalled, after, e),
    ensures
        ({
            let toks = if v.icfg.mode is Context {
                engine.tokens_of(v.ask_text(recalled), false)
            } else {
                engine.tokens_of(v.snippet_text(), true)
            };
            let start = if v.icfg.mode is Context {
                after.pos
            } else {
                0
            };
            &&& e is EmptyPrompt ==> toks == Some(Seq::<Token>::empty())
            &&& e is TooLong ==> toks is Some && start + toks->Some_0.len() + max + 65 > 0x7fff_ffff
            &&& e is Backend ==> toks is None || broke(v.calls, after.calls)
        }),
{
}

} // verus!
