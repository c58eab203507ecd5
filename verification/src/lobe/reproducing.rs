//! Reproducibility. Where the arithmetic answers one question in one way, the same state and the same
//! input give the same outcome: chance comes in only through the random streams, and they are part of
//! the state.

use super::firing::Firing;
use super::interject::{FsmView, Progress};
use super::laws::{
    lemma_aside_leaves_observation_alone, lemma_cells_after_call, lemma_step_unpacked,
    observes_alike, observes_alike_but_calls,
};
use super::model::{
    aside, batch_end, chosen, expectation, feeds, forwarded, pumped, scored, started, LobeView,
};
use super::observe::{advanced, kindled, observed, recalls};
use super::sampling::{
    drawn, falls_on, is_unit, lands, lemma_greedy_is_one, likelier, likeliest, nucleus, picked,
    ranked, sampled, shared, tallied, unit_shift, weighed,
};
use super::types::{Step, StepOutcome};
use crate::backend::{cells_of, Backend, Detok, KvCall, Token};
use crate::number::{F32, ZERO_BITS};
use crate::numerics::Numerics;
use crate::stats::Welford;
use vstd::arithmetic::power2::{lemma_pow2_strictly_increases, lemma_pow2_unfold, pow2};
use vstd::prelude::*;

verus! {

/// The arithmetic behind firing and sampling answers one question in one way.
pub open spec fn steady<N: Numerics>(num: &N) -> bool {
    &&& forall|z: F32, t: F32, s: F32, a: F32, b: F32| #[trigger]
        call_ensures(N::chance, (num, z, t, s), a) && #[trigger] call_ensures(
            N::chance,
            (num, z, t, s),
            b,
        ) ==> a == b
    &&& forall|x: F32, m: F32, t: F32, a: F32, b: F32| #[trigger]
        call_ensures(N::weight, (num, x, m, t), a) && #[trigger] call_ensures(
            N::weight,
            (num, x, m, t),
            b,
        ) ==> a == b
    &&& forall|x: F32, y: F32, a: F32, b: F32| #[trigger]
        call_ensures(N::plus, (num, x, y), a) && #[trigger] call_ensures(N::plus, (num, x, y), b)
            ==> a == b
    &&& forall|x: F32, y: F32, a: F32, b: F32| #[trigger]
        call_ensures(N::times, (num, x, y), a) && #[trigger] call_ensures(N::times, (num, x, y), b)
            ==> a == b
    &&& forall|x: F32, y: F32, a: F32, b: F32| #[trigger]
        call_ensures(N::over, (num, x, y), a) && #[trigger] call_ensures(N::over, (num, x, y), b)
            ==> a == b
}

/// The arithmetic behind scoring answers one question in one way, whichever copy of a row it is asked
/// about.
pub open spec fn steady_scores<N: Numerics>(num: &N) -> bool {
    &&& forall|r: Vec<F32>, s: Vec<F32>, t: Token, a: F32, b: F32|
        r@ == s@ && #[trigger] call_ensures(N::surprisal, (num, &r, t), a) && #[trigger] call_ensures(
            N::surprisal,
            (num, &s, t),
            b,
        ) ==> a == b
    &&& forall|r: Vec<F32>, s: Vec<F32>, a: F32, b: F32|
        r@ == s@ && #[trigger] call_ensures(N::entropy, (num, &r), a) && #[trigger] call_ensures(
            N::entropy,
            (num, &s),
            b,
        ) ==> a == b
    &&& forall|r: Vec<F32>, s: Vec<F32>, i: usize, a: F32, b: F32|
        r@ == s@ && #[trigger] call_ensures(N::share, (num, &r, i), a) && #[trigger] call_ensures(
            N::share,
            (num, &s, i),
            b,
        ) ==> a == b
    &&& forall|w: Welford, x: F32, a: F32, b: F32| #[trigger]
        call_ensures(N::z, (num, &w, x), a) && #[trigger] call_ensures(N::z, (num, &w, x), b) ==> a
            == b
    &&& forall|w: Welford, x: F32, a: (F32, F32), b: (F32, F32)| #[trigger]
        call_ensures(N::moments, (num, &w, x), a) && #[trigger] call_ensures(
            N::moments,
            (num, &w, x),
            b,
        ) ==> a == b
}

// ---------------------------------------------------------------------------------------------
// The random streams
// ---------------------------------------------------------------------------------------------

/// One state of a stream gives one next state and one number.
pub proof fn lemma_a_draw_is_reproducible(before: u64, a: u64, b: u64, f: F32, g: F32)
    requires
        drawn(before, a, f),
        drawn(before, b, g),
    ensures
        a == b,
        f == g,
{
    lemma_unit_is_one((a >> 40) as nat, f, g);
}

proof fn lemma_unit_is_one(n: nat, f: F32, g: F32)
    requires
        is_unit(n, f),
        is_unit(n, g),
    ensures
        f == g,
{
    if n > 0 {
        let j = choose|k: nat| #[trigger] unit_shift(n, k, f);
        let k = choose|k: nat| #[trigger] unit_shift(n, k, g);
        if j < k {
            lemma_shift_apart(n, j, k);
        } else if k < j {
            lemma_shift_apart(n, k, j);
        }
    }
}

/// A number shifted further is at least twice as great.
proof fn lemma_shift_apart(n: nat, j: nat, k: nat)
    requires
        j < k,
    ensures
        2 * (n * pow2(j)) <= n * pow2(k),
{
    lemma_pow2_unfold(j + 1);
    if j + 1 < k {
        lemma_pow2_strictly_increases(j + 1, k);
    }
    let p = pow2(j);
    let q = pow2(k);
    assert(2 * (n * p) <= n * q) by (nonlinear_arith)
        requires
            2 * p <= q,
    ;
}

// ---------------------------------------------------------------------------------------------
// Firing
// ---------------------------------------------------------------------------------------------

/// Firing is reproducible, under a soft threshold too: one state and one scored token give one decision
/// and one next state.
pub proof fn lemma_firing_is_reproducible<N: Numerics>(
    num: &N,
    firing: Firing,
    text: Seq<char>,
    z: F32,
    z_threshold: F32,
    warm: bool,
    suppressed: bool,
    next: (Firing, Firing),
    fired: (bool, bool),
)
    requires
        steady(num),
        firing.decided(num, text, z, z_threshold, warm, suppressed, next.0, fired.0),
        firing.decided(num, text, z, z_threshold, warm, suppressed, next.1, fired.1),
    ensures
        fired.0 == fired.1,
        next.0 == next.1,
{
    if firing.open_for(text, warm, suppressed) && !firing.softness.at_most(F32(ZERO_BITS)) {
        let (p, u) = choose|p: F32, u: F32|
            #[trigger] drawn(firing.fire_rng, next.0.fire_rng, u) && fired.0 == u.below(p)
                && #[trigger] call_ensures(N::chance, (num, z, z_threshold, firing.softness), p);
        let (q, w) = choose|q: F32, w: F32|
            #[trigger] drawn(firing.fire_rng, next.1.fire_rng, w) && fired.1 == w.below(q)
                && #[trigger] call_ensures(N::chance, (num, z, z_threshold, firing.softness), q);
        lemma_a_draw_is_reproducible(firing.fire_rng, next.0.fire_rng, next.1.fire_rng, u, w);
    }
}

// ---------------------------------------------------------------------------------------------
// Sampling
// ---------------------------------------------------------------------------------------------

/// A row has one list of its `k` likeliest places.
pub proof fn lemma_likeliest_is_one(row: Seq<F32>, k: nat, a: Seq<usize>, b: Seq<usize>)
    requires
        likeliest(row, k, a),
        likeliest(row, k, b),
    ensures
        a == b,
{
    lemma_likeliest_agree(row, k, a, b, a.len() as int);
    assert(a =~= b);
}

proof fn lemma_likeliest_agree(row: Seq<F32>, k: nat, a: Seq<usize>, b: Seq<usize>, n: int)
    requires
        likeliest(row, k, a),
        likeliest(row, k, b),
        0 <= n <= a.len(),
    ensures
        forall|i: int| 0 <= i < n ==> a[i] == b[i],
    decreases n,
{
    if n > 0 {
        let i = n - 1;
        lemma_likeliest_agree(row, k, a, b, i);
        if a[i] != b[i] {
            lemma_comes_first(row, k, a, b, i);
            lemma_comes_first(row, k, b, a, i);
        }
    }
}

/// Where two such lists part, what stands in one is likelier than what stands in the other.
proof fn lemma_comes_first(row: Seq<F32>, k: nat, a: Seq<usize>, b: Seq<usize>, i: int)
    requires
        likeliest(row, k, a),
        likeliest(row, k, b),
        0 <= i < a.len(),
        forall|j: int| 0 <= j < i ==> a[j] == b[j],
        a[i] != b[i],
    ensures
        likelier(row, b[i] as int, a[i] as int),
{
    let p = a[i];
    if b.contains(p) {
        let j = choose|j: int| 0 <= j < b.len() && b[j] == p;
        if j < i {
            assert(likelier(row, a[j] as int, a[i] as int));
        }
        assert(likelier(row, b[i] as int, b[j] as int));
    } else {
        assert(likelier(row, b[i] as int, p as int));
    }
}

/// Distinct numbers below `n` are at most `n`.
proof fn lemma_distinct_below(s: Seq<usize>, n: nat)
    requires
        forall|i: int| 0 <= i < s.len() ==> #[trigger] s[i] < n,
        forall|i: int, j: int| 0 <= i < j < s.len() ==> #[trigger] s[i] != #[trigger] s[j],
    ensures
        s.len() <= n,
    decreases n,
{
    if s.len() > 0 {
        assert(s[0] < n);
        let p = (n - 1) as usize;
        if s.contains(p) {
            let w = choose|w: int| 0 <= w < s.len() && s[w] == p;
            let rest = s.remove(w);
            assert forall|i: int| 0 <= i < rest.len() implies #[trigger] rest[i] < n - 1 by {
                if i < w {
                    assert(s[i] != s[w]);
                } else {
                    assert(s[w] != s[i + 1]);
                }
            }
            lemma_distinct_below(rest, (n - 1) as nat);
        } else {
            assert forall|i: int| 0 <= i < s.len() implies #[trigger] s[i] < n - 1 by {
                assert(s.contains(s[i]));
            }
            lemma_distinct_below(s, (n - 1) as nat);
        }
    }
}

/// All places of a row in order are as many of its likeliest as there are.
pub proof fn lemma_ranked_is_likeliest(row: Seq<F32>, ids: Seq<usize>)
    requires
        ranked(row, ids),
    ensures
        likeliest(row, row.len(), ids),
{
    assert forall|p: usize, i: int|
        p < row.len() && 0 <= i < ids.len() && !#[trigger] ids.contains(p) implies likelier(
        row,
        #[trigger] ids[i] as int,
        p as int,
    ) by {
        let more = ids.push(p);
        assert forall|i: int, j: int| 0 <= i < j < more.len() implies #[trigger] more[i]
            != #[trigger] more[j] by {
            if j < ids.len() {
                assert(likelier(row, ids[i] as int, ids[j] as int));
            } else {
                assert(ids.contains(ids[i]));
            }
        }
        lemma_distinct_below(more, row.len());
    }
}

/// One list of weights has one list of running sums.
proof fn lemma_tally_is_one<N: Numerics>(num: &N, ws: Seq<F32>, a: Seq<F32>, b: Seq<F32>, n: int)
    requires
        steady(num),
        tallied(num, ws, a),
        tallied(num, ws, b),
        0 <= n <= ws.len(),
    ensures
        forall|i: int| 0 <= i <= n ==> a[i] == b[i],
    decreases n,
{
    if n > 0 {
        lemma_tally_is_one(num, ws, a, b, n - 1);
        let w = ws[n - 1];
        assert(call_ensures(N::plus, (num, a[n - 1], w), a[n - 1 + 1]));
        assert(call_ensures(N::plus, (num, b[n - 1], w), b[n - 1 + 1]));
    }
}

/// The running sums of the shares agree as far as both go.
proof fn lemma_shares_agree<N: Numerics>(
    num: &N,
    ws: Seq<F32>,
    total: F32,
    top_p: F32,
    a: Seq<F32>,
    b: Seq<F32>,
    cut: (int, int),
    n: int,
)
    requires
        steady(num),
        nucleus(num, ws, total, top_p, a, cut.0),
        nucleus(num, ws, total, top_p, b, cut.1),
        0 <= n <= cut.0,
        n <= cut.1,
    ensures
        forall|i: int| 0 <= i <= n ==> a[i] == b[i],
    decreases n,
{
    if n > 0 {
        lemma_shares_agree(num, ws, total, top_p, a, b, cut, n - 1);
        let w = ws[n - 1];
        assert(shared(num, a[n - 1], w, total, a[n - 1 + 1]));
        assert(shared(num, b[n - 1], w, total, b[n - 1 + 1]));
    }
}

/// One nucleus of a list of weights is the nucleus.
proof fn lemma_nucleus_is_one<N: Numerics>(
    num: &N,
    ws: Seq<F32>,
    total: F32,
    top_p: F32,
    a: Seq<F32>,
    b: Seq<F32>,
    cut: (int, int),
)
    requires
        steady(num),
        nucleus(num, ws, total, top_p, a, cut.0),
        nucleus(num, ws, total, top_p, b, cut.1),
    ensures
        cut.0 == cut.1,
{
    let n = if cut.0 <= cut.1 {
        cut.0
    } else {
        cut.1
    };
    lemma_shares_agree(num, ws, total, top_p, a, b, cut, n);
    assert(a[n] == b[n]);
}

/// One draw falls on one place.
proof fn lemma_fall_is_one<N: Numerics>(
    num: &N,
    row: Seq<F32>,
    temp: F32,
    top_p: F32,
    unit: F32,
    ids: Seq<usize>,
    cut: (int, int),
    j: (int, int),
)
    requires
        steady(num),
        falls_on(num, row, temp, top_p, unit, ids, cut.0, j.0),
        falls_on(num, row, temp, top_p, unit, ids, cut.1, j.1),
    ensures
        j.0 == j.1,
{
    let (ws, sums, cums, goal) = choose|ws: Seq<F32>, sums: Seq<F32>, cums: Seq<F32>, goal: F32|
        {
            &&& #[trigger] weighed(num, row, temp, ids, ws)
            &&& #[trigger] tallied(num, ws, sums)
            &&& #[trigger] nucleus(num, ws, sums.last(), top_p, cums, cut.0)
            &&& call_ensures(N::times, (num, unit, sums[cut.0]), goal)
            &&& #[trigger] lands(sums, cut.0, goal, j.0)
        };
    let (ws2, sums2, cums2, goal2) = choose|ws: Seq<F32>, sums: Seq<F32>, cums: Seq<F32>, goal: F32|
        {
            &&& #[trigger] weighed(num, row, temp, ids, ws)
            &&& #[trigger] tallied(num, ws, sums)
            &&& #[trigger] nucleus(num, ws, sums.last(), top_p, cums, cut.1)
            &&& call_ensures(N::times, (num, unit, sums[cut.1]), goal)
            &&& #[trigger] lands(sums, cut.1, goal, j.1)
        };
    assert forall|i: int| 0 <= i < ws.len() implies ws[i] == ws2[i] by {
        assert(call_ensures(
            N::weight,
            (num, row[ids[i] as int], row[ids[0] as int], temp),
            ws[i],
        ));
        assert(call_ensures(
            N::weight,
            (num, row[ids[i] as int], row[ids[0] as int], temp),
            ws2[i],
        ));
    }
    assert(ws =~= ws2);
    lemma_tally_is_one(num, ws, sums, sums2, ws.len() as int);
    assert(sums =~= sums2);
    lemma_nucleus_is_one(num, ws, sums.last(), top_p, cums, cums2, cut);
    if j.0 < j.1 {
        assert(!goal.at_most(sums[j.0 + 1]));
    } else if j.1 < j.0 {
        assert(!goal.at_most(sums[j.1 + 1]));
    }
}

/// Sampling is reproducible: one row, one temperature, one nucleus and one state of the stream give
/// one token and one next state.
pub proof fn lemma_sampling_is_reproducible<N: Numerics>(
    num: &N,
    row: Seq<F32>,
    temp: F32,
    top_p: F32,
    before: u64,
    after: (u64, u64),
    t: (Token, Token),
)
    requires
        steady(num),
        sampled(num, row, temp, top_p, before, after.0, t.0),
        sampled(num, row, temp, top_p, before, after.1, t.1),
    ensures
        after.0 == after.1,
        t.0 == t.1,
{
    if temp.at_most(F32(ZERO_BITS)) {
        lemma_greedy_is_one(row, t.0.0 as int, t.1.0 as int);
    } else {
        let u = choose|u: F32|
            drawn(before, after.0, u) && #[trigger] picked(num, row, temp, top_p, u, t.0);
        let w = choose|w: F32|
            drawn(before, after.1, w) && #[trigger] picked(num, row, temp, top_p, w, t.1);
        lemma_a_draw_is_reproducible(before, after.0, after.1, u, w);
        let (a, c, i) = choose|ids: Seq<usize>, cut: int, j: int|
            {
                &&& ranked(row, ids)
                &&& #[trigger] falls_on(num, row, temp, top_p, u, ids, cut, j)
                &&& 0 <= j < cut <= ids.len()
                &&& t.0.0 == ids[j]
            };
        let (b, d, j) = choose|ids: Seq<usize>, cut: int, j: int|
            {
                &&& ranked(row, ids)
                &&& #[trigger] falls_on(num, row, temp, top_p, w, ids, cut, j)
                &&& 0 <= j < cut <= ids.len()
                &&& t.1.0 == ids[j]
            };
        lemma_ranked_is_likeliest(row, a);
        lemma_ranked_is_likeliest(row, b);
        lemma_likeliest_is_one(row, row.len(), a, b);
        lemma_fall_is_one(num, row, temp, top_p, u, a, (c, d), (i, j));
    }
}

// ---------------------------------------------------------------------------------------------
// Observing
// ---------------------------------------------------------------------------------------------

/// Two steps say the same, down to the bits of their numbers.
pub open spec fn says_the_same(a: Step, b: Step) -> bool {
    &&& a.stream_index == b.stream_index
    &&& a.token_text@ == b.token_text@
    &&& a.surprisal == b.surprisal
    &&& a.entropy == b.entropy
    &&& a.z == b.z
    &&& a.fired == b.fired
    &&& match (a.trigger, b.trigger) {
        (Some(s), Some(t)) => {
            &&& s.stream_index == t.stream_index
            &&& s.token_text@ == t.token_text@
            &&& s.surprisal == t.surprisal
            &&& s.entropy == t.entropy
            &&& s.z == t.z
            &&& expects_the_same(s.expected@, t.expected@)
        },
        (None, None) => true,
        _ => false,
    }
}

/// Two lists of expected tokens hold the same texts with the same probabilities.
pub open spec fn expects_the_same(a: Seq<(String, F32)>, b: Seq<(String, F32)>) -> bool {
    &&& a.len() == b.len()
    &&& forall|i: int|
        0 <= i < a.len() ==> (#[trigger] a[i]).0@ == (#[trigger] b[i]).0@ && a[i].1 == b[i].1
}

proof fn lemma_expectation_is_reproducible<B: Backend, N: Numerics>(
    engine: &B,
    num: &N,
    rows: (Vec<F32>, Vec<F32>),
    k: nat,
    a: Seq<(String, F32)>,
    b: Seq<(String, F32)>,
)
    requires
        steady_scores(num),
        rows.0@ == rows.1@,
        expectation(engine, num, rows.0, k, a),
        expectation(engine, num, rows.1, k, b),
    ensures
        expects_the_same(a, b),
{
    let ids = choose|ids: Seq<usize>|
        #[trigger] likeliest(rows.0@, k, ids) && a.len() == ids.len() && forall|i: int|
            0 <= i < ids.len() ==> (#[trigger] a[i]).0@ == engine.text_of(
                Token(ids[i] as i32),
                Detok::Text,
            ) && call_ensures(N::share, (num, &rows.0, ids[i]), a[i].1);
    let ids2 = choose|ids: Seq<usize>|
        #[trigger] likeliest(rows.1@, k, ids) && b.len() == ids.len() && forall|i: int|
            0 <= i < ids.len() ==> (#[trigger] b[i]).0@ == engine.text_of(
                Token(ids[i] as i32),
                Detok::Text,
            ) && call_ensures(N::share, (num, &rows.1, ids[i]), b[i].1);
    lemma_likeliest_is_one(rows.0@, k, ids, ids2);
    assert forall|i: int| 0 <= i < a.len() implies (#[trigger] a[i]).0@ == (#[trigger] b[i]).0@
        && a[i].1 == b[i].1 by {
        assert(call_ensures(N::share, (num, &rows.0, ids[i]), a[i].1));
        assert(call_ensures(N::share, (num, &rows.1, ids[i]), b[i].1));
    }
}

/// Scoring is reproducible: two observers that observe alike, with one baseline and one threshold, say
/// the same of a token, take the same into the baseline, and go on observing alike.
pub proof fn lemma_scoring_is_reproducible<B: Backend, N: Numerics>(
    engine: &B,
    num: &N,
    v: (LobeView, LobeView),
    row: (Vec<F32>, Vec<F32>),
    tok: Token,
    stats: Welford,
    stats_after: (Welford, Welford),
    z_threshold: F32,
    topk: nat,
    after: (LobeView, LobeView),
    step: (Step, Step),
)
    requires
        steady(num),
        steady_scores(num),
        observes_alike_but_calls(v.0, v.1),
        scored(
            engine,
            num,
            v.0,
            row.0,
            tok,
            stats,
            stats_after.0,
            z_threshold,
            topk,
            after.0,
            step.0,
        ),
        scored(
            engine,
            num,
            v.1,
            row.1,
            tok,
            stats,
            stats_after.1,
            z_threshold,
            topk,
            after.1,
            step.1,
        ),
    ensures
        says_the_same(step.0, step.1),
        stats_after.0 == stats_after.1,
        observes_alike_but_calls(after.0, after.1),
{
    let text = engine.text_of(tok, Detok::Text);
    lemma_firing_is_reproducible(
        num,
        v.0.firing,
        text,
        step.0.z,
        z_threshold,
        stats_after.0.is_warm(),
        v.0.window.settle > 0,
        (after.0.firing, after.1.firing),
        (step.0.fired, step.1.fired),
    );
    if step.0.fired {
        lemma_expectation_is_reproducible(
            engine,
            num,
            row,
            topk,
            step.0.trigger->0.expected@,
            step.1.trigger->0.expected@,
        );
    }
}

/// Calls that fork nothing make of one sequence what they make of it anywhere.
proof fn lemma_same_calls_same_cells(a: Seq<KvCall>, b: Seq<KvCall>, plan: Seq<KvCall>, seq: u32)
    requires
        cells_of(a, seq) == cells_of(b, seq),
        forall|i: int| 0 <= i < plan.len() ==> !((#[trigger] plan[i]) is Copy),
    ensures
        cells_of(a + plan, seq) == cells_of(b + plan, seq),
    decreases plan.len(),
{
    if plan.len() == 0 {
        assert(a + plan =~= a);
        assert(b + plan =~= b);
    } else {
        let head = plan.drop_last();
        lemma_same_calls_same_cells(a, b, head, seq);
        assert(a + plan =~= (a + head).push(plan.last()));
        assert(b + plan =~= (b + head).push(plan.last()));
        lemma_cells_after_call(a + head, plan.last(), seq);
        lemma_cells_after_call(b + head, plan.last(), seq);
        assert(plan[plan.len() - 1] == plan.last());
    }
}

proof fn lemma_feeds_fork_nothing(toks: Seq<Token>, from: int, base: int, seq: u32)
    ensures
        forall|i: int|
            0 <= i < feeds(toks, from, base, seq).len() ==> !((#[trigger] feeds(
                toks,
                from,
                base,
                seq,
            )[i]) is Copy),
    decreases toks.len() - from,
{
    if 0 <= from < toks.len() {
        let to = batch_end(toks.len() as int, from);
        lemma_feeds_fork_nothing(toks, to, base, seq);
        let all = feeds(toks, from, base, seq);
        let rest = feeds(toks, to, base, seq);
        assert forall|i: int| 0 <= i < all.len() implies !((#[trigger] all[i]) is Copy) by {
            if i > 0 {
                assert(all[i] == rest[i - 1]);
            }
        }
    }
}

/// The engine answers by what the observation sequence holds: where two passes over the stream left it
/// with the same cells, they answered with the same row.
pub open spec fn answers_alike(v: LobeView, w: LobeView) -> bool {
    cells_of(v.calls, 0) == cells_of(w.calls, 0) ==> v.answers.last()[0] == w.answers.last()[0]
}

/// Observing is reproducible: two observers that observe alike, with one baseline and one threshold,
/// say the same of a token; and on an engine that answers by what the observation sequence holds they
/// go on observing alike.
pub proof fn lemma_observing_is_reproducible<B: Backend, N: Numerics>(
    engine: &B,
    num: &N,
    v: (LobeView, LobeView),
    tok: Token,
    stats: Welford,
    stats_after: (Welford, Welford),
    z_threshold: F32,
    topk: nat,
    after: (LobeView, LobeView),
    step: (Step, Step),
)
    requires
        steady(num),
        steady_scores(num),
        observes_alike(v.0, v.1),
        observed(
            engine,
            num,
            v.0,
            tok,
            stats,
            stats_after.0,
            z_threshold,
            topk,
            after.0,
            step.0,
        ),
        observed(
            engine,
            num,
            v.1,
            tok,
            stats,
            stats_after.1,
            z_threshold,
            topk,
            after.1,
            step.1,
        ),
        answers_alike(after.0, after.1),
    ensures
        says_the_same(step.0, step.1),
        stats_after.0 == stats_after.1,
        observes_alike(after.0, after.1),
{
    let text = engine.text_of(tok, Detok::Text);
    let (a, b) = if v.0.logits.len() == 0 {
        (v.0.noted(text), v.1.noted(text))
    } else {
        let (row, a) = choose|row: Vec<F32>, a: LobeView|
            #[trigger] scored(
                engine,
                num,
                v.0,
                row,
                tok,
                stats,
                stats_after.0,
                z_threshold,
                topk,
                a,
                step.0,
            ) && after.0 == a.fed(tok, after.0.answers).counted(tok);
        let (row2, b) = choose|row: Vec<F32>, a: LobeView|
            #[trigger] scored(
                engine,
                num,
                v.1,
                row,
                tok,
                stats,
                stats_after.1,
                z_threshold,
                topk,
                a,
                step.1,
            ) && after.1 == a.fed(tok, after.1.answers).counted(tok);
        lemma_scoring_is_reproducible(
            engine,
            num,
            v,
            (row, row2),
            tok,
            stats,
            stats_after,
            z_threshold,
            topk,
            (a, b),
            step,
        );
        (a, b)
    };
    let plan = a.fed_calls(tok);
    lemma_feeds_fork_nothing(a.window.replay(), 0, 0, 0);
    assert forall|i: int| 0 <= i < plan.len() implies !((#[trigger] plan[i]) is Copy) by {
        let replay = feeds(a.window.replay(), 0, 0, 0);
        if a.due() && 0 < i <= replay.len() {
            assert(plan[i] == replay[i - 1]);
        }
    }
    lemma_same_calls_same_cells(a.calls, b.calls, plan, 0);
}

/// A stream that is observed from state to state, with the baseline before and after each token and
/// what was said of it.
pub open spec fn read_through<B: Backend, N: Numerics>(
    engine: &B,
    num: &N,
    states: Seq<LobeView>,
    toks: Seq<Token>,
    stats: Seq<Welford>,
    z_threshold: F32,
    topk: nat,
    steps: Seq<Step>,
) -> bool {
    &&& states.len() == toks.len() + 1
    &&& stats.len() == toks.len() + 1
    &&& steps.len() == toks.len()
    &&& forall|i: int|
        0 <= i < toks.len() ==> observed(
            engine,
            num,
            states[i],
            #[trigger] toks[i],
            stats[i],
            stats[i + 1],
            z_threshold,
            topk,
            states[i + 1],
            steps[i],
        )
}

/// Reading a stream is reproducible: two observers that observe alike, on an engine that answers by
/// what the observation sequence holds, say the same of every token of it.
pub proof fn lemma_reading_is_reproducible<B: Backend, N: Numerics>(
    engine: &B,
    num: &N,
    states: (Seq<LobeView>, Seq<LobeView>),
    toks: Seq<Token>,
    stats: (Seq<Welford>, Seq<Welford>),
    z_threshold: F32,
    topk: nat,
    steps: (Seq<Step>, Seq<Step>),
    n: int,
)
    requires
        steady(num),
        steady_scores(num),
        read_through(engine, num, states.0, toks, stats.0, z_threshold, topk, steps.0),
        read_through(engine, num, states.1, toks, stats.1, z_threshold, topk, steps.1),
        observes_alike(states.0[0], states.1[0]),
        stats.0[0] == stats.1[0],
        forall|i: int|
            0 < i <= toks.len() ==> answers_alike(#[trigger] states.0[i], #[trigger] states.1[i]),
        0 <= n <= toks.len(),
    ensures
        forall|i: int|
            0 <= i < n ==> says_the_same(#[trigger] steps.0[i], #[trigger] steps.1[i]),
        stats.0[n] == stats.1[n],
        observes_alike(states.0[n], states.1[n]),
    decreases n,
{
    if n > 0 {
        let k = n - 1;
        lemma_reading_is_reproducible(
            engine,
            num,
            states,
            toks,
            stats,
            z_threshold,
            topk,
            steps,
            k,
        );
        let tok = toks[k];
        assert(answers_alike(states.0[n], states.1[n]));
        lemma_observing_is_reproducible(
            engine,
            num,
            (states.0[k], states.1[k]),
            tok,
            stats.0[k],
            (stats.0[k + 1], stats.1[k + 1]),
            z_threshold,
            topk,
            (states.0[k + 1], states.1[k + 1]),
            (steps.0[k], steps.1[k]),
        );
    }
}

/// The stream does not notice an aside: what is said of every token that follows is, down to the bits
/// of its numbers, what would have been said without the aside.
pub proof fn lemma_an_aside_goes_unnoticed<B: Backend, N: Numerics>(
    engine: &B,
    num: &N,
    v: LobeView,
    max: nat,
    recalled: Option<Seq<char>>,
    after: LobeView,
    text: Seq<char>,
    states: (Seq<LobeView>, Seq<LobeView>),
    toks: Seq<Token>,
    stats: (Seq<Welford>, Seq<Welford>),
    z_threshold: F32,
    topk: nat,
    steps: (Seq<Step>, Seq<Step>),
)
    requires
        steady(num),
        steady_scores(num),
        aside(engine, num, v, max, recalled, after, text),
        read_through(engine, num, states.0, toks, stats.0, z_threshold, topk, steps.0),
        read_through(engine, num, states.1, toks, stats.1, z_threshold, topk, steps.1),
        states.0[0] == v,
        states.1[0] == after,
        stats.0[0] == stats.1[0],
        forall|i: int|
            0 < i <= toks.len() ==> answers_alike(#[trigger] states.0[i], #[trigger] states.1[i]),
    ensures
        forall|i: int|
            0 <= i < toks.len() ==> says_the_same(#[trigger] steps.0[i], #[trigger] steps.1[i]),
        stats.0.last() == stats.1.last(),
{
    lemma_aside_leaves_observation_alone(engine, num, v, max, recalled, after, text);
    lemma_reading_is_reproducible(
        engine,
        num,
        states,
        toks,
        stats,
        z_threshold,
        topk,
        steps,
        toks.len() as int,
    );
}

// ---------------------------------------------------------------------------------------------
// Asides
// ---------------------------------------------------------------------------------------------

/// A pump is reproducible: one state gives one next state and one status, where the engine answers the
/// same.
pub proof fn lemma_pumping_is_reproducible<B: Backend, N: Numerics>(
    engine: &B,
    num: &N,
    v: LobeView,
    after: (LobeView, LobeView),
    status: (Progress, Progress),
)
    requires
        steady(num),
        pumped(engine, num, v, after.0, status.0),
        pumped(engine, num, v, after.1, status.1),
        after.0.answers == after.1.answers,
    ensures
        after.0 == after.1,
        status.0 == status.1,
{
    if let Some(FsmView::Gen { pos, produced, max, out, logits }) = v.gen.fsm {
        assert forall|s: Token, t: Token| #[trigger]
            chosen(num, v, logits, after.0.gen.rng, s) && #[trigger] chosen(
                num,
                v,
                logits,
                after.1.gen.rng,
                t,
            ) implies after.0.gen.rng == after.1.gen.rng && s == t by {
            lemma_sampling_is_reproducible(
                num,
                logits,
                v.icfg.temp,
                v.icfg.top_p,
                v.gen.rng,
                (after.0.gen.rng, after.1.gen.rng),
                (s, t),
            );
        }
    }
}

/// The pass of a fused step is reproducible: one state and one token give one next state and one
/// status, where the engine answers the pass the same.
pub proof fn lemma_forwarding_is_reproducible<B: Backend, N: Numerics>(
    engine: &B,
    num: &N,
    v: LobeView,
    tok: Token,
    after: (LobeView, LobeView),
    status: (Progress, Progress),
)
    requires
        steady(num),
        forwarded(engine, num, v, tok, after.0, status.0),
        forwarded(engine, num, v, tok, after.1, status.1),
        after.0.answers[v.answers.len() as int] == after.1.answers[v.answers.len() as int],
    ensures
        after.0 == after.1,
        status.0 == status.1,
{
    assert forall|row: Seq<F32>, s: Token, t: Token| #[trigger]
        chosen(num, v, row, after.0.gen.rng, s) && #[trigger] chosen(
            num,
            v,
            row,
            after.1.gen.rng,
            t,
        ) implies after.0.gen.rng == after.1.gen.rng && s == t by {
        lemma_sampling_is_reproducible(
            num,
            row,
            v.icfg.temp,
            v.icfg.top_p,
            v.gen.rng,
            (after.0.gen.rng, after.1.gen.rng),
            (s, t),
        );
    }
}

/// What is looked up for one text is one passage, or none.
pub open spec fn steady_search<R: Fn(&str) -> Option<String>>(retrieve: R) -> bool {
    forall|text: Seq<char>, a: Option<Seq<char>>, b: Option<Seq<char>>| #[trigger]
        recalls(retrieve, text, a) && #[trigger] recalls(retrieve, text, b) ==> a == b
}

/// A fused step is reproducible: one state, one baseline and one token give one next state and one
/// baseline, and the same is said of the token and of the aside, where the engine answers the same and
/// the same is looked up.
pub proof fn lemma_stepping_is_reproducible<B: Backend, N: Numerics, R: Fn(&str) -> Option<String>>(
    engine: &B,
    num: &N,
    retrieve: R,
    v: LobeView,
    tok: Token,
    stats: Welford,
    stats_after: (Welford, Welford),
    z_threshold: F32,
    topk: nat,
    max: usize,
    after: (LobeView, LobeView),
    out: (StepOutcome, StepOutcome),
)
    requires
        steady(num),
        steady_scores(num),
        steady_search(retrieve),
        advanced(
            engine,
            num,
            retrieve,
            v,
            tok,
            stats,
            stats_after.0,
            z_threshold,
            topk,
            max,
            after.0,
            out.0,
        ),
        advanced(
            engine,
            num,
            retrieve,
            v,
            tok,
            stats,
            stats_after.1,
            z_threshold,
            topk,
            max,
            after.1,
            out.1,
        ),
        after.0.answers == after.1.answers,
    ensures
        after.0 == after.1,
        stats_after.0 == stats_after.1,
        says_the_same(out.0.step, out.1.step),
        out.0.interjection@ == out.1.interjection@,
{
    if v.logits.len() > 0 {
        let (g, row, a, f, status) = lemma_step_unpacked(
            engine,
            num,
            retrieve,
            v,
            tok,
            stats,
            stats_after.0,
            z_threshold,
            topk,
            max,
            after.0,
            out.0,
        );
        let (g2, row2, a2, f2, status2) = lemma_step_unpacked(
            engine,
            num,
            retrieve,
            v,
            tok,
            stats,
            stats_after.1,
            z_threshold,
            topk,
            max,
            after.1,
            out.1,
        );
        lemma_step_answers(engine, num, retrieve, max, (g, a, f, after.0), tok, status, out.0);
        lemma_step_answers(engine, num, retrieve, max, (g2, a2, f2, after.1), tok, status2, out.1);
        assert(g.answers.len() == g2.answers.len());
        assert(g == g2);
        lemma_scoring_is_reproducible(
            engine,
            num,
            (g, g2),
            (row, row2),
            tok,
            stats,
            stats_after,
            z_threshold,
            topk,
            (a, a2),
            (out.0.step, out.1.step),
        );
        assert(a == a2);
        lemma_forwarding_is_reproducible(engine, num, a, tok, (f, f2), (status, status2));
        if out.0.step.fired && a.gen.fused is None {
            let text = out.0.step.token_text@;
            let first = choose|recalled: Option<Seq<char>>|
                #[trigger] recalls(retrieve, text, recalled) && started(
                    engine,
                    f,
                    max as nat,
                    recalled,
                    LobeView { index: f.index, ..after.0 },
                ) && after.0.index == f.index + 1;
            let second = choose|recalled: Option<Seq<char>>|
                #[trigger] recalls(retrieve, text, recalled) && started(
                    engine,
                    f,
                    max as nat,
                    recalled,
                    LobeView { index: f.index, ..after.1 },
                ) && after.1.index == f.index + 1;
            assert(first == second);
        }
    }
}

/// What was answered up to the guard of a step and in its pass stays on record.
proof fn lemma_step_answers<B: Backend, N: Numerics, R: Fn(&str) -> Option<String>>(
    engine: &B,
    num: &N,
    retrieve: R,
    max: usize,
    states: (LobeView, LobeView, LobeView, LobeView),
    tok: Token,
    status: Progress,
    out: StepOutcome,
)
    requires
        ({
            let (g, a, f, after) = states;
            &&& a.answers == g.answers
            &&& forwarded(engine, num, a, tok, f, status)
            &&& if out.step.fired && a.gen.fused is None {
                kindled(engine, retrieve, f, out.step.token_text@, max as nat, after)
            } else {
                after == (LobeView { index: f.index + 1, ..f })
            }
        }),
    ensures
        ({
            let (g, a, f, after) = states;
            &&& a.answers.len() < f.answers.len() <= after.answers.len()
            &&& f.answers == after.answers.take(f.answers.len() as int)
            &&& g.answers == after.answers.take(g.answers.len() as int)
            &&& f.answers[a.answers.len() as int] == after.answers[a.answers.len() as int]
        }),
{
    let (g, a, f, after) = states;
    assert(f.answers =~= f.answers.take(f.answers.len() as int));
    if out.step.fired && a.gen.fused is None {
        let recalled = choose|recalled: Option<Seq<char>>|
            #[trigger] recalls(retrieve, out.step.token_text@, recalled) && started(
                engine,
                f,
                max as nat,
                recalled,
                LobeView { index: f.index, ..after },
            );
        assert(f.answers =~= after.answers.take(f.answers.len() as int));
    }
    let n = g.answers.len() as int;
    assert(after.answers.take(n) =~= f.answers.take(n));
    assert(after.answers.take(f.answers.len() as int)[n] == after.answers[n]);
}

} // verus!
