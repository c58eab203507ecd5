//! Choosing a token from a row of logits, the random stream behind it, and the text guards that
//! decide where a span starts and where an aside may stop.

use crate::backend::Token;
use crate::number::{F32, NEG_INFINITY_BITS, ZERO_BITS};
use crate::numerics::Numerics;
use crate::text::{byte_len, chars_of, lemma_byte_len_prefix, trim_end, white, width_of};
use vstd::arithmetic::power2::{
    lemma2_to64, lemma_pow2_pos, lemma_pow2_strictly_increases, lemma_pow2_unfold, pow2,
};
use vstd::prelude::*;
use vstd::string::*;

verus! {

// ---------------------------------------------------------------------------------------------
// The greedy choice
// ---------------------------------------------------------------------------------------------

/// `b` is the first place of the greatest logit, which lies above negative infinity.
pub open spec fn leads(row: Seq<F32>, b: int) -> bool {
    &&& 0 <= b < row.len()
    &&& F32(NEG_INFINITY_BITS).below(row[b])
    &&& forall|j: int| 0 <= j < row.len() ==> !row[b].below(#[trigger] row[j])
    &&& forall|j: int| 0 <= j < b ==> !row[b].at_most(#[trigger] row[j])
}

/// `b` is the greedy choice: the first place of the greatest logit, or 0 where no logit lies above
/// negative infinity.
pub open spec fn greedy(row: Seq<F32>, b: int) -> bool {
    if exists|j: int| 0 <= j < row.len() && F32(NEG_INFINITY_BITS).below(#[trigger] row[j]) {
        leads(row, b)
    } else {
        b == 0
    }
}

/// The greedy choice is one token: a row leads at one place only.
pub proof fn lemma_greedy_is_one(row: Seq<F32>, a: int, b: int)
    requires
        greedy(row, a),
        greedy(row, b),
    ensures
        a == b,
{
    if exists|j: int| 0 <= j < row.len() && F32(NEG_INFINITY_BITS).below(#[trigger] row[j]) {
        if a < b {
            assert(!row[b].at_most(row[a]));
            assert(!row[a].below(row[b]));
        } else if b < a {
            assert(!row[a].at_most(row[b]));
            assert(!row[b].below(row[a]));
        }
    }
}

/// The token of the greatest logit.
pub fn argmax(logits: &Vec<F32>) -> (t: Token)
    requires
        logits@.len() <= i32::MAX,
    ensures
        greedy(logits@, t.0 as int),
{
    let mut best: usize = 0;
    let mut best_v: F32 = F32(NEG_INFINITY_BITS);
    let mut i: usize = 0;
    while i < logits.len()
        invariant
            logits@.len() <= i32::MAX,
            i <= logits@.len(),
            best <= i,
            !best_v.is_nan(),
            best_v == F32(NEG_INFINITY_BITS) ==> best == 0,
            best_v != F32(NEG_INFINITY_BITS) ==> best < i && best_v == logits@[best as int]
                && F32(NEG_INFINITY_BITS).below(best_v),
            forall|j: int| 0 <= j < i ==> !best_v.below(#[trigger] logits@[j]),
            best_v != F32(NEG_INFINITY_BITS) ==> forall|j: int|
                0 <= j < best ==> !best_v.at_most(#[trigger] logits@[j]),
        decreases logits@.len() - i,
    {
        let v: F32 = logits[i];
        if best_v.lt(v) {
            best_v = v;
            best = i;
        }
        i = i + 1;
    }
    Token(best as i32)
}

// ---------------------------------------------------------------------------------------------
// The most likely tokens
// ---------------------------------------------------------------------------------------------

/// Of two places in a row, `a` comes before `b`: its logit is greater, or equal and it stands
/// earlier.
pub open spec fn likelier(row: Seq<F32>, a: int, b: int) -> bool {
    row[a].total_rank() > row[b].total_rank() || (row[a].total_rank() == row[b].total_rank() && a
        < b)
}

/// `ids` are the `k` likeliest places of a row, or all of them where it is shorter, likeliest first.
pub open spec fn likeliest(row: Seq<F32>, k: nat, ids: Seq<usize>) -> bool {
    &&& ids.len() == if k <= row.len() {
        k
    } else {
        row.len()
    }
    &&& forall|i: int| 0 <= i < ids.len() ==> #[trigger] ids[i] < row.len()
    &&& forall|i: int, j: int|
        0 <= i < j < ids.len() ==> likelier(row, #[trigger] ids[i] as int, #[trigger] ids[j] as int)
    &&& forall|p: usize, i: int|
        p < row.len() && 0 <= i < ids.len() && !#[trigger] ids.contains(p) ==> likelier(
            row,
            #[trigger] ids[i] as int,
            p as int,
        )
}

fn likelier_at(row: &Vec<F32>, a: usize, b: usize) -> (r: bool)
    requires
        a < row@.len(),
        b < row@.len(),
    ensures
        r == likelier(row@, a as int, b as int),
{
    let ka: i64 = row[a].total_key();
    let kb: i64 = row[b].total_key();
    ka > kb || (ka == kb && a < b)
}

/// The places of the `k` greatest logits, greatest first.
pub fn top_ids(logits: &Vec<F32>, k: usize) -> (ids: Vec<usize>)
    ensures
        likeliest(logits@, k as nat, ids@),
{
    let n: usize = logits.len();
    let want: usize = if k <= n {
        k
    } else {
        n
    };
    let mut ids: Vec<usize> = Vec::new();
    // Each round takes the likeliest of the places after the one that was taken last.
    while ids.len() < want
        invariant
            n == logits@.len(),
            want <= n,
            ids@.len() <= want,
            likeliest(logits@, ids@.len(), ids@),
        decreases want - ids@.len(),
    {
        let ghost taken = ids@;
        let mut best: Option<usize> = None;
        let mut i: usize = 0;
        while i < n
            invariant
                n == logits@.len(),
                i <= n,
                ids@ == taken,
                likeliest(logits@, taken.len(), taken),
                taken.len() < n,
                match best {
                    None => forall|p: usize| p < i ==> taken.contains(p),
                    Some(b) => b < i && !taken.contains(b) && forall|p: usize|
                        p < i && !#[trigger] taken.contains(p) && p != b ==> likelier(
                            logits@,
                            b as int,
                            p as int,
                        ),
                },
            decreases n - i,
        {
            let fresh: bool = if ids.len() == 0 {
                true
            } else {
                likelier_at(logits, ids[ids.len() - 1], i)
            };
            proof {
                if taken.len() > 0 {
                    let l = taken.len() - 1;
                    if taken.contains(i) {
                        let w = choose|w: int| 0 <= w < taken.len() && taken[w] == i;
                        if w < l {
                            assert(likelier(logits@, taken[w] as int, taken[l] as int));
                        }
                        assert(!fresh);
                    } else {
                        assert(likelier(logits@, taken[l] as int, i as int));
                        assert(fresh);
                    }
                }
            }
            if fresh {
                let better: bool = match best {
                    None => true,
                    Some(b) => likelier_at(logits, i, b),
                };
                if better {
                    best = Some(i);
                }
            }
            i = i + 1;
        }
        match best {
            Some(b) => {
                ids.push(b);
                proof {
                    assert forall|p: usize, i: int|
                        p < logits@.len() && 0 <= i < ids@.len() && !#[trigger] ids@.contains(
                            p,
                        ) implies likelier(logits@, #[trigger] ids@[i] as int, p as int) by {
                        if taken.contains(p) {
                            let w = choose|w: int| 0 <= w < taken.len() && taken[w] == p;
                            assert(ids@[w] == p);
                        }
                        assert(ids@[taken.len() as int] == b);
                        assert(p != b);
                        if i < taken.len() {
                            assert(ids@[i] == taken[i]);
                        }
                    }
                    assert forall|i: int, j: int| 0 <= i < j < ids@.len() implies likelier(
                        logits@,
                        #[trigger] ids@[i] as int,
                        #[trigger] ids@[j] as int,
                    ) by {
                        assert(ids@[i] == taken[i]);
                        if j < taken.len() {
                            assert(ids@[j] == taken[j]);
                        } else {
                            assert(ids@[j] == b);
                            assert(!taken.contains(b));
                        }
                    }
                }
            },
            None => {
                proof {
                    lemma_all_taken(taken, n as nat);
                }
            },
        }
    }
    ids
}

/// A list that holds every number below `n` is at least that long.
proof fn lemma_all_taken(s: Seq<usize>, n: nat)
    requires
        n <= usize::MAX,
        forall|p: usize| p < n ==> s.contains(p),
    ensures
        s.len() >= n,
    decreases n,
{
    if n > 0 {
        let p = (n - 1) as usize;
        assert(s.contains(p));
        let w = s.index_of(p);
        let rest = s.remove(w);
        assert forall|q: usize| q < n - 1 implies rest.contains(q) by {
            assert(s.contains(q));
            let v = choose|v: int| 0 <= v < s.len() && s[v] == q;
            if v < w {
                assert(rest[v] == q);
            } else {
                assert(rest[v - 1] == q);
            }
        }
        lemma_all_taken(rest, (n - 1) as nat);
    }
}

// ---------------------------------------------------------------------------------------------
// The random stream
// ---------------------------------------------------------------------------------------------

/// One step of the xorshift generator.
pub open spec fn stirred(x: u64) -> u64 {
    let a = x ^ (x << 13);
    let b = a ^ (a >> 7);
    b ^ (b << 17)
}

/// The generator never reaches its fixed point 0 from anywhere else.
pub proof fn lemma_stirred_is_not_zero(x: u64)
    requires
        x != 0,
    ensures
        stirred(x) != 0,
{
    let a = x ^ (x << 13);
    assert(x != 0 ==> x ^ (x << 13) != 0) by (bit_vector);
    let b = a ^ (a >> 7);
    assert(a != 0 ==> a ^ (a >> 7) != 0) by (bit_vector);
    assert(b != 0 ==> b ^ (b << 17) != 0) by (bit_vector);
}

/// `f` is the binary32 pattern of `n / 2^24`, for an `n` below `2^24`: zero, or the mantissa `n`
/// shifted left by `k` until its top bit is the implicit one, under the exponent `126 - k`.
pub open spec fn is_unit(n: nat, f: F32) -> bool {
    if n == 0 {
        f.0 == 0
    } else {
        exists|k: nat| #[trigger] unit_shift(n, k, f)
    }
}

/// The pattern of `n / 2^24` whose mantissa is `n` shifted left by `k`.
pub open spec fn unit_shift(n: nat, k: nat, f: F32) -> bool {
    &&& 0x80_0000 <= n * pow2(k) < 0x100_0000
    &&& f.0 == (126 - k) * 0x80_0000 + (n * pow2(k) - 0x80_0000)
}

fn unit(n: u32) -> (f: F32)
    requires
        n < 0x100_0000,
    ensures
        is_unit(n as nat, f),
{
    if n == 0 {
        return F32(0);
    }
    let mut m: u32 = n;
    let mut e: u32 = 126;
    proof {
        lemma2_to64();
        assert(n * pow2(0) == n);
    }
    while m < 0x80_0000
        invariant
            0 < n,
            0 < m < 0x100_0000,
            e <= 126,
            m == n * pow2((126 - e) as nat),
        decreases 0x100_0000 - m,
    {
        proof {
            let k = (126 - e) as nat;
            let p = pow2(k);
            lemma_pow2_unfold(k + 1);
            lemma_pow2_pos(k);
            assert(n * (2 * p) == 2 * (n * p)) by (nonlinear_arith);
            assert(n * p >= p) by (nonlinear_arith)
                requires
                    n > 0,
                    p > 0,
            ;
            lemma2_to64();
            if k >= 24 {
                if k > 24 {
                    lemma_pow2_strictly_increases(24, k);
                }
            }
        }
        m = m * 2;
        e = e - 1;
    }
    assert(unit_shift(n as nat, (126 - e) as nat, F32((e * 0x80_0000 + (m - 0x80_0000)) as u32)));
    F32(e * 0x80_0000 + (m - 0x80_0000))
}

/// The state after one draw, and the number drawn.
pub open spec fn drawn(before: u64, after: u64, f: F32) -> bool {
    &&& after == stirred(before)
    &&& is_unit((after >> 40) as nat, f)
}

/// Draw a uniform number in `[0, 1)` from the stream: the top 24 bits of the next state.
pub fn next_unit_f32(state: &mut u64) -> (f: F32)
    ensures
        drawn(*old(state), *final(state), f),
{
    let mut x: u64 = *state;
    x = x ^ (x << 13);
    x = x ^ (x >> 7);
    x = x ^ (x << 17);
    *state = x;
    assert(x >> 40 < 0x100_0000) by (bit_vector);
    unit((x >> 40) as u32)
}

// ---------------------------------------------------------------------------------------------
// The nucleus
// ---------------------------------------------------------------------------------------------

/// `ids` are all places of a row, likeliest first.
pub open spec fn ranked(row: Seq<F32>, ids: Seq<usize>) -> bool {
    &&& ids.len() == row.len()
    &&& forall|i: int| 0 <= i < ids.len() ==> #[trigger] ids[i] < row.len()
    &&& sorted(row, ids)
}

/// Of any two places in the list the likelier stands first.
pub open spec fn sorted(row: Seq<F32>, ids: Seq<usize>) -> bool {
    forall|i: int, j: int|
        0 <= i < j < ids.len() ==> likelier(row, #[trigger] ids[i] as int, #[trigger] ids[j] as int)
}

/// Merge the sorted places of two neighbouring stretches of a row.
fn merged(row: &Vec<F32>, a: Vec<usize>, b: Vec<usize>, lo: usize, mid: usize, hi: usize) -> (r: Vec<
    usize,
>)
    requires
        lo <= mid <= hi <= row@.len(),
        a@.len() == mid - lo,
        b@.len() == hi - mid,
        forall|i: int| 0 <= i < a@.len() ==> lo <= #[trigger] a@[i] < mid,
        forall|i: int| 0 <= i < b@.len() ==> mid <= #[trigger] b@[i] < hi,
        sorted(row@, a@),
        sorted(row@, b@),
    ensures
        r@.len() == hi - lo,
        forall|i: int| 0 <= i < r@.len() ==> lo <= #[trigger] r@[i] < hi,
        sorted(row@, r@),
{
    let mut r: Vec<usize> = Vec::with_capacity(hi - lo);
    let mut x: usize = 0;
    let mut y: usize = 0;
    while x < a.len() || y < b.len()
        invariant
            lo <= mid <= hi <= row@.len(),
            a@.len() == mid - lo,
            b@.len() == hi - mid,
            forall|i: int| 0 <= i < a@.len() ==> lo <= #[trigger] a@[i] < mid,
            forall|i: int| 0 <= i < b@.len() ==> mid <= #[trigger] b@[i] < hi,
            sorted(row@, a@),
            sorted(row@, b@),
            x <= a@.len(),
            y <= b@.len(),
            r@.len() == x + y,
            forall|i: int| 0 <= i < r@.len() ==> lo <= #[trigger] r@[i] < hi,
            sorted(row@, r@),
            forall|i: int, j: int|
                0 <= i < r@.len() && x <= j < a@.len() ==> likelier(
                    row@,
                    #[trigger] r@[i] as int,
                    #[trigger] a@[j] as int,
                ),
            forall|i: int, j: int|
                0 <= i < r@.len() && y <= j < b@.len() ==> likelier(
                    row@,
                    #[trigger] r@[i] as int,
                    #[trigger] b@[j] as int,
                ),
        decreases a@.len() + b@.len() - x - y,
    {
        if y == b.len() || (x < a.len() && likelier_at(row, a[x], b[y])) {
            assert(lo <= a@[x as int] < mid);
            proof {
                let t = a@[x as int];
                assert forall|j: int| y <= j < b@.len() implies likelier(
                    row@,
                    t as int,
                    #[trigger] b@[j] as int,
                ) by {
                    if j > y {
                        assert(likelier(row@, b@[y as int] as int, b@[j] as int));
                    }
                }
            }
            r.push(a[x]);
            x = x + 1;
        } else {
            assert(mid <= b@[y as int] < hi);
            proof {
                let t = b@[y as int];
                assert forall|j: int| x <= j < a@.len() implies likelier(
                    row@,
                    t as int,
                    #[trigger] a@[j] as int,
                ) by {
                    assert(likelier(row@, t as int, a@[x as int] as int));
                    if j > x {
                        assert(likelier(row@, a@[x as int] as int, a@[j] as int));
                    }
                }
            }
            r.push(b[y]);
            y = y + 1;
        }
    }
    r
}

/// The places `lo..hi` of a row, likeliest first.
fn ranked_stretch(row: &Vec<F32>, lo: usize, hi: usize) -> (r: Vec<usize>)
    requires
        lo < hi <= row@.len(),
    ensures
        r@.len() == hi - lo,
        forall|i: int| 0 <= i < r@.len() ==> lo <= #[trigger] r@[i] < hi,
        sorted(row@, r@),
    decreases hi - lo,
{
    if hi - lo == 1 {
        let mut r: Vec<usize> = Vec::new();
        r.push(lo);
        return r;
    }
    let mid: usize = lo + (hi - lo) / 2;
    let a = ranked_stretch(row, lo, mid);
    let b = ranked_stretch(row, mid, hi);
    merged(row, a, b, lo, mid, hi)
}

/// `ws` are the weights of a row's logits at a temperature, in the order of `ids`.
pub open spec fn weighed<N: Numerics>(
    num: &N,
    row: Seq<F32>,
    temp: F32,
    ids: Seq<usize>,
    ws: Seq<F32>,
) -> bool {
    &&& ws.len() == ids.len()
    &&& forall|i: int|
        0 <= i < ws.len() ==> call_ensures(
            N::weight,
            (num, row[ids[i] as int], row[ids[0] as int], temp),
            #[trigger] ws[i],
        )
}

/// `sums` are the running sums of `ws`, from zero on.
pub open spec fn tallied<N: Numerics>(num: &N, ws: Seq<F32>, sums: Seq<F32>) -> bool {
    &&& sums.len() == ws.len() + 1
    &&& sums[0] == F32(ZERO_BITS)
    &&& forall|i: int|
        0 <= i < ws.len() ==> call_ensures(N::plus, (num, sums[i], #[trigger] ws[i]), sums[i + 1])
}

/// `next` is `cum` and the share that a weight has in the total.
pub open spec fn shared<N: Numerics>(num: &N, cum: F32, w: F32, total: F32, next: F32) -> bool {
    exists|q: F32|
        call_ensures(N::over, (num, w, total), q) && #[trigger] call_ensures(
            N::plus,
            (num, cum, q),
            next,
        )
}

/// The nucleus is the first `cut` weights: the fewest whose shares come to `top_p`, or all of them where
/// they do not. `cums` are the running sums of the shares up to there.
pub open spec fn nucleus<N: Numerics>(
    num: &N,
    ws: Seq<F32>,
    total: F32,
    top_p: F32,
    cums: Seq<F32>,
    cut: int,
) -> bool {
    &&& 0 < cut <= ws.len()
    &&& cums.len() == cut + 1
    &&& cums[0] == F32(ZERO_BITS)
    &&& forall|i: int|
        0 <= i < cut ==> shared(num, cums[i], #[trigger] ws[i], total, cums[i + 1])
    &&& forall|i: int| 0 < i < cut ==> !top_p.at_most(#[trigger] cums[i])
    &&& cut == ws.len() || top_p.at_most(cums[cut])
}

/// `j` is the first of the `cut` weights whose running sum reaches `goal`, or the last of them.
pub open spec fn lands(sums: Seq<F32>, cut: int, goal: F32, j: int) -> bool {
    &&& 0 <= j < cut
    &&& forall|i: int| 0 < i <= j ==> !goal.at_most(#[trigger] sums[i])
    &&& j == cut - 1 || goal.at_most(sums[j + 1])
}

/// The draw `unit` falls on place `j` of the nucleus `cut` of a row whose places are ranked as `ids`.
pub open spec fn falls_on<N: Numerics>(
    num: &N,
    row: Seq<F32>,
    temp: F32,
    top_p: F32,
    unit: F32,
    ids: Seq<usize>,
    cut: int,
    j: int,
) -> bool {
    exists|ws: Seq<F32>, sums: Seq<F32>, cums: Seq<F32>, goal: F32|
        {
            &&& #[trigger] weighed(num, row, temp, ids, ws)
            &&& #[trigger] tallied(num, ws, sums)
            &&& #[trigger] nucleus(num, ws, sums.last(), top_p, cums, cut)
            &&& call_ensures(N::times, (num, unit, sums[cut]), goal)
            &&& #[trigger] lands(sums, cut, goal, j)
        }
}

/// `t` is the token that the draw `unit` falls on.
pub open spec fn picked<N: Numerics>(
    num: &N,
    row: Seq<F32>,
    temp: F32,
    top_p: F32,
    unit: F32,
    t: Token,
) -> bool {
    exists|ids: Seq<usize>, cut: int, j: int|
        {
            &&& ranked(row, ids)
            &&& #[trigger] falls_on(num, row, temp, top_p, unit, ids, cut, j)
            &&& 0 <= j < cut <= ids.len()
            &&& t.0 == ids[j]
        }
}

/// What sampling gives: at a temperature of zero or below the greedy token, without a draw;
/// otherwise the token of the nucleus that the next number drawn falls on.
pub open spec fn sampled<N: Numerics>(
    num: &N,
    row: Seq<F32>,
    temp: F32,
    top_p: F32,
    before: u64,
    after: u64,
    t: Token,
) -> bool {
    if temp.at_most(F32(ZERO_BITS)) {
        after == before && greedy(row, t.0 as int)
    } else {
        exists|unit: F32|
            drawn(before, after, unit) && #[trigger] picked(num, row, temp, top_p, unit, t)
    }
}

/// A sampled token lies in the row, and sampling moves the random stream on by one draw, or by none
/// where the choice is greedy.
pub proof fn lemma_sampled_token_lies_in_the_row<N: Numerics>(
    num: &N,
    row: Seq<F32>,
    temp: F32,
    top_p: F32,
    before: u64,
    after: u64,
    t: Token,
)
    requires
        row.len() > 0,
        sampled(num, row, temp, top_p, before, after, t),
    ensures
        0 <= t.0 < row.len(),
        after == if temp.at_most(F32(ZERO_BITS)) {
            before
        } else {
            stirred(before)
        },
{
    if !temp.at_most(F32(ZERO_BITS)) {
        let unit = choose|unit: F32|
            drawn(before, after, unit) && #[trigger] picked(num, row, temp, top_p, unit, t);
        let (ids, cut, j) = choose|ids: Seq<usize>, cut: int, j: int|
            {
                &&& ranked(row, ids)
                &&& #[trigger] falls_on(num, row, temp, top_p, unit, ids, cut, j)
                &&& 0 <= j < cut <= ids.len()
                &&& t.0 == ids[j]
            };
        assert(ids[j] < row.len());
    }
}

/// Temperature and nucleus sampling; a temperature of zero or below is greedy.
pub fn sample_topp<N: Numerics>(
    logits: &Vec<F32>,
    temp: F32,
    top_p: F32,
    rng: &mut u64,
    num: &N,
) -> (t: Token)
    requires
        0 < logits@.len() <= i32::MAX,
    ensures
        sampled(num, logits@, temp, top_p, *old(rng), *final(rng), t),
        0 <= t.0 < logits@.len(),
{
    if temp.le(F32(ZERO_BITS)) {
        return argmax(logits);
    }
    let unit: F32 = next_unit_f32(rng);
    let ids = ranked_stretch(logits, 0, logits.len());
    assert(ranked(logits@, ids@));
    let t = fall(logits, &ids, temp, top_p, unit, num);
    assert(picked(num, logits@, temp, top_p, unit, t));
    t
}

/// The token that the draw `unit` falls on in the nucleus of a row whose places are ranked as `ids`.
fn fall<N: Numerics>(
    row: &Vec<F32>,
    ids: &Vec<usize>,
    temp: F32,
    top_p: F32,
    unit: F32,
    num: &N,
) -> (t: Token)
    requires
        0 < row@.len() <= i32::MAX,
        ranked(row@, ids@),
    ensures
        picked(num, row@, temp, top_p, unit, t),
        0 <= t.0 < row@.len(),
{
    let n: usize = ids.len();
    assert(ids@[0] < row@.len());
    let max: F32 = row[ids[0]];
    // The weights, likeliest first, and their running sums.
    let mut ws: Vec<F32> = Vec::with_capacity(n);
    let mut sums: Vec<F32> = Vec::new();
    sums.push(F32(ZERO_BITS));
    let mut i: usize = 0;
    while i < n
        invariant
            n == ids@.len(),
            i <= n,
            ranked(row@, ids@),
            max == row@[ids@[0] as int],
            ws@.len() == i,
            sums@.len() == i + 1,
            sums@[0] == F32(ZERO_BITS),
            forall|k: int|
                0 <= k < i ==> call_ensures(
                    N::weight,
                    (num, row@[ids@[k] as int], max, temp),
                    #[trigger] ws@[k],
                ),
            forall|k: int|
                0 <= k < i ==> call_ensures(
                    N::plus,
                    (num, sums@[k], #[trigger] ws@[k]),
                    sums@[k + 1],
                ),
        decreases n - i,
    {
        assert(ids@[i as int] < row@.len());
        let w: F32 = num.weight(row[ids[i]], max, temp);
        assert(call_ensures(N::weight, (num, row@[ids@[i as int] as int], max, temp), w));
        let s: F32 = num.plus(sums[i], w);
        assert(call_ensures(N::plus, (num, sums@[i as int], w), s));
        ws.push(w);
        sums.push(s);
        i = i + 1;
    }
    assert(weighed(num, row@, temp, ids@, ws@));
    assert(tallied(num, ws@, sums@));
    let total: F32 = sums[n];
    // How many of them make the nucleus.
    let mut cut: usize = 1;
    let mut cum: F32 = num.plus(F32(ZERO_BITS), num.over(ws[0], total));
    let ghost mut cums: Seq<F32> = seq![F32(ZERO_BITS), cum];
    assert(shared(num, cums[0], ws@[0], total, cums[1]));
    while cut < n && !top_p.le(cum)
        invariant
            n == ws@.len(),
            0 < cut <= n,
            cums.len() == cut + 1,
            cums[0] == F32(ZERO_BITS),
            cums[cut as int] == cum,
            forall|k: int|
                0 <= k < cut ==> shared(num, cums[k], #[trigger] ws@[k], total, cums[k + 1]),
            forall|k: int| 0 < k < cut ==> !top_p.at_most(#[trigger] cums[k]),
        decreases n - cut,
    {
        let q: F32 = num.over(ws[cut], total);
        let next: F32 = num.plus(cum, q);
        assert(call_ensures(N::over, (num, ws@[cut as int], total), q) && call_ensures(
            N::plus,
            (num, cum, q),
            next,
        ));
        assert(shared(num, cum, ws@[cut as int], total, next));
        proof {
            let more = cums.push(next);
            assert forall|k: int| 0 <= k < cut + 1 implies shared(
                num,
                more[k],
                #[trigger] ws@[k],
                total,
                more[k + 1],
            ) by {
                if k < cut {
                    assert(more[k] == cums[k] && more[k + 1] == cums[k + 1]);
                }
            }
            assert forall|k: int| 0 < k < cut + 1 implies !top_p.at_most(#[trigger] more[k]) by {
                assert(more[k] == cums[k]);
            }
            cums = more;
        }
        cum = next;
        cut = cut + 1;
    }
    assert(nucleus(num, ws@, total, top_p, cums, cut as int));
    // Where the draw falls.
    let goal: F32 = num.times(unit, sums[cut]);
    assert(call_ensures(N::times, (num, unit, sums@[cut as int]), goal));
    let mut j: usize = 0;
    while j < cut - 1 && !goal.le(sums[j + 1])
        invariant
            0 < cut <= n,
            sums@.len() == n + 1,
            j <= cut - 1,
            forall|k: int| 0 < k <= j ==> !goal.at_most(#[trigger] sums@[k]),
        decreases cut - j,
    {
        j = j + 1;
    }
    assert(lands(sums@, cut as int, goal, j as int));
    assert(sums@.last() == total);
    assert(falls_on(num, row@, temp, top_p, unit, ids@, cut as int, j as int));
    assert(ids@[j as int] < row@.len());
    Token(ids[j] as i32)
}

// ---------------------------------------------------------------------------------------------
// Text guards
// ---------------------------------------------------------------------------------------------

/// The text from its first whitespace on.
pub open spec fn from_white(s: Seq<char>) -> Seq<char>
    decreases s.len(),
{
    if s.len() > 0 && !white(s[0]) {
        from_white(s.drop_first())
    } else {
        s
    }
}

/// A span without the word fragment that it starts with; a span without any whitespace is kept.
pub open spec fn aligned(s: Seq<char>) -> Seq<char> {
    if from_white(s).len() == 0 {
        s
    } else {
        from_white(s)
    }
}

/// Drop a leading partial word. A word starts with whitespace in front of it, so a span whose first
/// character is none began in the middle of one.
pub fn word_aligned(s: &str) -> (r: &str)
    ensures
        r@ == aligned(s@),
{
    let v = chars_of(s);
    let mut i: usize = 0;
    assert(v@.skip(0) =~= v@);
    while i < v.len() && !v[i].is_whitespace()
        invariant
            v@ == s@,
            i <= v@.len(),
            from_white(v@) == from_white(v@.skip(i as int)),
        decreases v@.len() - i,
    {
        assert(v@.skip(i as int).drop_first() =~= v@.skip(i + 1));
        i = i + 1;
    }
    assert(from_white(v@) == v@.skip(i as int));
    if i == v.len() {
        assert(v@.skip(i as int).len() == 0);
        return s;
    }
    assert(v@.subrange(i as int, v@.len() as int) =~= v@.skip(i as int));
    s.substring_char(i, v.len())
}

/// The longest prefix that takes at most `max` bytes.
pub open spec fn head_within(s: Seq<char>, max: nat) -> Seq<char>
    decreases s.len(),
{
    if byte_len(s) <= max || s.len() == 0 {
        s
    } else {
        head_within(s.drop_last(), max)
    }
}

/// A head of `s` of at most `max` bytes that splits no word: cut back to the last whitespace within
/// the limit, unless that leaves nothing.
pub open spec fn snippet_of(s: Seq<char>, max: nat) -> Seq<char> {
    let head = head_within(s, max);
    if byte_len(s) <= max {
        s
    } else if exists|i: int| 0 < i < head.len() && white(#[trigger] head[i]) {
        last_word_cut(head)
    } else {
        head
    }
}

/// The text up to its last whitespace.
pub open spec fn last_word_cut(s: Seq<char>) -> Seq<char>
    decreases s.len(),
{
    if s.len() == 0 {
        s
    } else if white(s.last()) {
        s.drop_last()
    } else {
        last_word_cut(s.drop_last())
    }
}

/// A word-aligned head of `s`, at most `max` bytes.
pub fn trim_snippet(s: &str, max: usize) -> (r: &str)
    ensures
        r@ == snippet_of(s@, max as nat),
{
    let v = chars_of(s);
    let n: usize = v.len();
    // The end of the longest prefix within the limit.
    let mut end: usize = 0;
    let mut left: usize = max;
    while end < n && width_of(v[end]) <= left
        invariant
            v@ == s@,
            n == v@.len(),
            end <= n,
            byte_len(v@.take(end as int)) + left == max,
        decreases n - end,
    {
        assert(v@.take(end + 1).drop_last() =~= v@.take(end as int));
        left = left - width_of(v[end]);
        end = end + 1;
    }
    assert(v@.take(n as int) =~= v@);
    if end == n {
        return s;
    }
    let ghost head = v@.take(end as int);
    proof {
        assert(v@.take(end + 1).drop_last() =~= head);
        assert(byte_len(v@.take(end + 1)) > max);
        lemma_head_within(v@, max as nat, end as int, n as int);
        lemma_byte_len_prefix(v@, end + 1, n as int);
    }
    let mut i: usize = end;
    assert(head.take(end as int) =~= head);
    while i > 1 && !v[i - 1].is_whitespace()
        invariant
            n == v@.len(),
            v@ == s@,
            i <= end < n,
            head == v@.take(end as int),
            end > 0 ==> i > 0,
            last_word_cut(head) == last_word_cut(head.take(i as int)),
            forall|j: int| i <= j < end ==> !white(#[trigger] head[j]),
        decreases i,
    {
        assert(head.take(i as int).drop_last() =~= head.take(i - 1));
        i = i - 1;
    }
    if i > 1 {
        assert(head.take(i as int).drop_last() =~= head.take(i - 1));
        assert(white(head[i - 1]));
        assert(v@.subrange(0, i - 1) =~= head.take(i - 1));
        s.substring_char(0, i - 1)
    } else {
        assert(v@.subrange(0, end as int) =~= head);
        s.substring_char(0, end)
    }
}

proof fn lemma_head_within(s: Seq<char>, max: nat, end: int, n: int)
    requires
        0 <= end < n <= s.len(),
        byte_len(s.take(end)) <= max,
        byte_len(s.take(end + 1)) > max,
    ensures
        head_within(s.take(n), max) == s.take(end),
    decreases n,
{
    let t = s.take(n);
    lemma_byte_len_prefix(s, end + 1, n);
    assert(t.drop_last() =~= s.take(n - 1));
    if n == end + 1 {
        assert(head_within(s.take(end), max) == s.take(end));
    } else {
        lemma_head_within(s, max, end, n - 1);
    }
}

/// Emphasis, closing quotes and brackets: what may follow the end of a sentence.
pub open spec fn closing(c: char) -> bool {
    c == '"' || c == '\'' || c == '*' || c == '_' || c == '`' || c == ')' || c == ']' || c
        == '\u{2019}' || c == '\u{201d}' || c == '\u{bb}'
}

/// The marks that end a sentence.
pub open spec fn terminal(c: char) -> bool {
    c == '.' || c == '!' || c == '?' || c == '\u{2026}'
}

/// The text without what may follow the end of a sentence.
pub open spec fn unclosed(s: Seq<char>) -> Seq<char>
    decreases s.len(),
{
    if s.len() > 0 && closing(s.last()) {
        unclosed(s.drop_last())
    } else {
        s
    }
}

/// The text ends a sentence.
pub open spec fn sentence_end(s: Seq<char>) -> bool {
    let t = unclosed(trim_end(s));
    t.len() > 0 && terminal(t.last())
}

fn is_closing(c: char) -> (r: bool)
    ensures
        r == closing(c),
{
    c == '"' || c == '\'' || c == '*' || c == '_' || c == '`' || c == ')' || c == ']' || c
        == '\u{2019}' || c == '\u{201d}' || c == '\u{bb}'
}

/// Does a partial reply stop at the end of a sentence?
pub fn ends_sentence(s: &str) -> (r: bool)
    ensures
        r == sentence_end(s@),
{
    let v = chars_of(s);
    let mut i: usize = v.len();
    assert(v@.take(i as int) =~= v@);
    while i > 0 && v[i - 1].is_whitespace()
        invariant
            v@ == s@,
            i <= v@.len(),
            trim_end(v@) == trim_end(v@.take(i as int)),
        decreases i,
    {
        assert(v@.take(i as int).drop_last() =~= v@.take(i - 1));
        i = i - 1;
    }
    let ghost t = v@.take(i as int);
    assert(trim_end(v@) == t);
    while i > 0 && is_closing(v[i - 1])
        invariant
            v@ == s@,
            i <= v@.len(),
            unclosed(t) == unclosed(v@.take(i as int)),
        decreases i,
    {
        assert(v@.take(i as int).drop_last() =~= v@.take(i - 1));
        i = i - 1;
    }
    assert(unclosed(t) == v@.take(i as int));
    if i == 0 {
        return false;
    }
    let c: char = v[i - 1];
    c == '.' || c == '!' || c == '?' || c == '\u{2026}'
}

} // verus!
