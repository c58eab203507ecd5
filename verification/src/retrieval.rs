//! Retrieval over a text: it is cut into passages, and a query ranks them by the words it shares with
//! them, by the closeness of their embeddings, or by both rankings fused. Counting and ranking are
//! done here; the scores are computed by [`Scoring`].

use crate::lobe::sampling::likelier;
use crate::number::{F32, ZERO_BITS};
use crate::text::{
    all_runs, alphanumeric, chars_of, closed_runs, join_range, joined,
    lemma_flatten_push, lemma_runs_are_the_maximal_ones, lowercase, maximal_run, open_run, runs,
    split_words, texts, words,
};
use vstd::hash_map::StringHashMap;
use vstd::prelude::*;
use vstd::string::*;

verus! {

/// The constant of the rank fusion, 60.0.
pub const RRF_K_BITS: u32 = 0x4270_0000;

/// How many words a passage has.
pub const CHUNK_WORDS: usize = 80;

/// What is put before a query that is to be embedded.
pub const RAG_INSTRUCT: &'static str =
    "Instruct: Given a search query, retrieve relevant passages.\nQuery: ";

/// The scores behind the rankings.
pub trait Scoring {
    /// The BM25 score of a passage of `len` terms, among `passages` passages of `total` terms in all.
    /// Each hit is a query term that occurs in it: how often, and in how many passages. There is one at
    /// least.
    fn bm25(&self, hits: &Vec<(usize, usize)>, len: usize, passages: usize, total: u128) -> F32
        requires
            hits@.len() > 0,
    ;

    /// The dot product of two embeddings.
    fn dot(&self, a: &Vec<F32>, b: &Vec<F32>) -> F32;

    /// The fused score of something that stands at these ranks, counted from 0.
    fn fused(&self, ranks: &Vec<usize>, k: F32) -> F32;
}

// ---------------------------------------------------------------------------------------------
// Terms and passages
// ---------------------------------------------------------------------------------------------

/// The runs of at least two characters, in small letters.
pub open spec fn kept_terms(rs: Seq<Seq<char>>) -> Seq<Seq<char>>
    decreases rs.len(),
{
    if rs.len() == 0 {
        Seq::empty()
    } else if rs.last().len() >= 2 {
        kept_terms(rs.drop_last()).push(lowercase(rs.last()))
    } else {
        kept_terms(rs.drop_last())
    }
}

/// The terms of a text: its runs of letters and digits of at least two characters, in small letters.
pub open spec fn terms_of(s: Seq<char>) -> Seq<Seq<char>> {
    kept_terms(runs(s, |c: char| !alphanumeric(c)))
}

fn close_run(run: String, out: &mut Vec<String>)
    ensures
        texts(final(out)@) == if run@.len() >= 2 {
            texts(old(out)@).push(lowercase(run@))
        } else {
            texts(old(out)@)
        },
{
    let ghost before = texts(out@);
    if chars_of(run.as_str()).len() >= 2 {
        out.push(run.as_str().to_lowercase());
        assert(texts(out@) =~= before.push(lowercase(run@)));
    }
}

/// The terms of a text, the unit of indexing and of querying.
pub fn terms(s: &str) -> (r: Vec<String>)
    ensures
        texts(r@) == terms_of(s@),
{
    let v = chars_of(s);
    let ghost sep = |c: char| !alphanumeric(c);
    let mut out: Vec<String> = Vec::new();
    let mut run = String::new();
    let mut open: bool = false;
    let mut i: usize = 0;
    assert(texts(out@) =~= Seq::empty());
    while i < v.len()
        invariant
            v@ == s@,
            i <= v@.len(),
            sep == (|c: char| !alphanumeric(c)),
            texts(out@) == kept_terms(closed_runs(v@.take(i as int), sep)),
            run@ == open_run(v@.take(i as int), sep),
            open == (run@.len() > 0),
        decreases v@.len() - i,
    {
        let c: char = v[i];
        let ghost before = closed_runs(v@.take(i as int), sep);
        assert(v@.take(i + 1).drop_last() =~= v@.take(i as int));
        assert(v@.take(i + 1).last() == c);
        if c.is_alphanumeric() {
            run.push(c);
            open = true;
        } else {
            if open {
                let ghost r = run@;
                assert(before.push(r).drop_last() =~= before);
                close_run(run, &mut out);
                run = String::new();
                open = false;
            }
            assert(run@ =~= Seq::<char>::empty());
        }
        i = i + 1;
    }
    assert(v@.take(v@.len() as int) =~= v@);
    if open {
        let ghost before = closed_runs(v@, sep);
        assert(before.push(run@).drop_last() =~= before);
        close_run(run, &mut out);
    }
    out
}

/// The passages of a text: its words, `k` at a time, with single blanks between them.
pub open spec fn passages_of(ws: Seq<Seq<char>>, k: nat) -> Seq<Seq<char>>
    decreases ws.len(),
{
    if ws.len() == 0 || k == 0 {
        Seq::empty()
    } else if ws.len() <= k {
        seq![joined(ws, " "@)]
    } else {
        seq![joined(ws.take(k as int), " "@)] + passages_of(ws.skip(k as int), k)
    }
}

/// Cut a text into passages of `chunk_words` words; the last may be shorter.
pub fn chunk(text: &str, chunk_words: usize) -> (r: Vec<String>)
    ensures
        texts(r@) == passages_of(
            words(text@),
            if chunk_words == 0 {
                1
            } else {
                chunk_words as nat
            },
        ),
{
    let k: usize = if chunk_words < 1 {
        1
    } else {
        chunk_words
    };
    let ws = split_words(text);
    let ghost all = texts(ws@);
    let mut r: Vec<String> = Vec::new();
    let mut from: usize = 0;
    assert(all.skip(0) =~= all);
    assert(texts(r@) + passages_of(all, k as nat) =~= passages_of(all, k as nat));
    while from < ws.len()
        invariant
            k >= 1,
            from <= ws@.len(),
            all == texts(ws@),
            texts(r@) + passages_of(all.skip(from as int), k as nat) == passages_of(all, k as nat),
        decreases ws@.len() - from,
    {
        let to: usize = if ws.len() - from > k {
            from + k
        } else {
            ws.len()
        };
        let ghost rest = all.skip(from as int);
        let ghost before = texts(r@);
        let piece = join_range(&ws, from, to, " ");
        proof {
            assert(texts(ws@.subrange(from as int, to as int)) =~= all.subrange(
                from as int,
                to as int,
            ));
            if rest.len() <= k {
                assert(rest =~= all.subrange(from as int, to as int));
                assert(all.skip(to as int) =~= Seq::empty());
            } else {
                assert(rest.take(k as int) =~= all.subrange(from as int, to as int));
                assert(rest.skip(k as int) =~= all.skip(to as int));
            }
        }
        let ghost p = piece@;
        r.push(piece);
        proof {
            assert(texts(r@) =~= before.push(p));
            assert(before.push(p) + passages_of(all.skip(to as int), k as nat) =~= before
                + passages_of(rest, k as nat));
        }
        from = to;
    }
    assert(all.skip(from as int) =~= Seq::empty());
    assert(texts(r@) =~= passages_of(all, k as nat));
    r
}

// ---------------------------------------------------------------------------------------------
// The index
// ---------------------------------------------------------------------------------------------

/// How often a term occurs in a list.
pub open spec fn occurrences(ts: Seq<Seq<char>>, t: Seq<char>) -> nat
    decreases ts.len(),
{
    if ts.len() == 0 {
        0
    } else {
        occurrences(ts.drop_last(), t) + if ts.last() == t {
            1nat
        } else {
            0nat
        }
    }
}

/// In how many of the texts a term occurs.
pub open spec fn spread(chunks: Seq<Seq<char>>, t: Seq<char>) -> nat
    decreases chunks.len(),
{
    if chunks.len() == 0 {
        0
    } else {
        spread(chunks.drop_last(), t) + if occurrences(terms_of(chunks.last()), t) > 0 {
            1nat
        } else {
            0nat
        }
    }
}

/// How many terms the texts have in all.
pub open spec fn term_total(chunks: Seq<Seq<char>>) -> nat
    decreases chunks.len(),
{
    if chunks.len() == 0 {
        0
    } else {
        term_total(chunks.drop_last()) + terms_of(chunks.last()).len()
    }
}

/// A map counts a list: it has the terms of the list and how often each occurs.
pub open spec fn counts(m: Map<Seq<char>, usize>, ts: Seq<Seq<char>>) -> bool {
    forall|t: Seq<char>|
        #![trigger m.dom().contains(t)]
        #![trigger occurrences(ts, t)]
        m.dom().contains(t) == (occurrences(ts, t) > 0) && (m.dom().contains(t) ==> m[t]
            == occurrences(ts, t))
}

/// A map counts in how many of the texts each term occurs.
pub open spec fn counts_spread(m: Map<Seq<char>, usize>, chunks: Seq<Seq<char>>) -> bool {
    forall|t: Seq<char>|
        #![trigger m.dom().contains(t)]
        #![trigger spread(chunks, t)]
        m.dom().contains(t) == (spread(chunks, t) > 0) && (m.dom().contains(t) ==> m[t] == spread(
            chunks,
            t,
        ))
}

/// An indexed corpus.
pub struct Corpus {
    /// The passages, as they are handed out.
    pub chunks: Vec<String>,
    /// How often each term occurs in each passage.
    pub tf: Vec<StringHashMap<usize>>,
    /// In how many passages each term occurs.
    pub df: StringHashMap<usize>,
    /// How many terms each passage has.
    pub lens: Vec<usize>,
    /// How many terms there are in all.
    pub total: u128,
}

impl Corpus {
    /// The index counts its passages.
    pub open spec fn wf(&self) -> bool {
        let all = texts(self.chunks@);
        &&& self.tf@.len() == all.len()
        &&& self.lens@.len() == all.len()
        &&& forall|i: int|
            0 <= i < all.len() ==> counts((#[trigger] self.tf@[i])@, terms_of(all[i]))
        &&& forall|i: int|
            0 <= i < all.len() ==> #[trigger] self.lens@[i] == terms_of(all[i]).len()
        &&& counts_spread(self.df@, all)
        &&& self.total == term_total(all)
    }

    /// The passages.
    pub open spec fn passages(&self) -> Seq<Seq<char>> {
        texts(self.chunks@)
    }

    /// The text of a passage.
    pub fn chunk_text(&self, i: usize) -> (s: &str)
        requires
            i < self.passages().len(),
        ensures
            s@ == self.passages()[i as int],
    {
        self.chunks[i].as_str()
    }
}

proof fn lemma_occurrences_bound(ts: Seq<Seq<char>>, t: Seq<char>)
    ensures
        occurrences(ts, t) <= ts.len(),
    decreases ts.len(),
{
    if ts.len() > 0 {
        lemma_occurrences_bound(ts.drop_last(), t);
    }
}

proof fn lemma_spread_bound(chunks: Seq<Seq<char>>, t: Seq<char>)
    ensures
        spread(chunks, t) <= chunks.len(),
    decreases chunks.len(),
{
    if chunks.len() > 0 {
        lemma_spread_bound(chunks.drop_last(), t);
    }
}

/// Which of the terms of a text, up to the `n`th, have been added to the spread of the texts before
/// it.
spec fn partial_spread(
    chunks: Seq<Seq<char>>,
    ts: Seq<Seq<char>>,
    n: int,
    t: Seq<char>,
) -> nat {
    spread(chunks, t) + if occurrences(ts.take(n), t) > 0 {
        1nat
    } else {
        0nat
    }
}

spec fn counts_partial(
    m: Map<Seq<char>, usize>,
    chunks: Seq<Seq<char>>,
    ts: Seq<Seq<char>>,
    n: int,
) -> bool {
    forall|t: Seq<char>|
        #![trigger m.dom().contains(t)]
        #![trigger partial_spread(chunks, ts, n, t)]
        m.dom().contains(t) == (partial_spread(chunks, ts, n, t) > 0) && (m.dom().contains(t)
            ==> m[t] == partial_spread(chunks, ts, n, t))
}

/// Count the terms of one passage, and add each of them once to the spread.
fn count_terms(
    ts: &Vec<String>,
    df: &mut StringHashMap<usize>,
    Ghost(earlier): Ghost<Seq<Seq<char>>>,
) -> (tf: StringHashMap<usize>)
    requires
        counts_spread(old(df)@, earlier),
        earlier.len() < usize::MAX,
    ensures
        counts(tf@, texts(ts@)),
        counts_partial(final(df)@, earlier, texts(ts@), ts@.len() as int),
{
    let ghost all = texts(ts@);
    let mut tf: StringHashMap<usize> = StringHashMap::new();
    let mut i: usize = 0;
    proof {
        assert(all.take(0) =~= Seq::empty());
        assert(counts(tf@, all.take(0)));
        assert forall|t: Seq<char>|
            #![trigger df@.dom().contains(t)]
            #![trigger partial_spread(earlier, all, 0, t)]
            df@.dom().contains(t) == (partial_spread(earlier, all, 0, t) > 0)
                && (df@.dom().contains(t) ==> df@[t] == partial_spread(earlier, all, 0, t)) by {
            assert(spread(earlier, t) == partial_spread(earlier, all, 0, t));
        }
    }
    while i < ts.len()
        invariant
            i <= ts@.len(),
            all == texts(ts@),
            earlier.len() < usize::MAX,
            counts(tf@, all.take(i as int)),
            counts_partial(df@, earlier, all, i as int),
        decreases ts@.len() - i,
    {
        let ghost t = ts@[i as int]@;
        let ghost before = all.take(i as int);
        let ghost after = all.take(i + 1);
        let ghost tf0 = tf@;
        let ghost df0 = df@;
        proof {
            assert(after.drop_last() =~= before);
            assert(after.last() == t);
            lemma_occurrences_bound(before, t);
            lemma_spread_bound(earlier, t);
            assert(tf0.dom().contains(t) == (occurrences(before, t) > 0));
            assert(df0.dom().contains(t) == (partial_spread(earlier, all, i as int, t) > 0));
        }
        let seen: usize = match tf.get(ts[i].as_str()) {
            Some(n) => *n,
            None => 0,
        };
        if seen == 0 {
            let wide: usize = match df.get(ts[i].as_str()) {
                Some(n) => *n,
                None => 0,
            };
            df.insert(ts[i].clone(), wide + 1);
        }
        tf.insert(ts[i].clone(), seen + 1);
        proof {
            assert forall|u: Seq<char>|
                #![trigger tf@.dom().contains(u)]
                #![trigger occurrences(after, u)]
                tf@.dom().contains(u) == (occurrences(after, u) > 0) && (tf@.dom().contains(u)
                    ==> tf@[u] == occurrences(after, u)) by {
                assert(tf0.dom().contains(u) == (occurrences(before, u) > 0));
                assert(occurrences(after, u) == occurrences(before, u) + if t == u {
                    1nat
                } else {
                    0nat
                });
            }
            assert forall|u: Seq<char>|
                #![trigger df@.dom().contains(u)]
                #![trigger partial_spread(earlier, all, i + 1, u)]
                df@.dom().contains(u) == (partial_spread(earlier, all, i + 1, u) > 0)
                    && (df@.dom().contains(u) ==> df@[u] == partial_spread(
                    earlier,
                    all,
                    i + 1,
                    u,
                )) by {
                assert(df0.dom().contains(u) == (partial_spread(earlier, all, i as int, u) > 0));
                assert(occurrences(after, u) == occurrences(before, u) + if t == u {
                    1nat
                } else {
                    0nat
                });
            }
        }
        i = i + 1;
    }
    assert(all.take(i as int) =~= all);
    tf
}

/// Index passages that have been cut already, so that another index can share them and their numbers.
pub fn index_chunks(chunks: Vec<String>) -> (c: Corpus)
    ensures
        c.wf(),
        c.chunks == chunks,
{
    let ghost all = texts(chunks@);
    let mut tf: Vec<StringHashMap<usize>> = Vec::new();
    let mut df: StringHashMap<usize> = StringHashMap::new();
    let mut lens: Vec<usize> = Vec::new();
    let mut total: u128 = 0;
    let mut i: usize = 0;
    assert(all.take(0) =~= Seq::empty());
    assert(counts_spread(df@, all.take(0)));
    while i < chunks.len()
        invariant
            i <= chunks@.len(),
            all == texts(chunks@),
            tf@.len() == i,
            lens@.len() == i,
            forall|k: int| 0 <= k < i ==> counts((#[trigger] tf@[k])@, terms_of(all[k])),
            forall|k: int| 0 <= k < i ==> #[trigger] lens@[k] == terms_of(all[k]).len(),
            counts_spread(df@, all.take(i as int)),
            total == term_total(all.take(i as int)),
            total <= i * usize::MAX,
        decreases chunks@.len() - i,
    {
        let ts = terms(chunks[i].as_str());
        let ghost before = all.take(i as int);
        let ghost after = all.take(i + 1);
        proof {
            assert(after.drop_last() =~= before);
            assert(after.last() == all[i as int]);
            assert(texts(ts@) == terms_of(all[i as int]));
            assert(texts(ts@).len() == ts@.len());
            assert(i * usize::MAX + usize::MAX == (i + 1) * usize::MAX) by (nonlinear_arith);
            assert((i + 1) * usize::MAX <= u128::MAX) by (nonlinear_arith)
                requires
                    i < usize::MAX,
            ;
        }
        lens.push(ts.len());
        total = total + ts.len() as u128;
        let counted = count_terms(&ts, &mut df, Ghost(before));
        proof {
            let n = ts@.len() as int;
            assert(texts(ts@).take(n) =~= texts(ts@));
            assert forall|t: Seq<char>|
                #![trigger df@.dom().contains(t)]
                #![trigger spread(after, t)]
                df@.dom().contains(t) == (spread(after, t) > 0) && (df@.dom().contains(t) ==> df@[t]
                    == spread(after, t)) by {
                assert(partial_spread(before, texts(ts@), n, t) == spread(after, t));
            }
        }
        tf.push(counted);
        i = i + 1;
    }
    assert(all.take(i as int) =~= all);
    Corpus { chunks, tf, df, lens, total }
}

/// Cut a text into passages and index them.
pub fn index(text: &str, chunk_words: usize) -> (c: Corpus)
    ensures
        c.wf(),
        c.passages() == passages_of(
            words(text@),
            if chunk_words == 0 {
                1
            } else {
                chunk_words as nat
            },
        ),
{
    index_chunks(chunk(text, chunk_words))
}

// ---------------------------------------------------------------------------------------------
// Ranking
// ---------------------------------------------------------------------------------------------

/// `r` ranks the kept places: each of them once and nothing else, highest score first, and the earlier
/// of two with the same score first.
pub open spec fn ranking(scores: Seq<F32>, keep: spec_fn(F32) -> bool, r: Seq<usize>) -> bool {
    &&& forall|i: int| 0 <= i < r.len() ==> #[trigger] r[i] < scores.len() && keep(scores[r[i] as int])
    &&& forall|p: usize| p < scores.len() && keep(#[trigger] scores[p as int]) ==> r.contains(p)
    &&& forall|i: int, j: int|
        0 <= i < j < r.len() ==> likelier(scores, #[trigger] r[i] as int, #[trigger] r[j] as int)
}

/// There is one ranking only.
pub proof fn lemma_ranking_is_one(
    scores: Seq<F32>,
    keep: spec_fn(F32) -> bool,
    a: Seq<usize>,
    b: Seq<usize>,
)
    requires
        ranking(scores, keep, a),
        ranking(scores, keep, b),
    ensures
        a == b,
{
    let n = if a.len() <= b.len() {
        a.len() as int
    } else {
        b.len() as int
    };
    lemma_same_prefix(scores, keep, a, b, n);
    if a.len() < b.len() {
        let x = b[n];
        assert(a.contains(x));
        let k = choose|k: int| 0 <= k < a.len() && a[k] == x;
        assert(likelier(scores, b[k] as int, b[n] as int));
    } else if b.len() < a.len() {
        let x = a[n];
        assert(b.contains(x));
        let k = choose|k: int| 0 <= k < b.len() && b[k] == x;
        assert(likelier(scores, a[k] as int, a[n] as int));
    }
    assert(a =~= b);
}

proof fn lemma_same_prefix(
    scores: Seq<F32>,
    keep: spec_fn(F32) -> bool,
    a: Seq<usize>,
    b: Seq<usize>,
    n: int,
)
    requires
        ranking(scores, keep, a),
        ranking(scores, keep, b),
        0 <= n <= a.len(),
        n <= b.len(),
    ensures
        forall|i: int| 0 <= i < n ==> a[i] == b[i],
    decreases n,
{
    if n > 0 {
        lemma_same_prefix(scores, keep, a, b, n - 1);
        let x = a[n - 1];
        let y = b[n - 1];
        assert(b.contains(x));
        assert(a.contains(y));
        let i = choose|i: int| 0 <= i < b.len() && b[i] == x;
        let j = choose|j: int| 0 <= j < a.len() && a[j] == y;
        if i < n - 1 {
            assert(a[i] == b[i]);
            assert(likelier(scores, a[i] as int, a[n - 1] as int));
        }
        if j < n - 1 {
            assert(a[j] == b[j]);
            assert(likelier(scores, b[j] as int, b[n - 1] as int));
        }
        if i > n - 1 {
            assert(likelier(scores, b[n - 1] as int, b[i] as int));
            if j > n - 1 {
                assert(likelier(scores, a[n - 1] as int, a[j] as int));
            }
        }
    }
}

/// Put place `p` into a ranking of the places before it.
fn insert_ranked(scores: &Vec<F32>, r: &mut Vec<usize>, p: usize)
    requires
        p < scores@.len(),
        forall|i: int| 0 <= i < old(r)@.len() ==> #[trigger] old(r)@[i] < p,
        forall|i: int, j: int|
            0 <= i < j < old(r)@.len() ==> likelier(
                scores@,
                #[trigger] old(r)@[i] as int,
                #[trigger] old(r)@[j] as int,
            ),
    ensures
        forall|x: usize| final(r)@.contains(x) == (old(r)@.contains(x) || x == p),
        forall|i: int| 0 <= i < final(r)@.len() ==> #[trigger] final(r)@[i] <= p,
        forall|i: int, j: int|
            0 <= i < j < final(r)@.len() ==> likelier(
                scores@,
                #[trigger] final(r)@[i] as int,
                #[trigger] final(r)@[j] as int,
            ),
{
    let key: i64 = scores[p].total_key();
    // The first place whose score is lower: all before it score at least as high.
    let mut lo: usize = 0;
    let mut hi: usize = r.len();
    while lo < hi
        invariant
            lo <= hi <= r@.len(),
            r@ == old(r)@,
            p < scores@.len(),
            key == scores@[p as int].total_rank(),
            forall|i: int| 0 <= i < r@.len() ==> #[trigger] r@[i] < p,
            forall|i: int, j: int|
                0 <= i < j < r@.len() ==> likelier(
                    scores@,
                    #[trigger] r@[i] as int,
                    #[trigger] r@[j] as int,
                ),
            forall|i: int|
                0 <= i < lo ==> scores@[#[trigger] r@[i] as int].total_rank() >= key,
            forall|i: int|
                hi <= i < r@.len() ==> scores@[#[trigger] r@[i] as int].total_rank() < key,
        decreases hi - lo,
    {
        let mid: usize = lo + (hi - lo) / 2;
        assert(r@[mid as int] < p);
        if scores[r[mid]].total_key() >= key {
            assert forall|i: int| 0 <= i < mid + 1 implies scores@[#[trigger] r@[i] as int].total_rank()
                >= key by {
                if i < mid {
                    assert(likelier(scores@, r@[i] as int, r@[mid as int] as int));
                }
            }
            lo = mid + 1;
        } else {
            assert forall|i: int| mid <= i < r@.len() implies scores@[#[trigger] r@[i] as int].total_rank()
                < key by {
                if i > mid {
                    assert(likelier(scores@, r@[mid as int] as int, r@[i] as int));
                }
            }
            hi = mid;
        }
    }
    let ghost before = r@;
    r.insert(lo, p);
    proof {
        let after = r@;
        assert(after =~= before.insert(lo as int, p));
        assert forall|x: usize| after.contains(x) == (before.contains(x) || x == p) by {
            if before.contains(x) {
                let k = choose|k: int| 0 <= k < before.len() && before[k] == x;
                if k < lo {
                    assert(after[k] == x);
                } else {
                    assert(after[k + 1] == x);
                }
            }
            assert(after[lo as int] == p);
            if after.contains(x) {
                let k = choose|k: int| 0 <= k < after.len() && after[k] == x;
                if k < lo {
                    assert(before[k] == x);
                } else if k > lo {
                    assert(before[k - 1] == x);
                }
            }
        }
        assert forall|i: int| 0 <= i < after.len() implies #[trigger] after[i] <= p by {
            if i < lo {
                assert(after[i] == before[i]);
            } else if i > lo {
                assert(after[i] == before[i - 1]);
            }
        }
        assert forall|i: int, j: int| 0 <= i < j < after.len() implies likelier(
            scores@,
            #[trigger] after[i] as int,
            #[trigger] after[j] as int,
        ) by {
            if j < lo {
                assert(after[i] == before[i] && after[j] == before[j]);
            } else if j == lo {
                assert(after[i] == before[i]);
                assert(before[i] < p);
            } else if i < lo {
                assert(after[i] == before[i] && after[j] == before[j - 1]);
                assert(likelier(scores@, before[i] as int, before[j - 1] as int));
            } else if i == lo {
                assert(after[j] == before[j - 1]);
            } else {
                assert(after[i] == before[i - 1] && after[j] == before[j - 1]);
            }
        }
    }
}

/// The hits of a query in a passage: for each term of the query that occurs in it, in the order of the
/// query, how often it does and in how many passages it does.
pub open spec fn hits_of(
    passages: Seq<Seq<char>>,
    query: Seq<Seq<char>>,
    i: int,
    n: int,
) -> Seq<(usize, usize)>
    decreases n,
{
    if n <= 0 {
        Seq::empty()
    } else {
        let before = hits_of(passages, query, i, n - 1);
        let f = occurrences(terms_of(passages[i]), query[n - 1]);
        if f > 0 {
            before.push((f as usize, spread(passages, query[n - 1]) as usize))
        } else {
            before
        }
    }
}

/// Passage `i` has a term of the query.
pub open spec fn shares(passages: Seq<Seq<char>>, query: Seq<Seq<char>>, i: int) -> bool {
    exists|k: int|
        0 <= k < query.len() && #[trigger] terms_of(passages[i]).contains(query[k])
}

proof fn lemma_occurs(ts: Seq<Seq<char>>, t: Seq<char>)
    ensures
        occurrences(ts, t) > 0 <==> ts.contains(t),
    decreases ts.len(),
{
    if ts.len() > 0 {
        let head = ts.drop_last();
        lemma_occurs(head, t);
        if head.contains(t) {
            let k = choose|k: int| 0 <= k < head.len() && head[k] == t;
            assert(ts[k] == t);
        }
        if ts.contains(t) && ts.last() != t {
            let k = choose|k: int| 0 <= k < ts.len() && ts[k] == t;
            assert(head[k] == t);
        }
    }
}

proof fn lemma_hits_are_shared(passages: Seq<Seq<char>>, query: Seq<Seq<char>>, i: int, n: int)
    requires
        0 <= n <= query.len(),
    ensures
        hits_of(passages, query, i, n).len() > 0 <==> exists|k: int|
            0 <= k < n && #[trigger] terms_of(passages[i]).contains(query[k]),
    decreases n,
{
    if n > 0 {
        lemma_hits_are_shared(passages, query, i, n - 1);
        lemma_occurs(terms_of(passages[i]), query[n - 1]);
    }
}

/// `score` is the BM25 score of passage `i` for a query: zero where it has none of its terms.
pub open spec fn bm25_score<S: Scoring>(
    num: &S,
    passages: Seq<Seq<char>>,
    query: Seq<Seq<char>>,
    i: int,
    score: F32,
) -> bool {
    if shares(passages, query, i) {
        exists|hits: Vec<(usize, usize)>|
            hits@ == hits_of(passages, query, i, query.len() as int) && #[trigger] call_ensures(
                S::bm25,
                (
                    num,
                    &hits,
                    terms_of(passages[i]).len() as usize,
                    passages.len() as usize,
                    term_total(passages) as u128,
                ),
                score,
            )
    } else {
        score == F32(ZERO_BITS)
    }
}

/// A score above zero.
pub open spec fn positive() -> spec_fn(F32) -> bool {
    |f: F32| F32(ZERO_BITS).below(f)
}

/// `r` is the BM25 ranking of passages for a query: those with a positive score.
pub open spec fn bm25_ranking<S: Scoring>(
    num: &S,
    passages: Seq<Seq<char>>,
    query: Seq<char>,
    r: Seq<usize>,
) -> bool {
    exists|scores: Seq<F32>|
        {
            &&& scores.len() == passages.len()
            &&& forall|i: int|
                0 <= i < scores.len() ==> bm25_score(
                    num,
                    passages,
                    terms_of(query),
                    i,
                    #[trigger] scores[i],
                )
            &&& #[trigger] ranking(scores, positive(), r)
        }
}

fn collect_hits(corpus: &Corpus, query: &Vec<String>, i: usize) -> (hits: Vec<(usize, usize)>)
    requires
        corpus.wf(),
        i < corpus.passages().len(),
    ensures
        hits@ == hits_of(corpus.passages(), texts(query@), i as int, query@.len() as int),
{
    let ghost ps = corpus.passages();
    let ghost q = texts(query@);
    let mut hits: Vec<(usize, usize)> = Vec::new();
    let mut k: usize = 0;
    while k < query.len()
        invariant
            corpus.wf(),
            ps == corpus.passages(),
            q == texts(query@),
            i < ps.len(),
            k <= query@.len(),
            hits@ == hits_of(ps, q, i as int, k as int),
        decreases query@.len() - k,
    {
        let ghost t = q[k as int];
        assert(counts(corpus.tf@[i as int]@, terms_of(ps[i as int])));
        assert(corpus.tf@[i as int]@.dom().contains(t) == (occurrences(terms_of(ps[i as int]), t)
            > 0));
        match corpus.tf[i].get(query[k].as_str()) {
            None => {},
            Some(f) => {
                assert(corpus.df@.dom().contains(t) == (spread(ps, t) > 0));
                let wide: usize = match corpus.df.get(query[k].as_str()) {
                    Some(n) => *n,
                    None => 0,
                };
                hits.push((*f, wide));
            },
        }
        k = k + 1;
    }
    hits
}

/// The passages that score above zero, highest first: all of them share a term with the query.
pub fn rank_bm25<S: Scoring>(corpus: &Corpus, query: &str, num: &S) -> (r: Vec<usize>)
    requires
        corpus.wf(),
    ensures
        bm25_ranking(num, corpus.passages(), query@, r@),
        forall|k: int|
            0 <= k < r@.len() ==> #[trigger] r@[k] < corpus.passages().len() && shares(
                corpus.passages(),
                terms_of(query@),
                r@[k] as int,
            ),
{
    let q = terms(query);
    let ghost ps = corpus.passages();
    let n: usize = corpus.chunks.len();
    let mut scores: Vec<F32> = Vec::new();
    let mut i: usize = 0;
    while i < n
        invariant
            corpus.wf(),
            ps == corpus.passages(),
            n == ps.len(),
            n == corpus.chunks@.len(),
            texts(q@) == terms_of(query@),
            i <= n,
            scores@.len() == i,
            forall|k: int|
                0 <= k < i ==> bm25_score(num, ps, terms_of(query@), k, #[trigger] scores@[k]),
        decreases n - i,
    {
        let hits = collect_hits(corpus, &q, i);
        assert(corpus.lens@[i as int] == terms_of(ps[i as int]).len());
        let len: usize = corpus.lens[i];
        assert(texts(q@).len() == q@.len());
        proof {
            lemma_hits_are_shared(ps, terms_of(query@), i as int, q@.len() as int);
        }
        let s: F32 = if hits.len() == 0 {
            F32(ZERO_BITS)
        } else {
            let s: F32 = num.bm25(&hits, len, n, corpus.total);
            assert(call_ensures(S::bm25, (num, &hits, len, n, corpus.total), s));
            s
        };
        assert(bm25_score(num, ps, terms_of(query@), i as int, s));
        scores.push(s);
        i = i + 1;
    }
    let mut r: Vec<usize> = Vec::new();
    let mut p: usize = 0;
    while p < n
        invariant
            p <= n,
            n == scores@.len(),
            forall|i: int|
                0 <= i < r@.len() ==> #[trigger] r@[i] < p && positive()(scores@[r@[i] as int]),
            forall|x: usize| x < p && positive()(#[trigger] scores@[x as int]) ==> r@.contains(x),
            forall|i: int, j: int|
                0 <= i < j < r@.len() ==> likelier(
                    scores@,
                    #[trigger] r@[i] as int,
                    #[trigger] r@[j] as int,
                ),
        decreases n - p,
    {
        let ghost before = r@;
        if F32(ZERO_BITS).lt(scores[p]) {
            insert_ranked(&scores, &mut r, p);
            proof {
                assert forall|i: int| 0 <= i < r@.len() implies #[trigger] r@[i] < p + 1 && positive()(
                    scores@[r@[i] as int],
                ) by {
                    assert(r@.contains(r@[i]));
                    if r@[i] != p {
                        assert(before.contains(r@[i]));
                        let k = choose|k: int| 0 <= k < before.len() && before[k] == r@[i];
                    }
                }
                assert forall|x: usize| x < p + 1 && positive()(
                    #[trigger] scores@[x as int],
                ) implies r@.contains(x) by {
                    if x < p {
                        assert(before.contains(x));
                    }
                }
            }
        }
        p = p + 1;
    }
    assert(ranking(scores@, positive(), r@));
    assert forall|k: int| 0 <= k < r@.len() implies #[trigger] r@[k] < ps.len() && shares(
        ps,
        terms_of(query@),
        r@[k] as int,
    ) by {
        assert(bm25_score(num, ps, terms_of(query@), r@[k] as int, scores@[r@[k] as int]));
    }
    r
}

/// The best passage for a query; none where nothing scores above zero, as where nothing shares a term
/// with the query.
pub fn search<S: Scoring>(corpus: &Corpus, query: &str, num: &S) -> (r: Option<String>)
    requires
        corpus.wf(),
    ensures
        exists|ranked: Seq<usize>|
            {
                &&& #[trigger] bm25_ranking(num, corpus.passages(), query@, ranked)
                &&& match r {
                    Some(s) => ranked.len() > 0 && s@ == corpus.passages()[ranked[0] as int],
                    None => ranked.len() == 0,
                }
            },
        r matches Some(s) ==> exists|i: int|
            0 <= i < corpus.passages().len() && s@ == #[trigger] corpus.passages()[i] && shares(
                corpus.passages(),
                terms_of(query@),
                i,
            ),
{
    let ranked = rank_bm25(corpus, query, num);
    if ranked.len() == 0 {
        return None;
    }
    let best: usize = ranked[0];
    assert(best < corpus.passages().len());
    Some(corpus.chunks[best].clone())
}

/// The embeddings of passages, in the order of the passages.
pub struct SemanticIndex {
    pub embeddings: Vec<Vec<F32>>,
}

impl SemanticIndex {
    /// An index over embeddings.
    pub fn new(embeddings: Vec<Vec<F32>>) -> (i: Self)
        ensures
            i.embeddings == embeddings,
    {
        SemanticIndex { embeddings }
    }
}

/// Every score is kept.
pub open spec fn every() -> spec_fn(F32) -> bool {
    |f: F32| true
}

/// `r` ranks all embeddings by their closeness to a query.
pub open spec fn semantic_ranking<S: Scoring>(
    num: &S,
    embeddings: Seq<Vec<F32>>,
    query: Vec<F32>,
    r: Seq<usize>,
) -> bool {
    exists|scores: Seq<F32>|
        {
            &&& scores.len() == embeddings.len()
            &&& forall|i: int|
                0 <= i < scores.len() ==> call_ensures(
                    S::dot,
                    (num, &embeddings[i], &query),
                    #[trigger] scores[i],
                )
            &&& #[trigger] ranking(scores, every(), r)
        }
}

/// All passages, closest first. Unlike the lexical ranking this leaves none out.
pub fn rank_semantic<S: Scoring>(index: &SemanticIndex, query: &Vec<F32>, num: &S) -> (r: Vec<usize>)
    ensures
        semantic_ranking(num, index.embeddings@, *query, r@),
        forall|i: int| 0 <= i < r@.len() ==> #[trigger] r@[i] < index.embeddings@.len(),
{
    let n: usize = index.embeddings.len();
    let mut scores: Vec<F32> = Vec::new();
    let mut r: Vec<usize> = Vec::new();
    let mut p: usize = 0;
    while p < n
        invariant
            p <= n,
            n == index.embeddings@.len(),
            scores@.len() == p,
            forall|i: int|
                0 <= i < scores@.len() ==> call_ensures(
                    S::dot,
                    (num, &index.embeddings@[i], query),
                    #[trigger] scores@[i],
                ),
            forall|i: int| 0 <= i < r@.len() ==> #[trigger] r@[i] < p,
            forall|x: usize| x < p ==> r@.contains(x),
            forall|i: int, j: int|
                0 <= i < j < r@.len() ==> likelier(
                    scores@,
                    #[trigger] r@[i] as int,
                    #[trigger] r@[j] as int,
                ),
        decreases n - p,
    {
        let s: F32 = num.dot(&index.embeddings[p], query);
        assert(call_ensures(S::dot, (num, &index.embeddings@[p as int], query), s));
        let ghost earlier = scores@;
        scores.push(s);
        let ghost before = r@;
        proof {
            assert forall|i: int, j: int| 0 <= i < j < r@.len() implies likelier(
                scores@,
                #[trigger] r@[i] as int,
                #[trigger] r@[j] as int,
            ) by {
                assert(likelier(earlier, r@[i] as int, r@[j] as int));
            }
        }
        insert_ranked(&scores, &mut r, p);
        assert forall|x: usize| x < p + 1 implies r@.contains(x) by {
            if x < p {
                assert(before.contains(x));
            }
        }
        p = p + 1;
    }
    assert(ranking(scores@, every(), r@));
    r
}

/// The ranks at which `doc` stands in the first `n` entries of a list, after those in `ranks`.
pub open spec fn ranks_in(list: Seq<usize>, doc: usize, n: int) -> Seq<usize>
    decreases n,
{
    if n <= 0 {
        Seq::empty()
    } else if list[n - 1] == doc {
        ranks_in(list, doc, n - 1).push((n - 1) as usize)
    } else {
        ranks_in(list, doc, n - 1)
    }
}

/// The ranks at which `doc` stands in the first `n` lists, list by list.
pub open spec fn ranks_of(lists: Seq<Vec<usize>>, doc: usize, n: int) -> Seq<usize>
    decreases n,
{
    if n <= 0 {
        Seq::empty()
    } else {
        ranks_of(lists, doc, n - 1) + ranks_in(lists[n - 1]@, doc, lists[n - 1]@.len() as int)
    }
}

/// `doc` stands in one of the lists.
pub open spec fn ranked_somewhere(lists: Seq<Vec<usize>>, doc: usize) -> bool {
    exists|l: int, i: int|
        0 <= l < lists.len() && 0 <= i < (#[trigger] lists[l])@.len() && #[trigger] lists[l]@[i]
            == doc
}

/// `score` is the fused score of `doc`.
pub open spec fn fused_score<S: Scoring>(
    num: &S,
    lists: Seq<Vec<usize>>,
    k: F32,
    doc: usize,
    score: F32,
) -> bool {
    exists|ranks: Vec<usize>|
        ranks@ == ranks_of(lists, doc, lists.len() as int) && #[trigger] call_ensures(
            S::fused,
            (num, &ranks, k),
            score,
        )
}

fn collect_ranks(lists: &Vec<Vec<usize>>, doc: usize) -> (r: Vec<usize>)
    ensures
        r@ == ranks_of(lists@, doc, lists@.len() as int),
{
    let mut r: Vec<usize> = Vec::new();
    let mut l: usize = 0;
    while l < lists.len()
        invariant
            l <= lists@.len(),
            r@ == ranks_of(lists@, doc, l as int),
        decreases lists@.len() - l,
    {
        let ghost before = r@;
        let mut i: usize = 0;
        assert(r@ =~= before + ranks_in(lists@[l as int]@, doc, 0));
        while i < lists[l].len()
            invariant
                l < lists@.len(),
                i <= lists@[l as int]@.len(),
                r@ == before + ranks_in(lists@[l as int]@, doc, i as int),
            decreases lists@[l as int]@.len() - i,
        {
            if lists[l][i] == doc {
                r.push(i);
            }
            i = i + 1;
            assert(r@ =~= before + ranks_in(lists@[l as int]@, doc, i as int));
        }
        l = l + 1;
    }
    r
}

/// Nothing stands in any of the lists.
pub open spec fn all_empty(lists: Seq<Vec<usize>>) -> bool {
    forall|l: int| 0 <= l < lists.len() ==> (#[trigger] lists[l])@.len() == 0
}

/// Fuse rankings by rank alone, so that scores of different scales need no common measure. The result
/// is something ranked somewhere whose fused score nothing ranked exceeds; none where nothing is
/// ranked. Which of several with the same score it is, is not said.
pub fn rrf_best<S: Scoring>(rankings: &Vec<Vec<usize>>, k: F32, num: &S) -> (r: Option<usize>)
    ensures
        match r {
            Some(doc) => {
                &&& ranked_somewhere(rankings@, doc)
                &&& exists|best: F32| #[trigger]
                    exceeded_by_none(num, rankings@, k, doc, best)
            },
            None => forall|doc: usize| !ranked_somewhere(rankings@, doc),
        },
        r is None ==> all_empty(rankings@),
{
    let mut best: Option<(usize, F32)> = None;
    let mut l: usize = 0;
    while l < rankings.len()
        invariant
            l <= rankings@.len(),
            match best {
                Some((doc, top)) => {
                    &&& ranked_somewhere(rankings@, doc)
                    &&& fused_score(num, rankings@, k, doc, top)
                    &&& forall|m: int, i: int|
                        0 <= m < l && 0 <= i < (#[trigger] rankings@[m])@.len() ==> scored_below(
                            num,
                            rankings@,
                            k,
                            #[trigger] rankings@[m]@[i],
                            top,
                        )
                },
                None => forall|m: int| 0 <= m < l ==> (#[trigger] rankings@[m])@.len() == 0,
            },
        decreases rankings@.len() - l,
    {
        let mut i: usize = 0;
        while i < rankings[l].len()
            invariant
                l < rankings@.len(),
                i <= rankings@[l as int]@.len(),
                match best {
                    Some((doc, top)) => {
                        &&& ranked_somewhere(rankings@, doc)
                        &&& fused_score(num, rankings@, k, doc, top)
                        &&& forall|m: int, j: int|
                            0 <= m < l && 0 <= j < (#[trigger] rankings@[m])@.len()
                                ==> scored_below(
                                num,
                                rankings@,
                                k,
                                #[trigger] rankings@[m]@[j],
                                top,
                            )
                        &&& forall|j: int|
                            0 <= j < i ==> scored_below(
                                num,
                                rankings@,
                                k,
                                #[trigger] rankings@[l as int]@[j],
                                top,
                            )
                    },
                    None => i == 0 && forall|m: int|
                        0 <= m < l ==> (#[trigger] rankings@[m])@.len() == 0,
                },
            decreases rankings@[l as int]@.len() - i,
        {
            let doc: usize = rankings[l][i];
            let ranks = collect_ranks(rankings, doc);
            let s: F32 = num.fused(&ranks, k);
            assert(call_ensures(S::fused, (num, &ranks, k), s));
            assert(fused_score(num, rankings@, k, doc, s));
            assert(ranked_somewhere(rankings@, doc));
            let better: bool = match best {
                None => true,
                Some((_, top)) => top.total_key() < s.total_key(),
            };
            if better {
                proof {
                    if let Some((_, top)) = best {
                        assert forall|d: usize| scored_below(
                            num,
                            rankings@,
                            k,
                            d,
                            top,
                        ) implies #[trigger] scored_below(num, rankings@, k, d, s) by {
                            let t = choose|t: F32| #[trigger]
                                fused_score(num, rankings@, k, d, t) && t.total_rank()
                                    <= top.total_rank();
                            assert(fused_score(num, rankings@, k, d, t));
                        }
                    }
                }
                best = Some((doc, s));
            }
            i = i + 1;
        }
        l = l + 1;
    }
    match best {
        Some((doc, top)) => {
            assert forall|other: usize| #[trigger] ranked_somewhere(
                rankings@,
                other,
            ) implies scored_below(num, rankings@, k, other, top) by {
                let (m, i) = choose|m: int, i: int|
                    0 <= m < rankings@.len() && 0 <= i < (#[trigger] rankings@[m])@.len()
                        && #[trigger] rankings@[m]@[i] == other;
                assert(scored_below(num, rankings@, k, rankings@[m]@[i], top));
            }
            assert(exceeded_by_none(num, rankings@, k, doc, top));
            Some(doc)
        },
        None => {
            assert forall|doc: usize| !ranked_somewhere(rankings@, doc) by {
                if ranked_somewhere(rankings@, doc) {
                    let (m, i) = choose|m: int, i: int|
                        0 <= m < rankings@.len() && 0 <= i < (#[trigger] rankings@[m])@.len()
                            && #[trigger] rankings@[m]@[i] == doc;
                    assert(rankings@[m]@.len() == 0);
                }
            }
            None
        },
    }
}

/// `doc` has a fused score that does not exceed `top`.
pub open spec fn scored_below<S: Scoring>(
    num: &S,
    lists: Seq<Vec<usize>>,
    k: F32,
    doc: usize,
    top: F32,
) -> bool {
    exists|s: F32| #[trigger]
        fused_score(num, lists, k, doc, s) && s.total_rank() <= top.total_rank()
}

/// `best` is the fused score of `doc`, and nothing that is ranked exceeds it.
pub open spec fn exceeded_by_none<S: Scoring>(
    num: &S,
    lists: Seq<Vec<usize>>,
    k: F32,
    doc: usize,
    best: F32,
) -> bool {
    &&& fused_score(num, lists, k, doc, best)
    &&& forall|other: usize| #[trigger]
        ranked_somewhere(lists, other) ==> scored_below(num, lists, k, other, best)
}

/// The text that is embedded for a query.
pub fn embedded_query(query: &str) -> (r: String)
    ensures
        r@ == RAG_INSTRUCT@ + query@,
{
    let mut r = RAG_INSTRUCT.to_owned();
    r.append(query);
    r
}

/// The passage that both rankings fused put first: `bm` ranks by words and `sem` by embeddings.
pub open spec fn fused_hit<S: Scoring>(
    num: &S,
    passages: Seq<Seq<char>>,
    bm: Vec<usize>,
    sem: Vec<usize>,
    hit: Option<Seq<char>>,
) -> bool {
    let lists = seq![bm, sem];
    match hit {
        Some(s) => exists|doc: usize, best: F32|
            {
                &&& #[trigger] exceeded_by_none(num, lists, F32(RRF_K_BITS), doc, best)
                &&& ranked_somewhere(lists, doc)
                &&& doc < passages.len()
                &&& s == passages[doc as int]
            },
        None => bm@.len() == 0 && sem@.len() == 0,
    }
}

/// Search by words and by embeddings at once: both rankings are fused, and the passage that comes out
/// first is handed back. `embedded` is the embedding of the query. Only ranks count, so that the two
/// kinds of score need not be comparable.
pub fn hybrid_search<S: Scoring>(
    corpus: &Corpus,
    semantic: &SemanticIndex,
    query: &str,
    embedded: &Vec<F32>,
    num: &S,
) -> (r: Option<String>)
    requires
        corpus.wf(),
        semantic.embeddings@.len() <= corpus.passages().len(),
    ensures
        exists|bm: Vec<usize>, sem: Vec<usize>|
            {
                &&& #[trigger] bm25_ranking(num, corpus.passages(), query@, bm@)
                &&& #[trigger] semantic_ranking(num, semantic.embeddings@, *embedded, sem@)
                &&& fused_hit(
                    num,
                    corpus.passages(),
                    bm,
                    sem,
                    match r {
                        Some(s) => Some(s@),
                        None => None,
                    },
                )
            },
{
    let bm = rank_bm25(corpus, query, num);
    let sem = rank_semantic(semantic, embedded, num);
    let ghost (b, s) = (bm, sem);
    let mut lists: Vec<Vec<usize>> = Vec::new();
    lists.push(bm);
    lists.push(sem);
    assert(lists@ =~= seq![b, s]);
    assert(bm25_ranking(num, corpus.passages(), query@, b@));
    assert(semantic_ranking(num, semantic.embeddings@, *embedded, s@));
    match rrf_best(&lists, F32(RRF_K_BITS), num) {
        Some(doc) => {
            proof {
                let (m, i) = choose|m: int, i: int|
                    0 <= m < lists@.len() && 0 <= i < (#[trigger] lists@[m])@.len()
                        && #[trigger] lists@[m]@[i] == doc;
                if m == 0 {
                    assert(b@[i] == doc);
                } else {
                    assert(s@[i] == doc);
                }
                assert(doc < corpus.passages().len());
            }
            let hit = corpus.chunk_text(doc).to_owned();
            proof {
                let best = choose|best: F32| #[trigger]
                    exceeded_by_none(num, lists@, F32(RRF_K_BITS), doc, best);
                assert(exceeded_by_none(num, seq![b, s], F32(RRF_K_BITS), doc, best));
                assert(fused_hit(num, corpus.passages(), b, s, Some(hit@)));
            }
            Some(hit)
        },
        None => {
            proof {
                if b@.len() > 0 {
                    assert(lists@[0]@[0] == b@[0]);
                    assert(ranked_somewhere(lists@, b@[0]));
                }
                if s@.len() > 0 {
                    assert(lists@[1]@[0] == s@[0]);
                    assert(ranked_somewhere(lists@, s@[0]));
                }
                assert(fused_hit(num, corpus.passages(), b, s, None));
            }
            None
        },
    }
}

// ---------------------------------------------------------------------------------------------
// Laws
// ---------------------------------------------------------------------------------------------

/// The hits could be those of a passage of `len` terms among `passages` passages.
pub open spec fn countable_hits(hits: Seq<(usize, usize)>, len: usize, passages: usize) -> bool {
    forall|i: int|
        0 <= i < hits.len() ==> 0 < (#[trigger] hits[i]).0 <= len && 0 < hits[i].1 <= passages
}

/// Among this many passages a hit scores above zero, as the arithmetic has it.
pub open spec fn hits_score<S: Scoring>(num: &S, passages: usize) -> bool {
    forall|hits: Vec<(usize, usize)>, len: usize, total: u128, score: F32|
        hits@.len() > 0 && countable_hits(hits@, len, passages) && len <= total
            && #[trigger] call_ensures(S::bm25, (num, &hits, len, passages, total), score)
            ==> F32(ZERO_BITS).below(score)
}

proof fn lemma_hits_are_countable(corpus: &Corpus, query: Seq<Seq<char>>, i: int, n: int)
    requires
        corpus.wf(),
        0 <= i < corpus.passages().len(),
        0 <= n <= query.len(),
    ensures
        countable_hits(
            hits_of(corpus.passages(), query, i, n),
            terms_of(corpus.passages()[i]).len() as usize,
            corpus.passages().len() as usize,
        ),
    decreases n,
{
    if n > 0 {
        lemma_hits_are_countable(corpus, query, i, n - 1);
        let ps = corpus.passages();
        let t = query[n - 1];
        lemma_occurrences_bound(terms_of(ps[i]), t);
        lemma_spread_bound(ps, t);
        assert(corpus.lens@[i] == terms_of(ps[i]).len());
        assert(ps.len() == corpus.chunks.len());
        if occurrences(terms_of(ps[i]), t) > 0 {
            lemma_spread_counts(ps, i, t);
        }
    }
}

proof fn lemma_spread_counts(passages: Seq<Seq<char>>, i: int, t: Seq<char>)
    requires
        0 <= i < passages.len(),
        occurrences(terms_of(passages[i]), t) > 0,
    ensures
        spread(passages, t) > 0,
    decreases passages.len(),
{
    if i < passages.len() - 1 {
        lemma_spread_counts(passages.drop_last(), i, t);
    }
}

proof fn lemma_total_counts(passages: Seq<Seq<char>>, i: int)
    requires
        0 <= i < passages.len(),
    ensures
        terms_of(passages[i]).len() <= term_total(passages),
    decreases passages.len(),
{
    if i < passages.len() - 1 {
        lemma_total_counts(passages.drop_last(), i);
    }
}

/// The ranking by words holds exactly the passages that share a term with the query, each of them once,
/// wherever a hit scores above zero.
pub proof fn lemma_what_shares_a_term_is_ranked<S: Scoring>(
    num: &S,
    corpus: &Corpus,
    query: Seq<char>,
    r: Seq<usize>,
)
    requires
        corpus.wf(),
        hits_score(num, corpus.passages().len() as usize),
        bm25_ranking(num, corpus.passages(), query, r),
    ensures
        forall|i: usize|
            i < corpus.passages().len() ==> (#[trigger] r.contains(i) <==> shares(
                corpus.passages(),
                terms_of(query),
                i as int,
            )),
        forall|k: int| 0 <= k < r.len() ==> #[trigger] r[k] < corpus.passages().len(),
        forall|j: int, k: int| 0 <= j < k < r.len() ==> #[trigger] r[j] != #[trigger] r[k],
{
    let ps = corpus.passages();
    let q = terms_of(query);
    assert(ps.len() == corpus.chunks.len());
    let scores = choose|scores: Seq<F32>|
        {
            &&& scores.len() == ps.len()
            &&& forall|i: int|
                0 <= i < scores.len() ==> bm25_score(num, ps, q, i, #[trigger] scores[i])
            &&& #[trigger] ranking(scores, positive(), r)
        };
    assert forall|i: usize| i < ps.len() implies (#[trigger] r.contains(i) <==> shares(
        ps,
        q,
        i as int,
    )) by {
        let score = scores[i as int];
        assert(bm25_score(num, ps, q, i as int, score));
        if shares(ps, q, i as int) {
            lemma_hits_are_shared(ps, q, i as int, q.len() as int);
            lemma_hits_are_countable(corpus, q, i as int, q.len() as int);
            lemma_total_counts(ps, i as int);
            assert(corpus.lens@[i as int] == terms_of(ps[i as int]).len());
            assert(F32(ZERO_BITS).below(score));
            assert(positive()(score));
        } else {
            assert(!F32(ZERO_BITS).below(score));
            if r.contains(i) {
                let k = choose|k: int| 0 <= k < r.len() && r[k] == i;
                assert(positive()(scores[r[k] as int]));
            }
        }
    }
    assert forall|j: int, k: int| 0 <= j < k < r.len() implies #[trigger] r[j] != #[trigger] r[k] by {
        assert(likelier(scores, r[j] as int, r[k] as int));
    }
}

/// The score of one list of hits is one number, whichever copy of the list is asked about.
pub open spec fn steady_hits<S: Scoring>(num: &S) -> bool {
    forall|h: Vec<(usize, usize)>, k: Vec<(usize, usize)>, len: usize, n: usize, total: u128, a: F32, b: F32|
        h@ == k@ && #[trigger] call_ensures(S::bm25, (num, &h, len, n, total), a)
            && #[trigger] call_ensures(S::bm25, (num, &k, len, n, total), b) ==> a == b
}

/// The ranking by words is reproducible: the same passages and the same query are ranked the same.
pub proof fn lemma_ranking_by_words_is_reproducible<S: Scoring>(
    num: &S,
    passages: Seq<Seq<char>>,
    query: Seq<char>,
    r: (Seq<usize>, Seq<usize>),
)
    requires
        steady_hits(num),
        bm25_ranking(num, passages, query, r.0),
        bm25_ranking(num, passages, query, r.1),
    ensures
        r.0 == r.1,
{
    let q = terms_of(query);
    let a = choose|scores: Seq<F32>|
        {
            &&& scores.len() == passages.len()
            &&& forall|i: int|
                0 <= i < scores.len() ==> bm25_score(num, passages, q, i, #[trigger] scores[i])
            &&& #[trigger] ranking(scores, positive(), r.0)
        };
    let b = choose|scores: Seq<F32>|
        {
            &&& scores.len() == passages.len()
            &&& forall|i: int|
                0 <= i < scores.len() ==> bm25_score(num, passages, q, i, #[trigger] scores[i])
            &&& #[trigger] ranking(scores, positive(), r.1)
        };
    assert forall|i: int| 0 <= i < a.len() implies a[i] == b[i] by {
        assert(bm25_score(num, passages, q, i, a[i]));
        assert(bm25_score(num, passages, q, i, b[i]));
    }
    assert(a =~= b);
    lemma_ranking_is_one(a, positive(), r.0, r.1);
}

/// The characters `a..b` of a text are a whole word of letters and digits.
pub open spec fn word_at(s: Seq<char>, a: int, b: int) -> bool {
    &&& 0 <= a < b <= s.len()
    &&& forall|i: int| a <= i < b ==> alphanumeric(#[trigger] s[i])
    &&& a == 0 || !alphanumeric(s[a - 1])
    &&& b == s.len() || !alphanumeric(s[b])
}

proof fn lemma_word_is_run(s: Seq<char>, a: int, b: int)
    ensures
        word_at(s, a, b) == maximal_run(s, |c: char| !alphanumeric(c), a, b),
{
    let sep = |c: char| !alphanumeric(c);
    if maximal_run(s, sep, a, b) {
        assert forall|i: int| a <= i < b implies alphanumeric(#[trigger] s[i]) by {
            assert(!sep(s[i]));
        }
    }
    if word_at(s, a, b) {
        assert forall|i: int| a <= i < b implies !sep(#[trigger] s[i]) by {}
    }
}

/// The terms of a text are its words of letters and digits of two characters and more, however long,
/// in small letters: each such word gives one term, in the order in which they stand, and there is no
/// other term.
pub proof fn lemma_terms_are_the_words(s: &str, r: Vec<String>) -> (spans: Seq<(int, int)>)
    requires
        call_ensures(terms, (s,), r),
    ensures
        r@.len() == spans.len(),
        forall|k: int|
            0 <= k < spans.len() ==> {
                let (a, b) = #[trigger] spans[k];
                &&& word_at(s@, a, b)
                &&& b - a >= 2
                &&& r@[k]@ == lowercase(s@.subrange(a, b))
            },
        forall|j: int, k: int|
            0 <= j < k < spans.len() ==> (#[trigger] spans[j]).1 < (#[trigger] spans[k]).0,
        forall|a: int, b: int| #[trigger]
            word_at(s@, a, b) && b - a >= 2 ==> spans.contains((a, b)),
{
    let spans = lemma_term_spans(s@);
    assert(texts(r@).len() == r@.len());
    assert forall|k: int| 0 <= k < spans.len() implies ({
        let (a, b) = #[trigger] spans[k];
        &&& word_at(s@, a, b)
        &&& b - a >= 2
        &&& r@[k]@ == lowercase(s@.subrange(a, b))
    }) by {
        assert(texts(r@)[k] == r@[k]@);
    }
    spans
}

proof fn lemma_term_spans(s: Seq<char>) -> (spans: Seq<(int, int)>)
    ensures
        terms_of(s).len() == spans.len(),
        forall|k: int|
            0 <= k < spans.len() ==> {
                let (a, b) = #[trigger] spans[k];
                &&& word_at(s, a, b)
                &&& b - a >= 2
                &&& terms_of(s)[k] == lowercase(s.subrange(a, b))
            },
        forall|j: int, k: int|
            0 <= j < k < spans.len() ==> (#[trigger] spans[j]).1 < (#[trigger] spans[k]).0,
        forall|a: int, b: int| #[trigger]
            word_at(s, a, b) && b - a >= 2 ==> spans.contains((a, b)),
{
    let sep = |c: char| !alphanumeric(c);
    let all = lemma_runs_are_the_maximal_ones(s, sep);
    let rs = runs(s, sep);
    let n = all.len() as int;
    let spans = lemma_long_spans(s, rs, all, n);
    assert(rs.take(n) =~= rs);
    assert forall|a: int, b: int| #[trigger] word_at(s, a, b) && b - a >= 2 implies spans.contains(
        (a, b),
    ) by {
        lemma_word_is_run(s, a, b);
        assert(!sep(s[a]));
        let k = choose|k: int| 0 <= k < all.len() && (#[trigger] all[k]).0 <= a < all[k].1;
        let (x, y) = all[k];
        assert(maximal_run(s, sep, x, y));
        if x < a {
            assert(!sep(s[a - 1]));
        }
        if b < y {
            assert(!sep(s[b]));
        }
        if y < b {
            assert(!sep(s[y]));
        }
        assert(all[k] == (a, b));
    }
    spans
}

proof fn lemma_long_spans(
    s: Seq<char>,
    rs: Seq<Seq<char>>,
    all: Seq<(int, int)>,
    n: int,
) -> (spans: Seq<(int, int)>)
    requires
        all_runs(s, |c: char| !alphanumeric(c), all),
        rs.len() == all.len(),
        forall|k: int| 0 <= k < all.len() ==> rs[k] == s.subrange((#[trigger] all[k]).0, all[k].1),
        0 <= n <= all.len(),
    ensures
        kept_terms(rs.take(n)).len() == spans.len(),
        forall|k: int|
            0 <= k < spans.len() ==> {
                let (a, b) = #[trigger] spans[k];
                &&& word_at(s, a, b)
                &&& b - a >= 2
                &&& kept_terms(rs.take(n))[k] == lowercase(s.subrange(a, b))
                &&& n < all.len() ==> b < all[n].0
            },
        forall|j: int, k: int|
            0 <= j < k < spans.len() ==> (#[trigger] spans[j]).1 < (#[trigger] spans[k]).0,
        forall|k: int|
            0 <= k < n && (#[trigger] all[k]).1 - all[k].0 >= 2 ==> spans.contains(all[k]),
    decreases n,
{
    if n == 0 {
        Seq::empty()
    } else {
        let before = lemma_long_spans(s, rs, all, n - 1);
        assert(rs.take(n).drop_last() =~= rs.take(n - 1));
        let last = all[n - 1];
        assert(maximal_run(s, |c: char| !alphanumeric(c), last.0, last.1));
        lemma_word_is_run(s, last.0, last.1);
        let spans = if last.1 - last.0 >= 2 {
            before.push(last)
        } else {
            before
        };
        assert forall|k: int|
            0 <= k < n && (#[trigger] all[k]).1 - all[k].0 >= 2 implies spans.contains(all[k]) by {
            if k < n - 1 {
                assert(before.contains(all[k]));
                let w = choose|w: int| 0 <= w < before.len() && before[w] == all[k];
                assert(spans[w] == all[k]);
            } else {
                assert(spans[before.len() as int] == last);
            }
        }
        if n < all.len() {
            assert(all[n - 1].1 < all[n].0);
        }
        spans
    }
}

/// What is ranked by words are exactly the passages that have a word of the query, whatever its length
/// and however it is capitalised, wherever a hit scores above zero.
pub proof fn lemma_a_word_of_the_query_is_found<S: Scoring>(
    num: &S,
    corpus: &Corpus,
    query: &str,
    r: Vec<usize>,
    i: usize,
)
    requires
        corpus.wf(),
        call_ensures(rank_bm25::<S>, (corpus, query, num), r),
        hits_score(num, corpus.chunks@.len() as usize),
        i < corpus.chunks@.len(),
    ensures
        r@.contains(i) <==> exists|a: int, b: int, c: int, d: int|
            {
                &&& #[trigger] word_at(query@, a, b)
                &&& b - a >= 2
                &&& #[trigger] word_at(corpus.chunks@[i as int]@, c, d)
                &&& d - c >= 2
                &&& lowercase(query@.subrange(a, b)) == lowercase(
                    corpus.chunks@[i as int]@.subrange(c, d),
                )
            },
{
    let ps = corpus.passages();
    assert(ps.len() == corpus.chunks@.len());
    lemma_what_shares_a_term_is_ranked(num, corpus, query@, r@);
    let q = terms_of(query@);
    let p = corpus.chunks@[i as int]@;
    assert(ps[i as int] == p);
    let qs = lemma_term_spans(query@);
    let cs = lemma_term_spans(p);
    assert(r@.contains(i) <==> shares(ps, q, i as int));
    if shares(ps, q, i as int) {
        let k = choose|k: int| 0 <= k < q.len() && #[trigger] terms_of(ps[i as int]).contains(q[k]);
        let m = choose|m: int| 0 <= m < terms_of(p).len() && terms_of(p)[m] == q[k];
        let (a, b) = qs[k];
        let (c, d) = cs[m];
        assert(word_at(query@, a, b) && word_at(p, c, d));
    }
    if exists|a: int, b: int, c: int, d: int|
        {
            &&& #[trigger] word_at(query@, a, b)
            &&& b - a >= 2
            &&& #[trigger] word_at(p, c, d)
            &&& d - c >= 2
            &&& lowercase(query@.subrange(a, b)) == lowercase(p.subrange(c, d))
        } {
        let (a, b, c, d) = choose|a: int, b: int, c: int, d: int|
            {
                &&& #[trigger] word_at(query@, a, b)
                &&& b - a >= 2
                &&& #[trigger] word_at(p, c, d)
                &&& d - c >= 2
                &&& lowercase(query@.subrange(a, b)) == lowercase(p.subrange(c, d))
            };
        assert(qs.contains((a, b)) && cs.contains((c, d)));
        let k = choose|k: int| 0 <= k < qs.len() && qs[k] == (a, b);
        let m = choose|m: int| 0 <= m < cs.len() && cs[m] == (c, d);
        assert(qs[k] == (a, b) && cs[m] == (c, d));
        assert(terms_of(p)[m] == q[k]);
        assert(terms_of(ps[i as int]).contains(q[k]));
    }
}

/// A search by words hands out one of the passages as it stands, and one that has a word of the query;
/// it finds one wherever there is such a passage and a hit scores above zero.
pub proof fn lemma_searching_finds_a_passage_with_a_word<S: Scoring>(
    num: &S,
    corpus: &Corpus,
    query: &str,
    r: Option<String>,
)
    requires
        corpus.wf(),
        call_ensures(search::<S>, (corpus, query, num), r),
        hits_score(num, corpus.chunks@.len() as usize),
    ensures
        r matches Some(s) ==> exists|i: int, a: int, b: int, c: int, d: int|
            {
                &&& 0 <= i < corpus.chunks@.len()
                &&& s@ == (#[trigger] corpus.chunks@[i])@
                &&& #[trigger] word_at(query@, a, b)
                &&& b - a >= 2
                &&& #[trigger] word_at(corpus.chunks@[i]@, c, d)
                &&& d - c >= 2
                &&& lowercase(query@.subrange(a, b)) == lowercase(
                    corpus.chunks@[i]@.subrange(c, d),
                )
            },
        (exists|i: int, a: int, b: int, c: int, d: int|
            {
                &&& 0 <= i < corpus.chunks@.len()
                &&& #[trigger] word_at(query@, a, b)
                &&& b - a >= 2
                &&& #[trigger] word_at((#[trigger] corpus.chunks@[i])@, c, d)
                &&& d - c >= 2
                &&& lowercase(query@.subrange(a, b)) == lowercase(
                    corpus.chunks@[i]@.subrange(c, d),
                )
            }) ==> r is Some,
{
    let ps = corpus.passages();
    assert(ps.len() == corpus.chunks.len());
    let q = terms_of(query@);
    let qs = lemma_term_spans(query@);
    let ranked = choose|ranked: Seq<usize>|
        {
            &&& #[trigger] bm25_ranking(num, ps, query@, ranked)
            &&& match r {
                Some(s) => ranked.len() > 0 && s@ == ps[ranked[0] as int],
                None => ranked.len() == 0,
            }
        };
    lemma_what_shares_a_term_is_ranked(num, corpus, query@, ranked);
    if let Some(s) = r {
        let i = ranked[0];
        assert(ranked.contains(i));
        assert(shares(ps, q, i as int));
        assert(ps[i as int] == corpus.chunks@[i as int]@);
        let p = ps[i as int];
        let cs = lemma_term_spans(p);
        let k = choose|k: int| 0 <= k < q.len() && #[trigger] terms_of(ps[i as int]).contains(q[k]);
        let m = choose|m: int| 0 <= m < terms_of(p).len() && terms_of(p)[m] == q[k];
        let (a, b) = qs[k];
        let (c, d) = cs[m];
        assert(word_at(query@, a, b) && word_at(corpus.chunks@[i as int]@, c, d));
    }
    if exists|i: int, a: int, b: int, c: int, d: int|
        {
            &&& 0 <= i < corpus.chunks@.len()
            &&& #[trigger] word_at(query@, a, b)
            &&& b - a >= 2
            &&& #[trigger] word_at((#[trigger] corpus.chunks@[i])@, c, d)
            &&& d - c >= 2
            &&& lowercase(query@.subrange(a, b)) == lowercase(corpus.chunks@[i]@.subrange(c, d))
        } {
        let (i, a, b, c, d) = choose|i: int, a: int, b: int, c: int, d: int|
            {
                &&& 0 <= i < corpus.chunks@.len()
                &&& #[trigger] word_at(query@, a, b)
                &&& b - a >= 2
                &&& #[trigger] word_at((#[trigger] corpus.chunks@[i])@, c, d)
                &&& d - c >= 2
                &&& lowercase(query@.subrange(a, b)) == lowercase(corpus.chunks@[i]@.subrange(c, d))
            };
        let p = ps[i];
        assert(p == corpus.chunks@[i]@);
        let cs = lemma_term_spans(p);
        assert(qs.contains((a, b)) && cs.contains((c, d)));
        let k = choose|k: int| 0 <= k < qs.len() && qs[k] == (a, b);
        let m = choose|m: int| 0 <= m < cs.len() && cs[m] == (c, d);
        assert(qs[k] == (a, b) && cs[m] == (c, d));
        assert(terms_of(p)[m] == q[k]);
        assert(terms_of(ps[i]).contains(q[k]));
        assert(ranked.contains(i as usize));
    }
}

/// A text is cut into passages of so many words each, the last of which may be shorter: the words stand
/// in their order, none is left out, and there are single blanks between them.
pub proof fn lemma_passages_are_so_many_words_each(text: &str, chunk_words: usize, r: Vec<String>)
    requires
        call_ensures(chunk, (text, chunk_words), r),
    ensures
        ({
            let ws = words(text@);
            let n = if chunk_words == 0 {
                1
            } else {
                chunk_words as int
            };
            &&& (r@.len() - 1) * n < ws.len() <= r@.len() * n || (ws.len() == 0 && r@.len() == 0)
            &&& forall|j: int|
                0 <= j < r@.len() ==> (#[trigger] r@[j])@ == joined(
                    ws.subrange(
                        j * n,
                        if (j + 1) * n <= ws.len() {
                            (j + 1) * n
                        } else {
                            ws.len() as int
                        },
                    ),
                    seq![' '],
                )
        }),
{
    let ws = words(text@);
    let n = if chunk_words == 0 {
        1
    } else {
        chunk_words as int
    };
    reveal_strlit(" ");
    assert(" "@ =~= seq![' ']);
    lemma_passages(ws, n);
    assert(texts(r@).len() == r@.len());
    assert forall|j: int| 0 <= j < r@.len() implies (#[trigger] r@[j])@ == joined(
        ws.subrange(
            j * n,
            if (j + 1) * n <= ws.len() {
                (j + 1) * n
            } else {
                ws.len() as int
            },
        ),
        seq![' '],
    ) by {
        assert(texts(r@)[j] == r@[j]@);
        assert(passages_of(ws, n as nat)[j] == r@[j]@);
    }
}

proof fn lemma_passages(ws: Seq<Seq<char>>, n: int)
    requires
        n >= 1,
    ensures
        ({
            let ps = passages_of(ws, n as nat);
            &&& (ps.len() - 1) * n < ws.len() <= ps.len() * n || (ws.len() == 0 && ps.len() == 0)
            &&& forall|j: int|
                0 <= j < ps.len() ==> #[trigger] ps[j] == joined(
                    ws.subrange(
                        j * n,
                        if (j + 1) * n <= ws.len() {
                            (j + 1) * n
                        } else {
                            ws.len() as int
                        },
                    ),
                    " "@,
                )
        }),
    decreases ws.len(),
{
    let ps = passages_of(ws, n as nat);
    if ws.len() == 0 {
    } else if ws.len() <= n {
        assert(ws.subrange(0, ws.len() as int) =~= ws);
        assert(ps.len() == 1);
        assert((ps.len() - 1) * n == 0 && ps.len() * n == n) by (nonlinear_arith)
            requires
                ps.len() == 1,
        ;
    } else {
        let rest = ws.skip(n);
        let qs = passages_of(rest, n as nat);
        lemma_passages(rest, n);
        assert(ps.len() == qs.len() + 1);
        let m = qs.len() as int;
        assert((m + 1) * n == m * n + n && (m - 1) * n == m * n - n) by (nonlinear_arith);
        assert forall|j: int| 0 <= j < ps.len() implies #[trigger] ps[j] == joined(
            ws.subrange(
                j * n,
                if (j + 1) * n <= ws.len() {
                    (j + 1) * n
                } else {
                    ws.len() as int
                },
            ),
            " "@,
        ) by {
            if j == 0 {
                assert(0 * n == 0 && (0 + 1) * n == n) by (nonlinear_arith);
                assert(ws.subrange(0, n) =~= ws.take(n));
            } else {
                let i = j - 1;
                assert(ps[j] == qs[i]);
                assert(j * n == i * n + n && (j + 1) * n == (i + 1) * n + n) by (nonlinear_arith)
                    requires
                        j == i + 1,
                ;
                assert(i * n >= 0 && i * n < rest.len()) by {
                    assert(i * n >= 0) by (nonlinear_arith)
                        requires
                            i >= 0,
                            n >= 1,
                    ;
                    assert(i * n <= (m - 1) * n) by (nonlinear_arith)
                        requires
                            i <= m - 1,
                            n >= 1,
                    ;
                }
                assert((i + 1) * n >= i * n) by (nonlinear_arith)
                    requires
                        n >= 1,
                ;
                let end = if (i + 1) * n <= rest.len() {
                    (i + 1) * n
                } else {
                    rest.len() as int
                };
                assert(rest.subrange(i * n, end) =~= ws.subrange(i * n + n, end + n));
            }
        }
    }
}

/// What the score of a passage is made of: for each term of the query that the passage has, in the order
/// of the query and as often as it is asked for, how often the passage has it and how many passages do.
pub open spec fn tally(
    passages: Seq<Seq<Seq<char>>>,
    query: Seq<Seq<char>>,
    i: int,
) -> Seq<(usize, usize)> {
    query.filter(|t: Seq<char>| passages[i].contains(t)).map_values(
        |t: Seq<char>|
            (
                passages[i].to_multiset().count(t) as usize,
                passages.filter(|p: Seq<Seq<char>>| p.contains(t)).len() as usize,
            ),
    )
}

/// `score` is the one that the arithmetic gives for the tally of a passage.
pub open spec fn scored_by_tally<S: Scoring>(
    num: &S,
    passages: Seq<Seq<Seq<char>>>,
    query: Seq<Seq<char>>,
    i: int,
    score: F32,
) -> bool {
    exists|hits: Vec<(usize, usize)>|
        hits@ == tally(passages, query, i) && #[trigger] call_ensures(
            S::bm25,
            (
                num,
                &hits,
                passages[i].len() as usize,
                passages.len() as usize,
                passages.flatten().len() as u128,
            ),
            score,
        )
}

/// The terms of each passage.
pub open spec fn term_lists(passages: Seq<Seq<char>>) -> Seq<Seq<Seq<char>>> {
    passages.map_values(|p: Seq<char>| terms_of(p))
}

proof fn lemma_occurrences_count(ts: Seq<Seq<char>>, t: Seq<char>)
    ensures
        occurrences(ts, t) == ts.to_multiset().count(t),
    decreases ts.len(),
{
    broadcast use vstd::seq_lib::group_to_multiset_ensures;

    if ts.len() > 0 {
        let head = ts.drop_last();
        lemma_occurrences_count(head, t);
        assert(head.push(ts.last()) =~= ts);
        assert(head.push(ts.last()).to_multiset() =~= head.to_multiset().insert(ts.last()));
    } else {
        assert(ts.to_multiset().len() == 0);
        assert(ts.to_multiset().count(t) == 0) by {
            assert(!ts.contains(t));
        }
    }
}

proof fn lemma_spread_filters(passages: Seq<Seq<char>>, t: Seq<char>)
    ensures
        spread(passages, t) == term_lists(passages).filter(
            |p: Seq<Seq<char>>| p.contains(t),
        ).len(),
    decreases passages.len(),
{
    reveal(Seq::filter);
    let all = term_lists(passages);
    if passages.len() > 0 {
        let head = passages.drop_last();
        lemma_spread_filters(head, t);
        assert(all.drop_last() =~= term_lists(head));
        assert(all.last() == terms_of(passages.last()));
        lemma_occurs(terms_of(passages.last()), t);
    }
}

proof fn lemma_hits_tally(passages: Seq<Seq<char>>, query: Seq<Seq<char>>, i: int, n: int)
    requires
        0 <= i < passages.len(),
        0 <= n <= query.len(),
    ensures
        hits_of(passages, query, i, n) == tally(term_lists(passages), query.take(n), i),
    decreases n,
{
    reveal(Seq::filter);
    let all = term_lists(passages);
    if n > 0 {
        lemma_hits_tally(passages, query, i, n - 1);
        let q = query.take(n);
        assert(q.drop_last() =~= query.take(n - 1));
        let t = query[n - 1];
        assert(q.last() == t);
        lemma_occurs(terms_of(passages[i]), t);
        lemma_occurrences_count(terms_of(passages[i]), t);
        lemma_spread_filters(passages, t);
        assert(hits_of(passages, query, i, n) =~= tally(all, q, i));
    } else {
        assert(hits_of(passages, query, i, n) =~= tally(all, query.take(0), i));
    }
}

proof fn lemma_total_flattens(passages: Seq<Seq<char>>)
    ensures
        term_total(passages) == term_lists(passages).flatten().len(),
    decreases passages.len(),
{
    if passages.len() == 0 {
        assert(term_lists(passages) =~= Seq::empty());
    } else {
        let head = passages.drop_last();
        lemma_total_flattens(head);
        assert(term_lists(passages) =~= term_lists(head).push(terms_of(passages.last())));
        lemma_flatten_push(term_lists(head), terms_of(passages.last()));
    }
}

/// `scores` are those that the arithmetic gives for what each passage has of the query: how often each
/// term, in how many passages, the length of the passage, the number of passages and the length of them
/// all; zero where it has no term of it. `r` ranks the passages that score above zero, each once, the
/// higher score first, and of two with the same score the earlier passage.
pub open spec fn ranked_by_tally<S: Scoring>(
    num: &S,
    passages: Seq<Seq<char>>,
    query: Seq<char>,
    scores: Seq<F32>,
    r: Seq<usize>,
) -> bool {
    let all = term_lists(passages);
    &&& scores.len() == all.len() == passages.len()
    &&& forall|i: int|
        0 <= i < all.len() && tally(all, terms_of(query), i).len() > 0 ==> scored_by_tally(
            num,
            all,
            terms_of(query),
            i,
            #[trigger] scores[i],
        )
    &&& forall|i: int|
        0 <= i < all.len() && tally(all, terms_of(query), i).len() == 0 ==> #[trigger] scores[i]
            == F32(0)
    &&& forall|j: int, k: int|
        0 <= j < k < r.len() ==> {
            let (x, y) = (#[trigger] r[j], #[trigger] r[k]);
            scores[x as int].total_rank() > scores[y as int].total_rank() || (
            scores[x as int].total_rank() == scores[y as int].total_rank() && x < y)
        }
    &&& forall|j: int|
        0 <= j < r.len() ==> #[trigger] r[j] < all.len() && F32(0).below(scores[r[j] as int])
    &&& forall|i: usize|
        i < all.len() && F32(0).below(#[trigger] scores[i as int]) ==> r.contains(i)
}

/// The passages are ranked by what they share with the query.
pub proof fn lemma_words_rank_by_what_is_shared<S: Scoring>(
    num: &S,
    corpus: &Corpus,
    query: &str,
    r: Vec<usize>,
) -> (scores: Seq<F32>)
    requires
        corpus.wf(),
        call_ensures(rank_bm25::<S>, (corpus, query, num), r),
    ensures
        ranked_by_tally(num, texts(corpus.chunks@), query@, scores, r@),
{
    lemma_ranked_by_tally(num, corpus.passages(), query@, r@)
}

/// A search gives the passage that is ranked first, and nothing only where nothing is ranked: no other
/// passage scores higher.
pub proof fn lemma_a_search_gives_the_best<S: Scoring>(
    num: &S,
    corpus: &Corpus,
    query: &str,
    r: Option<String>,
) -> (by: (Seq<usize>, Seq<F32>))
    requires
        corpus.wf(),
        call_ensures(search::<S>, (corpus, query, num), r),
    ensures
        ranked_by_tally(num, texts(corpus.chunks@), query@, by.1, by.0),
        (r is None) == (by.0.len() == 0),
        r is None ==> forall|i: int| 0 <= i < by.1.len() ==> !F32(0).below(#[trigger] by.1[i]),
        r matches Some(s) ==> {
            &&& s@ == corpus.chunks@[by.0[0] as int]@
            &&& F32(0).below(by.1[by.0[0] as int])
            &&& forall|i: int|
                0 <= i < by.1.len() && F32(0).below(#[trigger] by.1[i]) ==> by.1[i].total_rank()
                    <= by.1[by.0[0] as int].total_rank()
        },
{
    let ps = corpus.passages();
    let ranked = choose|ranked: Seq<usize>|
        {
            &&& #[trigger] bm25_ranking(num, ps, query@, ranked)
            &&& match r {
                Some(s) => ranked.len() > 0 && s@ == ps[ranked[0] as int],
                None => ranked.len() == 0,
            }
        };
    let scores = lemma_ranked_by_tally(num, ps, query@, ranked);
    assert forall|i: int| 0 <= i < scores.len() && F32(0).below(#[trigger] scores[i]) implies r is Some
        && scores[i].total_rank() <= scores[ranked[0] as int].total_rank() by {
        assert(scores.len() == corpus.chunks.len());
        let p = i as usize;
        assert(F32(0).below(scores[p as int]));
        assert(ranked.contains(p));
        let k = choose|k: int| 0 <= k < ranked.len() && ranked[k] == p;
        if k > 0 {
            assert(ranked[0] == ranked[0] && ranked[k] == p);
        }
    }
    match r {
        Some(s) => {
            assert(ranked[0] < scores.len() && F32(0).below(scores[ranked[0] as int]));
            assert(s@ == corpus.chunks@[ranked[0] as int]@);
        },
        None => {
            assert forall|i: int| 0 <= i < scores.len() implies !F32(0).below(#[trigger] scores[i]) by {}
        },
    }
    (ranked, scores)
}

proof fn lemma_ranked_by_tally<S: Scoring>(
    num: &S,
    ps: Seq<Seq<char>>,
    query: Seq<char>,
    r: Seq<usize>,
) -> (scores: Seq<F32>)
    requires
        bm25_ranking(num, ps, query, r),
    ensures
        ranked_by_tally(num, ps, query, scores, r),
{
    let q = terms_of(query);
    let all = term_lists(ps);
    let scores = choose|scores: Seq<F32>|
        {
            &&& scores.len() == ps.len()
            &&& forall|i: int|
                0 <= i < scores.len() ==> bm25_score(num, ps, q, i, #[trigger] scores[i])
            &&& #[trigger] ranking(scores, positive(), r)
        };
    lemma_total_flattens(ps);
    assert forall|i: int| 0 <= i < all.len() && tally(all, q, i).len() > 0 implies scored_by_tally(
        num,
        all,
        q,
        i,
        #[trigger] scores[i],
    ) by {
        lemma_hits_tally(ps, q, i, q.len() as int);
        assert(q.take(q.len() as int) =~= q);
        lemma_hits_are_shared(ps, q, i, q.len() as int);
        assert(bm25_score(num, ps, q, i, scores[i]));
        assert(shares(ps, q, i));
    }
    assert forall|i: int| 0 <= i < all.len() && tally(all, q, i).len() == 0 implies #[trigger] scores[i]
        == F32(0) by {
        lemma_hits_tally(ps, q, i, q.len() as int);
        assert(q.take(q.len() as int) =~= q);
        lemma_hits_are_shared(ps, q, i, q.len() as int);
        assert(bm25_score(num, ps, q, i, scores[i]));
    }
    assert forall|j: int| 0 <= j < r.len() implies #[trigger] r[j] < all.len() && F32(0).below(
        scores[r[j] as int],
    ) by {
        assert(positive()(scores[r[j] as int]));
    }
    assert forall|j: int, k: int| 0 <= j < k < r.len() implies ({
        let (x, y) = (#[trigger] r[j], #[trigger] r[k]);
        scores[x as int].total_rank() > scores[y as int].total_rank() || (
        scores[x as int].total_rank() == scores[y as int].total_rank() && x < y)
    }) by {
        assert(likelier(scores, r[j] as int, r[k] as int));
    }
    assert forall|i: usize| i < all.len() && F32(0).below(
        #[trigger] scores[i as int],
    ) implies r.contains(i) by {
        assert(positive()(scores[i as int]));
    }
    scores
}

/// By embeddings every passage is ranked once, the closest to the query first: by the dot product of
/// its own embedding with that of the query, and of two that are equally close the earlier one.
pub proof fn lemma_embeddings_rank_by_closeness<S: Scoring>(
    num: &S,
    index: &SemanticIndex,
    query: &Vec<F32>,
    r: Vec<usize>,
) -> (scores: Seq<F32>)
    requires
        call_ensures(rank_semantic::<S>, (index, query, num), r),
    ensures
        scores.len() == index.embeddings@.len(),
        forall|i: int|
            0 <= i < scores.len() ==> call_ensures(
                S::dot,
                (num, &index.embeddings@[i], query),
                #[trigger] scores[i],
            ),
        forall|i: usize| i < scores.len() ==> #[trigger] r@.contains(i),
        forall|j: int| 0 <= j < r@.len() ==> #[trigger] r@[j] < scores.len(),
        forall|j: int, k: int|
            0 <= j < k < r@.len() ==> {
                let (x, y) = (#[trigger] r@[j], #[trigger] r@[k]);
                scores[x as int].total_rank() > scores[y as int].total_rank() || (
                scores[x as int].total_rank() == scores[y as int].total_rank() && x < y)
            },
{
    lemma_ranked_by_closeness(num, index.embeddings@, *query, r@)
}

/// The places of `doc` among the first `n` of a list, counted from 0.
pub open spec fn places(l: Seq<usize>, doc: usize, n: nat) -> Seq<usize> {
    Seq::new(n, |i: int| i as usize).filter(|i: usize| l[i as int] == doc)
}

/// Where `doc` stands in the lists: its places counted from 0, list by list.
pub open spec fn standings(lists: Seq<Seq<usize>>, doc: usize) -> Seq<usize> {
    Seq::new(lists.len(), |l: int| places(lists[l], doc, lists[l].len())).flatten()
}

proof fn lemma_ranks_in_filter(l: Seq<usize>, doc: usize, n: int)
    requires
        0 <= n <= l.len() <= usize::MAX,
    ensures
        ranks_in(l, doc, n) == places(l, doc, n as nat),
    decreases n,
{
    reveal(Seq::filter);
    let all = Seq::new(n as nat, |i: int| i as usize);
    if n > 0 {
        lemma_ranks_in_filter(l, doc, n - 1);
        assert(all.drop_last() =~= Seq::new((n - 1) as nat, |i: int| i as usize));
        assert(all.last() == (n - 1) as usize);
    }
}

proof fn lemma_ranks_stand(lists: Seq<Vec<usize>>, doc: usize, n: int)
    requires
        0 <= n <= lists.len(),
    ensures
        ranks_of(lists, doc, n) == standings(lists.take(n).map_values(|l: Vec<usize>| l@), doc),
    decreases n,
{
    let seen = lists.take(n).map_values(|l: Vec<usize>| l@);
    if n > 0 {
        lemma_ranks_stand(lists, doc, n - 1);
        let head = lists.take(n - 1).map_values(|l: Vec<usize>| l@);
        let l = lists[n - 1]@;
        assert(seen =~= head.push(l));
        assert(l.len() == lists[n - 1].len());
        lemma_ranks_in_filter(l, doc, l.len() as int);
        let a = Seq::new(head.len(), |k: int| places(head[k], doc, head[k].len()));
        let b = Seq::new(seen.len(), |k: int| places(seen[k], doc, seen[k].len()));
        assert(b =~= a.push(places(l, doc, l.len())));
        lemma_flatten_push(a, places(l, doc, l.len()));
    } else {
        assert(Seq::new(seen.len(), |k: int| places(seen[k], doc, seen[k].len())) =~= Seq::empty());
        assert(ranks_of(lists, doc, n) =~= standings(seen, doc));
    }
}

/// Fusing goes by ranks alone: what comes out stands in one of the lists, and its score, which the
/// arithmetic gives for all the places where it stands, is exceeded by that of nothing that stands in
/// one of them. Nothing comes out only where all lists are empty.
pub proof fn lemma_the_best_by_rank_is_fused<S: Scoring>(
    num: &S,
    rankings: &Vec<Vec<usize>>,
    k: F32,
    r: Option<usize>,
)
    requires
        call_ensures(rrf_best::<S>, (rankings, k, num), r),
    ensures
        ({
            let lists = rankings@.map_values(|l: Vec<usize>| l@);
            match r {
                None => forall|l: int| 0 <= l < lists.len() ==> (#[trigger] lists[l]).len() == 0,
                Some(doc) => {
                    &&& exists|l: int| 0 <= l < lists.len() && (#[trigger] lists[l]).contains(doc)
                    &&& exists|best: F32, ranks: Vec<usize>|
                        {
                            &&& ranks@ == standings(lists, doc)
                            &&& #[trigger] call_ensures(S::fused, (num, &ranks, k), best)
                            &&& forall|l: int, i: int|
                                0 <= l < lists.len() && 0 <= i < (#[trigger] lists[l]).len()
                                    ==> exists|score: F32, at: Vec<usize>|
                                    {
                                        &&& at@ == standings(lists, #[trigger] lists[l][i])
                                        &&& #[trigger] call_ensures(S::fused, (num, &at, k), score)
                                        &&& score.total_rank() <= best.total_rank()
                                    }
                        }
                },
            }
        }),
{
    let lists = rankings@.map_values(|l: Vec<usize>| l@);
    let n = rankings@.len() as int;
    assert(rankings@.take(n) =~= rankings@);
    match r {
        None => {
            assert forall|l: int| 0 <= l < lists.len() implies (#[trigger] lists[l]).len() == 0 by {
                assert(all_empty(rankings@));
                assert(rankings@[l]@.len() == 0);
            }
        },
        Some(doc) => {
            let (m, x) = choose|l: int, i: int|
                0 <= l < rankings@.len() && 0 <= i < (#[trigger] rankings@[l])@.len()
                    && #[trigger] rankings@[l]@[i] == doc;
            assert(lists[m][x] == doc);
            assert(lists[m].contains(doc));
            let best = choose|best: F32| #[trigger]
                exceeded_by_none(num, rankings@, k, doc, best);
            lemma_ranks_stand(rankings@, doc, n);
            let ranks = choose|ranks: Vec<usize>|
                ranks@ == ranks_of(rankings@, doc, n) && #[trigger] call_ensures(
                    S::fused,
                    (num, &ranks, k),
                    best,
                );
            assert forall|l: int, i: int|
                0 <= l < lists.len() && 0 <= i < (#[trigger] lists[l]).len() implies exists|
                score: F32,
                at: Vec<usize>,
            |
                {
                    &&& at@ == standings(lists, #[trigger] lists[l][i])
                    &&& #[trigger] call_ensures(S::fused, (num, &at, k), score)
                    &&& score.total_rank() <= best.total_rank()
                } by {
                let other = lists[l][i];
                assert(rankings@[l]@[i] == other);
                assert(ranked_somewhere(rankings@, other));
                assert(scored_below(num, rankings@, k, other, best));
                lemma_ranks_stand(rankings@, other, n);
            }
            assert(ranks@ == standings(lists, doc) && call_ensures(
                S::fused,
                (num, &ranks, k),
                best,
            ));
        },
    }
}

/// Searching both ways gives the passage that the two rankings put first when they are fused with the
/// constant 60: the one by words and the one by closeness. Nothing comes out only where neither ranks
/// anything.
pub proof fn lemma_both_ways_are_fused<S: Scoring>(
    num: &S,
    corpus: &Corpus,
    semantic: &SemanticIndex,
    query: &str,
    embedded: &Vec<F32>,
    r: Option<String>,
) -> (by: (Vec<usize>, Seq<F32>, Vec<usize>, Seq<F32>, usize))
    requires
        corpus.wf(),
        semantic.embeddings@.len() <= corpus.passages().len(),
        call_ensures(hybrid_search::<S>, (corpus, semantic, query, embedded, num), r),
    ensures
        ({
            let (bm, worded, sem, close, doc) = by;
            let lists = seq![bm@, sem@];
            &&& ranked_by_tally(num, texts(corpus.chunks@), query@, worded, bm@)
            &&& close.len() == semantic.embeddings@.len()
            &&& forall|i: int|
                0 <= i < close.len() ==> call_ensures(
                    S::dot,
                    (num, &semantic.embeddings@[i], embedded),
                    #[trigger] close[i],
                )
            &&& forall|i: usize| i < close.len() ==> #[trigger] sem@.contains(i)
            &&& forall|j: int, k: int|
                0 <= j < k < sem@.len() ==> {
                    let (x, y) = (#[trigger] sem@[j], #[trigger] sem@[k]);
                    close[x as int].total_rank() > close[y as int].total_rank() || (
                    close[x as int].total_rank() == close[y as int].total_rank() && x < y)
                }
            &&& r is None <==> bm@.len() == 0 && sem@.len() == 0
            &&& r matches Some(s) ==> {
                &&& doc < corpus.chunks@.len()
                &&& s@ == corpus.chunks@[doc as int]@
                &&& bm@.contains(doc) || sem@.contains(doc)
                &&& exists|best: F32, ranks: Vec<usize>|
                    {
                        &&& ranks@ == standings(lists, doc)
                        &&& #[trigger] call_ensures(S::fused, (num, &ranks, F32(0x4270_0000)), best)
                        &&& forall|other: usize|
                            bm@.contains(other) || sem@.contains(other) ==> not_above(
                                num,
                                lists,
                                #[trigger] standings(lists, other),
                                best,
                            )
                    }
            }
        }),
{
    let ps = corpus.passages();
    let hit = match r {
        Some(s) => Some(s@),
        None => None,
    };
    let (bm, sem) = choose|bm: Vec<usize>, sem: Vec<usize>|
        {
            &&& #[trigger] bm25_ranking(num, ps, query@, bm@)
            &&& #[trigger] semantic_ranking(num, semantic.embeddings@, *embedded, sem@)
            &&& fused_hit(num, ps, bm, sem, hit)
        };
    let worded = lemma_ranked_by_tally(num, ps, query@, bm@);
    let close = lemma_ranked_by_closeness(num, semantic.embeddings@, *embedded, sem@);
    let vecs = seq![bm, sem];
    let lists = seq![bm@, sem@];
    assert(vecs.map_values(|l: Vec<usize>| l@) =~= lists);
    match r {
        None => (bm, worded, sem, close, 0),
        Some(s) => {
            let (doc, best) = choose|doc: usize, best: F32|
                {
                    &&& #[trigger] exceeded_by_none(num, vecs, F32(RRF_K_BITS), doc, best)
                    &&& ranked_somewhere(vecs, doc)
                    &&& doc < ps.len()
                    &&& s@ == ps[doc as int]
                };
            lemma_somewhere(bm, sem, doc);
            lemma_ranks_stand(vecs, doc, 2);
            let ranks = choose|ranks: Vec<usize>|
                ranks@ == ranks_of(vecs, doc, 2) && #[trigger] call_ensures(
                    S::fused,
                    (num, &ranks, F32(RRF_K_BITS)),
                    best,
                );
            assert(vecs.take(2) =~= vecs);
            assert(lists.take(2) =~= lists);
            assert forall|other: usize| bm@.contains(other) || sem@.contains(other) implies not_above(
                num,
                lists,
                #[trigger] standings(lists, other),
                best,
            ) by {
                lemma_somewhere(bm, sem, other);
                lemma_ranks_stand(vecs, other, 2);
                assert(scored_below(num, vecs, F32(RRF_K_BITS), other, best));
            }
            assert(ranks@ == standings(lists, doc) && call_ensures(
                S::fused,
                (num, &ranks, F32(0x4270_0000)),
                best,
            ));
            (bm, worded, sem, close, doc)
        },
    }
}

/// What stands in these places has a fused score, with the constant 60, that is not above `best`.
pub open spec fn not_above<S: Scoring>(
    num: &S,
    lists: Seq<Seq<usize>>,
    places: Seq<usize>,
    best: F32,
) -> bool {
    exists|score: F32, at: Vec<usize>|
        {
            &&& at@ == places
            &&& #[trigger] call_ensures(S::fused, (num, &at, F32(0x4270_0000)), score)
            &&& score.total_rank() <= best.total_rank()
        }
}

proof fn lemma_somewhere(bm: Vec<usize>, sem: Vec<usize>, doc: usize)
    ensures
        ranked_somewhere(seq![bm, sem], doc) <==> bm@.contains(doc) || sem@.contains(doc),
{
    let vecs = seq![bm, sem];
    assert(vecs[0] == bm && vecs[1] == sem);
    if bm@.contains(doc) {
        let i = choose|i: int| 0 <= i < bm@.len() && bm@[i] == doc;
        assert(vecs[0]@[i] == doc);
    }
    if sem@.contains(doc) {
        let i = choose|i: int| 0 <= i < sem@.len() && sem@[i] == doc;
        assert(vecs[1]@[i] == doc);
    }
    if ranked_somewhere(vecs, doc) {
        let (l, i) = choose|l: int, i: int|
            0 <= l < vecs.len() && 0 <= i < (#[trigger] vecs[l])@.len() && #[trigger] vecs[l]@[i]
                == doc;
        if l == 0 {
            assert(bm@[i] == doc);
        } else {
            assert(sem@[i] == doc);
        }
    }
}

/// A query is embedded behind an instruction that says what it is for.
pub proof fn lemma_a_query_is_embedded_with_its_purpose(query: &str, r: String)
    requires
        call_ensures(embedded_query, (query,), r),
    ensures
        r@ == "Instruct: Given a search query, retrieve relevant passages.\nQuery: "@ + query@,
{
}

proof fn lemma_ranked_by_closeness<S: Scoring>(
    num: &S,
    embeddings: Seq<Vec<F32>>,
    query: Vec<F32>,
    r: Seq<usize>,
) -> (scores: Seq<F32>)
    requires
        semantic_ranking(num, embeddings, query, r),
    ensures
        scores.len() == embeddings.len(),
        forall|i: int|
            0 <= i < scores.len() ==> call_ensures(
                S::dot,
                (num, &embeddings[i], &query),
                #[trigger] scores[i],
            ),
        forall|i: usize| i < scores.len() ==> #[trigger] r.contains(i),
        forall|j: int| 0 <= j < r.len() ==> #[trigger] r[j] < scores.len(),
        forall|j: int, k: int|
            0 <= j < k < r.len() ==> {
                let (x, y) = (#[trigger] r[j], #[trigger] r[k]);
                scores[x as int].total_rank() > scores[y as int].total_rank() || (
                scores[x as int].total_rank() == scores[y as int].total_rank() && x < y)
            },
{
    let scores = choose|scores: Seq<F32>|
        {
            &&& scores.len() == embeddings.len()
            &&& forall|i: int|
                0 <= i < scores.len() ==> call_ensures(
                    S::dot,
                    (num, &embeddings[i], &query),
                    #[trigger] scores[i],
                )
            &&& #[trigger] ranking(scores, every(), r)
        };
    assert forall|i: usize| i < scores.len() implies #[trigger] r.contains(i) by {
        assert(every()(scores[i as int]));
    }
    assert forall|j: int, k: int| 0 <= j < k < r.len() implies ({
        let (x, y) = (#[trigger] r[j], #[trigger] r[k]);
        scores[x as int].total_rank() > scores[y as int].total_rank() || (
        scores[x as int].total_rank() == scores[y as int].total_rank() && x < y)
    }) by {
        assert(likelier(scores, r[j] as int, r[k] as int));
    }
    scores
}

} // verus!
