//! What an observability event says of a distribution.

use super::promises::comes_first;
use super::sampling::{likelier, likeliest, top_ids};
use super::Lobe;
use crate::backend::{Backend, Detok, Token};
use crate::number::{F32, NEG_INFINITY_BITS};
use crate::numerics::Numerics;
use vstd::prelude::*;

verus! {

/// One token of a distribution.
pub struct TopLogit {
    pub id: usize,
    pub tok: String,
    pub logit: F32,
    pub prob: F32,
}

/// A distribution in brief.
pub struct LogitsDebug {
    pub n_vocab: usize,
    pub max_logit: F32,
    pub argmax_id: usize,
    pub argmax_tok: String,
    pub entropy_nats: F32,
    /// The likeliest tokens, likeliest first.
    pub topk: Vec<TopLogit>,
}

/// `m` is the highest value of a row, or negative infinity where nothing in it is higher.
pub open spec fn peak(row: Seq<F32>, m: F32) -> bool {
    &&& m == F32(NEG_INFINITY_BITS) || row.contains(m)
    &&& forall|i: int| 0 <= i < row.len() ==> !m.below(#[trigger] row[i])
}

/// The entry of a token in a brief.
pub open spec fn entered<B: Backend, N: Numerics>(
    engine: &B,
    num: &N,
    row: Vec<F32>,
    id: usize,
    t: TopLogit,
) -> bool {
    &&& t.id == id
    &&& t.tok@ == engine.text_of(Token(id as i32), Detok::Text)
    &&& t.logit == row@[id as int]
    &&& call_ensures(N::share, (num, &row, id), t.prob)
}

/// `d` says of a row how long it is, its peak, its likeliest token, its entropy, and its `k` likeliest
/// tokens.
pub open spec fn briefed<B: Backend, N: Numerics>(
    engine: &B,
    num: &N,
    row: Vec<F32>,
    k: nat,
    d: LogitsDebug,
) -> bool {
    &&& d.n_vocab == row@.len()
    &&& peak(row@, d.max_logit)
    &&& if row@.len() == 0 {
        d.argmax_id == 0
    } else {
        likeliest(row@, 1, seq![d.argmax_id])
    }
    &&& d.argmax_tok@ == engine.text_of(Token(d.argmax_id as i32), Detok::Text)
    &&& call_ensures(N::spread, (num, &row), d.entropy_nats)
    &&& exists|ids: Seq<usize>|
        #[trigger] likeliest(row@, k, ids) && d.topk@.len() == ids.len() && forall|i: int|
            0 <= i < ids.len() ==> entered(engine, num, row, ids[i], #[trigger] d.topk@[i])
}

fn highest(row: &Vec<F32>) -> (m: F32)
    ensures
        peak(row@, m),
{
    let mut m: F32 = F32(NEG_INFINITY_BITS);
    let mut i: usize = 0;
    while i < row.len()
        invariant
            i <= row@.len(),
            m == F32(NEG_INFINITY_BITS) || row@.contains(m),
            !m.is_nan(),
            forall|j: int| 0 <= j < i ==> !m.below(#[trigger] row@[j]),
        decreases row@.len() - i,
    {
        if m.lt(row[i]) {
            m = row[i];
            assert(row@[i as int] == m);
        }
        i = i + 1;
    }
    m
}

impl<'a, B: Backend> Lobe<'a, B> {
    /// A distribution in brief, with its `k` likeliest tokens.
    pub fn logits_debug<N: Numerics>(&self, logits: &Vec<F32>, k: usize, num: &N) -> (d: LogitsDebug)
        requires
            logits@.len() <= i32::MAX,
        ensures
            briefed(self.engine, num, *logits, k as nat, d),
    {
        let first = top_ids(logits, 1);
        let argmax: usize = if first.len() == 0 {
            0
        } else {
            assert(first@ =~= seq![first@[0]]);
            first[0]
        };
        let ids = top_ids(logits, k);
        let mut topk: Vec<TopLogit> = Vec::new();
        let mut i: usize = 0;
        while i < ids.len()
            invariant
                i <= ids@.len(),
                logits@.len() <= i32::MAX,
                likeliest(logits@, k as nat, ids@),
                topk@.len() == i,
                forall|j: int|
                    0 <= j < i ==> entered(
                        self.engine,
                        num,
                        *logits,
                        ids@[j],
                        #[trigger] topk@[j],
                    ),
            decreases ids@.len() - i,
        {
            assert(ids@[i as int] < logits@.len());
            let id: usize = ids[i];
            topk.push(
                TopLogit {
                    id,
                    tok: self.detok(Token(id as i32)),
                    logit: logits[id],
                    prob: num.share(logits, id),
                },
            );
            i = i + 1;
        }
        LogitsDebug {
            n_vocab: logits.len(),
            max_logit: highest(logits),
            argmax_id: argmax,
            argmax_tok: self.detok(Token(argmax as i32)),
            entropy_nats: num.spread(logits),
            topk,
        }
    }
}

/// A brief names the likeliest token of the row, the value of the greatest logit, and the likeliest
/// tokens in order, each with its own logit.
pub proof fn lemma_a_brief_names_the_likeliest<B: Backend, N: Numerics>(
    engine: &B,
    num: &N,
    row: Vec<F32>,
    k: nat,
    d: LogitsDebug,
)
    requires
        briefed(engine, num, row, k, d),
        0 < row@.len() <= usize::MAX,
    ensures
        d.n_vocab == row@.len(),
        d.argmax_id < row@.len(),
        forall|i: usize|
            i < row@.len() && i != d.argmax_id ==> #[trigger] comes_first(row@, d.argmax_id, i),
        forall|i: int| 0 <= i < row@.len() ==> !d.max_logit.below(#[trigger] row@[i]),
        d.topk@.len() == if k <= row@.len() {
            k
        } else {
            row@.len()
        },
        forall|i: int|
            0 <= i < d.topk@.len() ==> (#[trigger] d.topk@[i]).id < row@.len() && d.topk@[i].logit
                == row@[d.topk@[i].id as int] && d.topk@[i].tok@ == engine.text_of(
                Token(d.topk@[i].id as i32),
                Detok::Text,
            ),
        forall|i: int, j: int|
            0 <= i < j < d.topk@.len() ==> comes_first(
                row@,
                (#[trigger] d.topk@[i]).id,
                (#[trigger] d.topk@[j]).id,
            ),
{
    let one = seq![d.argmax_id];
    assert(likeliest(row@, 1, one));
    assert(one[0] == d.argmax_id);
    assert forall|i: usize| i < row@.len() && i != d.argmax_id implies #[trigger] comes_first(
        row@,
        d.argmax_id,
        i,
    ) by {
        assert(!one.contains(i));
        assert(likelier(row@, one[0] as int, i as int));
    }
    let ids = choose|ids: Seq<usize>|
        #[trigger] likeliest(row@, k, ids) && d.topk@.len() == ids.len() && forall|i: int|
            0 <= i < ids.len() ==> entered(engine, num, row, ids[i], #[trigger] d.topk@[i]);
    assert forall|i: int| 0 <= i < d.topk@.len() implies (#[trigger] d.topk@[i]).id < row@.len()
        && d.topk@[i].logit == row@[d.topk@[i].id as int] && d.topk@[i].tok@ == engine.text_of(
        Token(d.topk@[i].id as i32),
        Detok::Text,
    ) by {
        assert(entered(engine, num, row, ids[i], d.topk@[i]));
    }
    assert forall|i: int, j: int| 0 <= i < j < d.topk@.len() implies comes_first(
        row@,
        (#[trigger] d.topk@[i]).id,
        (#[trigger] d.topk@[j]).id,
    ) by {
        assert(entered(engine, num, row, ids[i], d.topk@[i]));
        assert(entered(engine, num, row, ids[j], d.topk@[j]));
        assert(likelier(row@, ids[i] as int, ids[j] as int));
    }
}

} // verus!
