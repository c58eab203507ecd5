//! The fused forward pass: the one place that knows that several sequences share a decode. It holds no
//! state. What is fed comes in as lanes and the rows go out in lane order, so the caller does all the
//! interpreting.

use crate::backend::{answered_once, Decode, KvCall, Session, Token};
use crate::number::F32;
use vstd::prelude::*;

verus! {

/// One lane of a fused pass: a token to feed at `pos` on sequence `seq`. A lane that only builds the
/// cache leaves `logits` off, which spares the projection onto the vocabulary.
#[derive(Copy, Clone, Debug, PartialEq, Eq, Structural)]
pub struct Lane {
    pub token: Token,
    pub pos: i32,
    pub seq: u32,
    pub logits: bool,
}

impl Lane {
    /// The lane as an entry of a batch.
    pub open spec fn entry(self) -> Decode {
        Decode { token: self.token, pos: self.pos, seq: self.seq, logits: self.logits }
    }
}

/// The batch of a list of lanes.
pub open spec fn batch_of(lanes: Seq<Lane>) -> Seq<Decode> {
    lanes.map_values(|l: Lane| l.entry())
}

/// Feed all lanes in a single pass and give each lane's row of logits back, in lane order. A lane that
/// wants none gets an empty row.
pub fn decode_lanes<S: Session>(session: &mut S, lanes: &Vec<Lane>) -> (r: Result<
    Vec<Vec<F32>>,
    String,
>)
    requires
        lanes@.len() > 0,
    ensures
        final(session).calls() == old(session).calls().push(
            KvCall::Decode { batch: batch_of(lanes@), ok: r is Ok },
        ),
        answered_once(old(session).answers(), final(session).answers()),
        final(session).width() == old(session).width(),
        r matches Ok(rows) ==> rows@.len() == lanes@.len() && forall|i: int|
            0 <= i < lanes@.len() ==> #[trigger] rows@[i]@ == if lanes@[i].logits {
                final(session).answers().last()[i]
            } else {
                Seq::empty()
            },
        r matches Ok(rows) ==> forall|i: int|
            0 <= i < lanes@.len() && lanes@[i].logits ==> (#[trigger] rows@[i]@).len() == old(
                session,
            ).width(),
{
    let mut batch: Vec<Decode> = Vec::new();
    let mut i: usize = 0;
    while i < lanes.len()
        invariant
            i <= lanes@.len(),
            batch@ == batch_of(lanes@).take(i as int),
        decreases lanes@.len() - i,
    {
        let l: Lane = lanes[i];
        batch.push(Decode { token: l.token, pos: l.pos, seq: l.seq, logits: l.logits });
        i = i + 1;
        assert(batch_of(lanes@).take(i as int) =~= batch_of(lanes@).take(i - 1).push(
            lanes@[i - 1].entry(),
        ));
    }
    assert(batch_of(lanes@).take(i as int) =~= batch_of(lanes@));
    match session.decode(batch.as_slice()) {
        Ok(()) => {},
        Err(e) => {
            return Err(e);
        },
    }
    let mut rows: Vec<Vec<F32>> = Vec::new();
    let mut k: usize = 0;
    while k < lanes.len()
        invariant
            k <= lanes@.len(),
            answered_once(old(session).answers(), session.answers()),
            session.width() == old(session).width(),
            session.calls() == old(session).calls().push(
                KvCall::Decode { batch: batch_of(lanes@), ok: true },
            ),
            rows@.len() == k,
            forall|j: int|
                0 <= j < k ==> #[trigger] rows@[j]@ == if lanes@[j].logits {
                    session.answers().last()[j]
                } else {
                    Seq::empty()
                },
            forall|j: int|
                0 <= j < k && lanes@[j].logits ==> (#[trigger] rows@[j]@).len() == old(
                    session,
                ).width(),
        decreases lanes@.len() - k,
    {
        if lanes[k].logits {
            assert(batch_of(lanes@)[k as int] == lanes@[k as int].entry());
            rows.push(session.logits(k));
        } else {
            rows.push(Vec::new());
        }
        k = k + 1;
    }
    Ok(rows)
}

} // verus!
