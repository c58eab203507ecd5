//! The cap-and-reset window: bounded memory over an endless stream. It holds the pinned preamble,
//! the rolling window of recent stream tokens that a reset replays, and the record of what the
//! observation sequence holds now. The cache itself is rebuilt by the observer.

use super::types::EvictMode;
use super::RESET_SETTLE;
use crate::backend::Token;
use std::collections::VecDeque;
use vstd::prelude::*;

verus! {

/// The last `n` items of a sequence, or all of them where there are fewer.
pub open spec fn last_n<T>(s: Seq<T>, n: nat) -> Seq<T> {
    if s.len() <= n {
        s
    } else {
        s.skip(s.len() - n)
    }
}

/// The state of the window.
pub struct StreamWindow {
    /// What happens when the context is full.
    pub evict: EvictMode,
    /// Length of the pinned prefix.
    pub n_keep: i32,
    /// The pinned prefix, replayed as it is on every reset.
    pub preamble: Vec<Token>,
    /// The most recent stream tokens, at most `keep_recent` of them.
    pub recent_ids: VecDeque<Token>,
    /// All stream tokens fed since the last reset.
    pub context_ids: Vec<Token>,
    /// How many recent stream tokens a reset replays.
    pub keep_recent: usize,
    /// For how many more tokens firing is suppressed.
    pub settle: usize,
    /// Resets so far.
    pub resets: u64,
}

/// The contents of the window.
pub struct WindowView {
    pub evict: EvictMode,
    pub preamble: Seq<Token>,
    pub recent: Seq<Token>,
    pub context: Seq<Token>,
    pub keep: usize,
    pub settle: usize,
    pub resets: u64,
}

impl View for StreamWindow {
    type V = WindowView;

    open spec fn view(&self) -> WindowView {
        WindowView {
            evict: self.evict,
            preamble: self.preamble@,
            recent: self.recent_ids@,
            context: self.context_ids@,
            keep: self.keep_recent,
            settle: self.settle,
            resets: self.resets,
        }
    }
}

impl WindowView {
    /// The recent window is the tail of the stream tokens fed since the last reset, and holds no more
    /// than it may.
    pub open spec fn wf(self) -> bool {
        &&& self.recent.len() <= self.keep
        &&& self.recent.len() <= self.context.len()
        &&& self.recent == last_n(self.context, self.recent.len())
    }

    /// The recent window has a place, and holds a token once there is one.
    pub open spec fn roomy(self) -> bool {
        &&& self.keep >= 1
        &&& self.context.len() > 0 ==> self.recent.len() > 0
    }

    /// What a reset replays: the pinned preamble, then the recent window.
    pub open spec fn replay(self) -> Seq<Token> {
        self.preamble + self.recent
    }

    /// What the observation sequence holds: the pinned preamble, then every stream token since the
    /// last reset.
    pub open spec fn live(self) -> Seq<Token> {
        self.preamble + self.context
    }

    /// The window after one token of the settling.
    pub open spec fn ticked(self) -> WindowView {
        WindowView {
            settle: if self.settle > 0 {
                (self.settle - 1) as usize
            } else {
                0
            },
            ..self
        }
    }

    /// The window after a stream token has been fed: it joins the recent window, from which the oldest
    /// leave once it is full, and the record of the live context.
    pub open spec fn pushed(self, tok: Token) -> WindowView {
        WindowView {
            recent: last_n(self.recent.push(tok), self.keep as nat),
            context: self.context.push(tok),
            ..self
        }
    }

    /// The window after a preamble has been pinned, with no more than `room` for recent tokens.
    pub open spec fn primed(self, preamble: Seq<Token>, room: usize) -> WindowView {
        WindowView {
            preamble,
            recent: Seq::empty(),
            context: Seq::empty(),
            keep: if self.keep > room {
                room
            } else {
                self.keep
            },
            ..self
        }
    }

    /// The window after a reset: the stream part of the observation sequence is the replayed window,
    /// and the next tokens are not to fire.
    pub open spec fn rolled(self) -> WindowView {
        WindowView {
            context: self.recent,
            settle: RESET_SETTLE,
            resets: (self.resets + 1) as u64,
            ..self
        }
    }
}

impl Default for StreamWindow {
    fn default() -> (w: Self)
        ensures
            w.wf(),
            w@.roomy(),
            w@ == (WindowView {
                evict: EvictMode::Reset,
                preamble: Seq::empty(),
                recent: Seq::empty(),
                context: Seq::empty(),
                keep: 4096,
                settle: 0,
                resets: 0,
            }),
    {
        StreamWindow {
            evict: EvictMode::Reset,
            n_keep: 0,
            preamble: Vec::new(),
            recent_ids: VecDeque::new(),
            context_ids: Vec::new(),
            keep_recent: 4096,
            settle: 0,
            resets: 0,
        }
    }
}

impl StreamWindow {
    /// The contents are those of a window, and the pinned length is the length of the preamble.
    pub open spec fn wf(&self) -> bool {
        self@.wf() && self.n_keep == self.preamble@.len()
    }

    /// Choose the eviction policy and the length of the recent window, at least 1. Made before
    /// anything has been streamed.
    pub fn set_eviction(&mut self, evict: EvictMode, keep_recent: usize)
        requires
            old(self).wf(),
            old(self)@.recent.len() <= keep_recent,
        ensures
            final(self).wf(),
            final(self)@ == (WindowView {
                evict,
                keep: if keep_recent == 0 {
                    1
                } else {
                    keep_recent
                },
                ..old(self)@
            }),
            old(self)@.context.len() == 0 ==> final(self)@.roomy(),
    {
        self.evict = evict;
        self.keep_recent = if keep_recent < 1 {
            1
        } else {
            keep_recent
        };
    }

    /// Resets performed so far.
    pub fn resets(&self) -> (n: u64)
        ensures
            n == self@.resets,
    {
        self.resets
    }

    /// Count one token of the post-reset settling; was firing suppressed before it?
    pub fn tick_settle(&mut self) -> (suppressed: bool)
        ensures
            suppressed == (old(self)@.settle > 0),
            final(self)@ == old(self)@.ticked(),
            old(self).wf() ==> final(self).wf(),
    {
        let suppressed = self.settle > 0;
        if suppressed {
            self.settle = self.settle - 1;
        }
        suppressed
    }

    /// Record a stream token that has been fed.
    pub fn push_id(&mut self, tok: Token)
        requires
            old(self).wf(),
        ensures
            final(self).wf(),
            final(self)@ == old(self)@.pushed(tok),
    {
        let ghost before = self@;
        let ghost grown = self.recent_ids@.push(tok);
        self.recent_ids.push_back(tok);
        self.context_ids.push(tok);
        if self.recent_ids.len() > self.keep_recent {
            self.recent_ids.pop_front();
            assert(self.recent_ids@ =~= grown.skip(1));
        }
        proof {
            assert(self.recent_ids@ =~= last_n(grown, self.keep_recent as nat));
            lemma_pushed_wf(before, tok);
        }
    }

    /// Pin a preamble and start the stream anew. The recent window is clamped to `room`; where that
    /// shortens it, the length it had is handed back for the caller to warn about.
    pub fn begin_prime(&mut self, preamble: Vec<Token>, room: usize) -> (clamped: Option<usize>)
        requires
            preamble@.len() <= i32::MAX,
        ensures
            final(self).wf(),
            old(self)@.keep >= 1 && room >= 1 ==> final(self)@.roomy(),
            final(self)@ == old(self)@.primed(preamble@, room),
            clamped == if old(self)@.keep > room {
                Some(old(self)@.keep)
            } else {
                None
            },
    {
        self.n_keep = preamble.len() as i32;
        self.preamble = preamble;
        let mut clamped: Option<usize> = None;
        if self.keep_recent > room {
            clamped = Some(self.keep_recent);
            self.keep_recent = room;
        }
        self.recent_ids = VecDeque::new();
        self.context_ids = Vec::new();
        clamped
    }

    /// The tokens that a reset feeds to the cleared observation sequence.
    pub fn replay_tokens(&self) -> (v: Vec<Token>)
        ensures
            v@ == self@.replay(),
    {
        let mut v: Vec<Token> = copied(&self.preamble);
        let mut tail: Vec<Token> = self.recent_ids();
        v.append(&mut tail);
        v
    }

    /// Account for a reset.
    pub fn mark_rolled(&mut self)
        requires
            old(self).wf(),
            old(self)@.resets < u64::MAX,
        ensures
            final(self).wf(),
            final(self)@ == old(self)@.rolled(),
    {
        let v = self.recent_ids();
        self.context_ids = v;
        self.settle = RESET_SETTLE;
        self.resets = self.resets + 1;
    }

    /// How many tokens the recent window holds.
    pub fn window_len(&self) -> (n: usize)
        ensures
            n == self@.recent.len(),
    {
        self.recent_ids.len()
    }

    /// The recent window, oldest first.
    pub fn recent_ids(&self) -> (v: Vec<Token>)
        ensures
            v@ == self@.recent,
    {
        let mut v: Vec<Token> = Vec::new();
        let mut k: usize = 0;
        while k < self.recent_ids.len()
            invariant
                k <= self.recent_ids@.len(),
                v@ == self.recent_ids@.take(k as int),
            decreases self.recent_ids@.len() - k,
        {
            v.push(self.recent_ids[k]);
            k = k + 1;
            assert(self.recent_ids@.take(k as int) =~= self.recent_ids@.take(k - 1).push(
                self.recent_ids@[k - 1],
            ));
        }
        assert(self.recent_ids@.take(k as int) =~= self.recent_ids@);
        v
    }

    /// Everything the observation sequence holds, in order.
    pub fn full_ids(&self) -> (v: Vec<Token>)
        ensures
            v@ == self@.live(),
    {
        let mut v: Vec<Token> = copied(&self.preamble);
        let mut tail: Vec<Token> = copied(&self.context_ids);
        v.append(&mut tail);
        v
    }
}

/// A list of tokens once more.
pub fn copied(toks: &Vec<Token>) -> (v: Vec<Token>)
    ensures
        v@ == toks@,
{
    let mut v: Vec<Token> = Vec::new();
    let mut i: usize = 0;
    while i < toks.len()
        invariant
            i <= toks@.len(),
            v@ == toks@.take(i as int),
        decreases toks@.len() - i,
    {
        v.push(toks[i]);
        i = i + 1;
        assert(toks@.take(i as int) =~= toks@.take(i - 1).push(toks@[i - 1]));
    }
    assert(toks@.take(i as int) =~= toks@);
    v
}

// ---------------------------------------------------------------------------------------------
// Laws
// ---------------------------------------------------------------------------------------------

/// A token keeps the window in shape.
pub proof fn lemma_pushed_wf(w: WindowView, tok: Token)
    requires
        w.wf(),
    ensures
        w.pushed(tok).wf(),
        w.roomy() ==> w.pushed(tok).roomy(),
        w.pushed(tok).live() == w.live().push(tok),
{
    let p = w.pushed(tok);
    assert(p.recent =~= last_n(p.context, p.recent.len()));
    assert(p.live() =~= w.live().push(tok));
}

/// A reset keeps the window in shape and loses nothing of what it replays: afterwards the live context
/// is exactly the pinned preamble and the recent window, the preamble and the window are as they were,
/// and one more reset has been counted.
pub proof fn lemma_reset_replays_the_window(w: WindowView)
    requires
        w.wf(),
        w.resets < u64::MAX,
    ensures
        w.rolled().wf(),
        w.roomy() ==> w.rolled().roomy(),
        w.rolled().live() == w.replay(),
        w.rolled().replay() == w.replay(),
        w.rolled().preamble == w.preamble,
        w.rolled().resets == w.resets + 1,
{
    assert(w.rolled().recent =~= last_n(w.rolled().context, w.rolled().recent.len()));
}

/// Two resets in a row rebuild the same context as one.
pub proof fn lemma_resetting_twice_replays_the_same(w: WindowView)
    ensures
        w.rolled().rolled().live() == w.rolled().live(),
{
}

/// The window after a run of stream tokens.
pub open spec fn streamed(w: WindowView, toks: Seq<Token>) -> WindowView
    decreases toks.len(),
{
    if toks.len() == 0 {
        w
    } else {
        streamed(w, toks.drop_last()).pushed(toks.last())
    }
}

/// However many tokens stream past, the recent window holds the last `keep` of them: all those since
/// the stream started, as long as they fit.
pub proof fn lemma_window_holds_the_last_tokens(w: WindowView, toks: Seq<Token>)
    requires
        w.wf(),
        w.context.len() == 0,
    ensures
        streamed(w, toks).wf(),
        streamed(w, toks).context == toks,
        streamed(w, toks).recent == last_n(toks, w.keep as nat),
        streamed(w, toks).keep == w.keep,
        streamed(w, toks).preamble == w.preamble,
    decreases toks.len(),
{
    if toks.len() == 0 {
        assert(w.context =~= toks);
        assert(w.recent =~= toks);
    } else {
        let head = toks.drop_last();
        lemma_window_holds_the_last_tokens(w, head);
        lemma_pushed_wf(streamed(w, head), toks.last());
        assert(head.push(toks.last()) =~= toks);
        assert(last_n(last_n(head, w.keep as nat).push(toks.last()), w.keep as nat) =~= last_n(
            toks,
            w.keep as nat,
        ));
    }
}

/// Pinning a preamble starts the stream anew: the live context is the preamble, the recent window is
/// empty, and after any number of stream tokens it holds as many of the latest as the length asked for
/// and the room let it. The policy, the settling and the count of resets are left alone.
pub proof fn lemma_priming_starts_the_stream_anew(
    w: WindowView,
    preamble: Seq<Token>,
    room: usize,
    toks: Seq<Token>,
)
    ensures
        ({
            let p = w.primed(preamble, room);
            let least = if w.keep <= room {
                w.keep as int
            } else {
                room as int
            };
            &&& p.wf()
            &&& p.live() == preamble
            &&& p.replay() == preamble
            &&& p.recent.len() == 0
            &&& p.evict == w.evict
            &&& p.settle == w.settle
            &&& p.resets == w.resets
            &&& streamed(p, toks).recent.len() == if toks.len() <= least {
                toks.len() as int
            } else {
                least
            }
            &&& streamed(p, toks).recent == last_n(toks, least as nat)
            &&& streamed(p, toks).live() == preamble + toks
        }),
{
    let p = w.primed(preamble, room);
    assert(p.recent =~= last_n(p.context, 0));
    assert(p.live() =~= preamble);
    assert(p.replay() =~= preamble);
    lemma_window_holds_the_last_tokens(p, toks);
}

/// The window after `n` tokens of settling.
pub open spec fn settled(w: WindowView, n: nat) -> WindowView
    decreases n,
{
    if n == 0 {
        w
    } else {
        settled(w, (n - 1) as nat).ticked()
    }
}

/// After a reset exactly the next [`RESET_SETTLE`] tokens are kept from firing.
pub proof fn lemma_settling_suppresses_exactly(w: WindowView, n: nat)
    ensures
        (settled(w.rolled(), n).settle > 0) == (n < RESET_SETTLE),
    decreases n,
{
    lemma_settle_counts_down(w, n);
}

proof fn lemma_settle_counts_down(w: WindowView, n: nat)
    ensures
        settled(w.rolled(), n).settle == if n < RESET_SETTLE {
            RESET_SETTLE - n
        } else {
            0
        },
    decreases n,
{
    if n > 0 {
        lemma_settle_counts_down(w, (n - 1) as nat);
    }
}

} // verus!
