//! The showcase is split in two: a worker that owns the observer and reports what happens, and a
//! display that shows the reports. Both halves' decisions are made here; the threads and the channels
//! between them are the frontend's.

use crate::backend::{Backend, Detok, KvCall, Token};
use crate::lobe::interject::{InterjectStatus, Progress};
use crate::lobe::model::{cut_short, hint_fits, LobeView};
use crate::lobe::observe::{advanced, step_failed, taken_on};
use crate::lobe::showing::{abandons, progress, remembering, settles, shown_next, shown_text, Shown};
use crate::lobe::types::{LobeError, Step};
use crate::lobe::{Lobe, GEN_SEQ};
use crate::number::F32;
use crate::numerics::Numerics;
use crate::stats::Welford;
use crate::text::{
    byte_len, chars_of, lemma_tail_within, string_of, tail_start, tail_within, texts, trimmed,
};
use vstd::prelude::*;
use vstd::string::*;

verus! {

/// How many bytes of the streamed text the display keeps at most.
pub const PROSE_TAIL_CHARS: usize = 12_000;

/// How many finished asides the display keeps at most.
pub const MAX_RECENT: usize = 24;

/// 0.25, by which a key raises the threshold.
pub const RAISE_BITS: u32 = 0x3e80_0000;

/// -0.25, by which a key lowers the threshold.
pub const LOWER_BITS: u32 = 0xbe80_0000;

/// What the worker reports, in the order in which it happens.
pub enum UiEvent {
    /// The model is loaded and primed.
    Ready,
    /// The text of a stream token.
    Token(String),
    /// The text so far of the aside in flight; `None` between asides.
    Pending(Option<String>),
    /// A finished aside.
    Settled(String),
    /// The stream is over.
    Done,
}

/// A report, as a value.
pub enum UiView {
    Ready,
    Token(Seq<char>),
    Pending(Option<Seq<char>>),
    Settled(Seq<char>),
    Done,
}

impl View for UiEvent {
    type V = UiView;

    open spec fn view(&self) -> UiView {
        match *self {
            UiEvent::Ready => UiView::Ready,
            UiEvent::Token(t) => UiView::Token(t@),
            UiEvent::Pending(p) => UiView::Pending(shown_text(p)),
            UiEvent::Settled(s) => UiView::Settled(s@),
            UiEvent::Done => UiView::Done,
        }
    }
}

/// Reports, as values.
pub open spec fn ui_views(v: Seq<UiEvent>) -> Seq<UiView> {
    v.map_values(|e: UiEvent| e@)
}

/// What the display asks of the worker.
#[derive(Copy, Clone, Debug, PartialEq, Eq, Structural)]
pub enum Control {
    /// Stop or go on feeding the stream.
    Pause(bool),
    /// Move the threshold.
    AdjustZ(F32),
    /// Stop for good.
    Quit,
}

// ---------------------------------------------------------------------------------------------
// The display
// ---------------------------------------------------------------------------------------------

/// What is shown.
pub struct Display {
    /// The latest of the streamed text.
    pub prose: String,
    /// The aside in flight.
    pub pending: Option<String>,
    /// The latest finished asides, oldest first.
    pub asides: Vec<String>,
    /// Is the stream over?
    pub done: bool,
}

/// What is shown, as a value.
#[verifier::ext_equal]
pub struct DisplayView {
    pub prose: Seq<char>,
    pub pending: Option<Seq<char>>,
    pub asides: Seq<Seq<char>>,
    pub done: bool,
}

impl View for Display {
    type V = DisplayView;

    open spec fn view(&self) -> DisplayView {
        DisplayView {
            prose: self.prose@,
            pending: shown_text(self.pending),
            asides: texts(self.asides@),
            done: self.done,
        }
    }
}

impl DisplayView {
    /// What the display holds stays within its limits.
    pub open spec fn wf(self) -> bool {
        &&& byte_len(self.prose) <= PROSE_TAIL_CHARS
        &&& self.asides.len() <= MAX_RECENT
    }

    /// The display after a report.
    pub open spec fn applied(self, e: UiView) -> DisplayView {
        match e {
            UiView::Ready => self,
            UiView::Token(t) => DisplayView {
                prose: tail_within(self.prose + t, PROSE_TAIL_CHARS as nat),
                ..self
            },
            UiView::Pending(p) => DisplayView { pending: p, ..self },
            UiView::Settled(s) => DisplayView {
                asides: if self.asides.len() + 1 > MAX_RECENT {
                    self.asides.push(s).skip(1)
                } else {
                    self.asides.push(s)
                },
                ..self
            },
            UiView::Done => DisplayView { done: true, ..self },
        }
    }

    /// The display after reports, in their order.
    pub open spec fn applied_all(self, es: Seq<UiView>) -> DisplayView
        decreases es.len(),
    {
        if es.len() == 0 {
            self
        } else {
            self.applied_all(es.drop_last()).applied(es.last())
        }
    }
}

impl Default for Display {
    fn default() -> (d: Self)
        ensures
            d@ == (DisplayView {
                prose: Seq::empty(),
                pending: None,
                asides: Seq::empty(),
                done: false,
            }),
            d@.wf(),
    {
        let d = Display { prose: String::new(), pending: None, asides: Vec::new(), done: false };
        assert(d@.prose =~= Seq::empty());
        assert(d@.asides =~= Seq::empty());
        d
    }
}

impl Display {
    /// Take in one report.
    pub fn apply(&mut self, ev: UiEvent)
        requires
            old(self)@.wf(),
        ensures
            final(self)@ == old(self)@.applied(ev@),
            final(self)@.wf(),
    {
        match ev {
            UiEvent::Ready => {},
            UiEvent::Token(t) => {
                self.prose.append(t.as_str());
                let v = chars_of(self.prose.as_str());
                let start: usize = tail_start(&v, PROSE_TAIL_CHARS);
                proof {
                    lemma_tail_within(v@, PROSE_TAIL_CHARS as nat);
                    assert(v@.skip(0) =~= v@);
                    assert(v@.subrange(start as int, v@.len() as int) =~= v@.skip(start as int));
                }
                if start > 0 {
                    self.prose = string_of(&v, start, v.len());
                }
            },
            UiEvent::Pending(p) => {
                self.pending = p;
            },
            UiEvent::Settled(s) => {
                let ghost before = texts(self.asides@);
                let ghost t = s@;
                self.asides.push(s);
                assert(texts(self.asides@) =~= before.push(t));
                if self.asides.len() > MAX_RECENT {
                    self.asides.remove(0);
                    assert(texts(self.asides@) =~= before.push(t).skip(1));
                }
            },
            UiEvent::Done => {
                self.done = true;
            },
        }
    }

    /// Take in everything that the worker has queued, in order. Hands back whether the worker is still
    /// there.
    pub fn drain(&mut self, queued: Vec<UiEvent>, connected: bool) -> (r: bool)
        requires
            old(self)@.wf(),
        ensures
            final(self)@ == old(self)@.applied_all(ui_views(queued@)),
            final(self)@.wf(),
            r == connected,
    {
        let ghost all = ui_views(queued@);
        let ghost start = self@;
        assert(all.take(0) =~= Seq::empty());
        for ev in it: queued
            invariant
                it.seq() == queued@,
                all == ui_views(queued@),
                self@.wf(),
                self@ == start.applied_all(all.take(it.index())),
        {
            assert(all.take(it.index() + 1).drop_last() =~= all.take(it.index()));
            assert(all.take(it.index() + 1).last() == ev@);
            self.apply(ev);
        }
        assert(all.take(all.len() as int) =~= all);
        connected
    }
}

// ---------------------------------------------------------------------------------------------
// The worker
// ---------------------------------------------------------------------------------------------

/// What the controls have set.
#[derive(Copy, Clone, Debug, PartialEq, Eq, Structural)]
pub struct Pace {
    pub paused: bool,
    /// The threshold.
    pub z: F32,
}

/// One control: `None` where it says to stop.
pub open spec fn obeyed<N: Numerics>(num: &N, p: Pace, c: Control, after: Option<Pace>) -> bool {
    match c {
        Control::Pause(b) => after == Some(Pace { paused: b, ..p }),
        Control::AdjustZ(by) => exists|z: F32|
            #[trigger] call_ensures(N::nudged, (num, p.z, by), z) && after == Some(Pace { z, ..p }),
        Control::Quit => after is None,
    }
}

/// Controls in their order, as far as `states` goes: each state but the first is what a control made
/// of the one before.
pub open spec fn obeyed_all<N: Numerics>(num: &N, cs: Seq<Control>, states: Seq<Pace>) -> bool {
    &&& 1 <= states.len() <= cs.len() + 1
    &&& forall|i: int|
        0 <= i < states.len() - 1 ==> obeyed(
            num,
            #[trigger] states[i],
            cs[i],
            Some(states[i + 1]),
        )
}

/// Was the worker told to stop?
pub open spec fn quits(cs: Seq<Control>) -> bool {
    exists|i: int| 0 <= i < cs.len() && #[trigger] cs[i] == Control::Quit
}

impl Pace {
    /// Take in everything that the display has asked for, in order, up to a word to stop. Hands back
    /// whether to go on: not after a word to stop, and not once the display is gone.
    pub fn obey<N: Numerics>(&mut self, queued: &Vec<Control>, connected: bool, num: &N) -> (go_on:
        bool)
        ensures
            go_on == (connected && !quits(queued@)),
            exists|states: Seq<Pace>|
                {
                    &&& #[trigger] obeyed_all(num, queued@, states)
                    &&& states[0] == *old(self)
                    &&& states.last() == *final(self)
                    &&& if quits(queued@) {
                        queued@[states.len() - 1] == Control::Quit
                    } else {
                        states.len() == queued@.len() + 1
                    }
                },
    {
        let ghost mut states: Seq<Pace> = seq![*self];
        let mut i: usize = 0;
        while i < queued.len()
            invariant
                i <= queued@.len(),
                states.len() == i + 1,
                states[0] == *old(self),
                states.last() == *self,
                obeyed_all(num, queued@, states),
                forall|j: int| 0 <= j < i ==> #[trigger] queued@[j] != Control::Quit,
            decreases queued@.len() - i,
        {
            match queued[i] {
                Control::Pause(b) => {
                    self.paused = b;
                },
                Control::AdjustZ(by) => {
                    self.z = num.nudged(self.z, by);
                },
                Control::Quit => {
                    assert(queued@[i as int] == Control::Quit);
                    assert(queued@[states.len() - 1] == Control::Quit);
                    return false;
                },
            }
            proof {
                let grown = states.push(*self);
                assert forall|k: int| 0 <= k < grown.len() - 1 implies obeyed(
                    num,
                    #[trigger] grown[k],
                    queued@[k],
                    Some(grown[k + 1]),
                ) by {
                    if k < states.len() - 1 {
                        assert(grown[k] == states[k]);
                        assert(grown[k + 1] == states[k + 1]);
                    }
                }
                states = grown;
            }
            i = i + 1;
        }
        connected
    }
}

/// What the worker does next.
#[derive(Copy, Clone, Debug, PartialEq, Eq, Structural)]
pub enum Move {
    /// Nothing for a moment.
    Wait,
    /// Take this token.
    Take(Token),
    /// Report that the stream is over.
    Finish,
}

impl Pace {
    /// What comes next, where the stream has been taken up to `at`: nothing while it is paused, else
    /// its next token, else its end.
    pub fn next_move(&self, feed: &Vec<Token>, at: &mut usize) -> (m: Move)
        requires
            *old(at) <= feed@.len(),
        ensures
            if self.paused {
                m == Move::Wait && *final(at) == *old(at)
            } else if *old(at) < feed@.len() {
                m == Move::Take(feed@[*old(at) as int]) && *final(at) == *old(at) + 1
            } else {
                m == Move::Finish && *final(at) == *old(at)
            },
            *final(at) <= feed@.len(),
    {
        if self.paused {
            Move::Wait
        } else if *at < feed.len() {
            let tok = feed[*at];
            *at = *at + 1;
            Move::Take(tok)
        } else {
            Move::Finish
        }
    }
}

/// The reports of one stream token: its text, the aside that it settled if it did, and what is shown
/// of the aside in flight.
pub open spec fn reports(
    text: Seq<char>,
    settled: Option<Seq<char>>,
    pending: Option<Seq<char>>,
) -> Seq<UiView> {
    match settled {
        Some(s) => seq![UiView::Token(text), UiView::Settled(s), UiView::Pending(pending)],
        None => seq![UiView::Token(text), UiView::Pending(pending)],
    }
}

/// The observer after what is shown has moved on by one tick.
pub open spec fn shown_on(v: LobeView, status: Progress, was: Shown) -> LobeView {
    if abandons(v.memory, status, was) {
        v.scratched().with_fsm(None).with_fused(None)
    } else {
        remembering(v, settles(v.memory, status, was))
    }
}

/// A pending text once more.
fn copied_text(s: &Option<String>) -> (r: Option<String>)
    ensures
        shown_text(r) == shown_text(*s),
{
    match s {
        Some(t) => Some(t.clone()),
        None => None,
    }
}

/// Take one stream token: step or observe, move on what is shown, and report. `interject` is the length
/// asked of an aside, or `None` where asides are off. What was reported before a failure stays in
/// `out`.
#[verifier::rlimit(40)]
pub fn take_token<B: Backend, N: Numerics, R: Fn(&str) -> Option<String>>(
    lobe: &mut Lobe<B>,
    tok: Token,
    stats: &mut Welford,
    z: F32,
    topk: usize,
    interject: Option<usize>,
    retrieve: &R,
    pending: &mut Option<String>,
    revealed: &mut bool,
    num: &N,
    out: &mut Vec<UiEvent>,
) -> (r: Result<(), LobeError>)
    requires
        old(lobe)@.wf(),
        old(lobe).window.wf(),
        old(lobe)@.has_room(),
        old(lobe)@.scores(tok),
        old(lobe)@.anchored(),
        interject matches Some(max) ==> hint_fits(max as nat),
        old(stats).count < u64::MAX,
        forall|s: &str| #[trigger] retrieve.requires((s,)),
    ensures
        ({
            let was = Shown { pending: shown_text(*old(pending)), revealed: *old(revealed) };
            let now = Shown { pending: shown_text(*final(pending)), revealed: *final(revealed) };
            match r {
                Ok(()) => exists|mid: LobeView, step: Step, status: Progress|
                    {
                        &&& #[trigger] taken_on(
                            old(lobe).engine,
                            num,
                            *retrieve,
                            old(lobe)@,
                            tok,
                            *old(stats),
                            *final(stats),
                            z,
                            topk as nat,
                            interject,
                            mid,
                            step,
                            status,
                        )
                        &&& now == shown_next(mid.memory, status, was)
                        &&& final(lobe)@ == shown_on(mid, status, was)
                        &&& ui_views(final(out)@) == ui_views(old(out)@) + reports(
                            step.token_text@,
                            settles(mid.memory, status, was),
                            now.pending,
                        )
                    },
                Err(e) => {
                    &&& now == was
                    &&& {
                        ||| final(out)@ == old(out)@ && match interject {
                            Some(max) => step_failed(
                                old(lobe).engine,
                                num,
                                *retrieve,
                                old(lobe)@,
                                tok,
                                *old(stats),
                                *final(stats),
                                z,
                                topk as nat,
                                max,
                                final(lobe)@,
                                e,
                            ),
                            None => e is Backend && cut_short(
                                old(lobe)@.calls,
                                old(lobe)@.fed_calls(tok),
                                final(lobe)@.calls,
                            ),
                        }
                        ||| exists|mid: LobeView, step: Step, status: Progress|
                            {
                                &&& #[trigger] taken_on(
                                    old(lobe).engine,
                                    num,
                                    *retrieve,
                                    old(lobe)@,
                                    tok,
                                    *old(stats),
                                    *final(stats),
                                    z,
                                    topk as nat,
                                    interject,
                                    mid,
                                    step,
                                    status,
                                )
                                &&& e is Backend
                                &&& abandons(mid.memory, status, was)
                                &&& final(lobe)@ == (LobeView {
                                    calls: mid.calls.push(
                                        KvCall::Clear { seq: GEN_SEQ, ok: false },
                                    ),
                                    answers: mid.answers.push(Seq::empty()),
                                    ..mid
                                })
                                &&& ui_views(final(out)@) == ui_views(old(out)@).push(
                                    UiView::Token(step.token_text@),
                                )
                            }
                    }
                },
            }
        }),
        final(lobe)@.wf(),
        final(lobe).window.wf(),
        r is Ok ==> final(lobe)@.anchored(),
        final(lobe).engine == old(lobe).engine,
        final(lobe).debug == old(lobe).debug,
{
    let ghost v = lobe@;
    let ghost engine = lobe.engine;
    let ghost first = ui_views(out@);
    let (step, status): (Step, Option<InterjectStatus>) = match interject {
        Some(max) => {
            let o = match lobe.step(tok, stats, z, topk, max, retrieve, num) {
                Ok(o) => o,
                Err(e) => {
                    return Err(e);
                },
            };
            assert(advanced(
                engine,
                num,
                *retrieve,
                v,
                tok,
                *old(stats),
                *stats,
                z,
                topk as nat,
                max,
                lobe@,
                o,
            ));
            (o.step, Some(o.interjection))
        },
        None => {
            match lobe.observe(tok, stats, z, topk, num) {
                Ok(s) => (s, None),
                Err(e) => {
                    return Err(e);
                },
            }
        },
    };
    let ghost mid = lobe@;
    let ghost said = progress(status);
    assert(taken_on(
        engine,
        num,
        *retrieve,
        v,
        tok,
        *old(stats),
        *stats,
        z,
        topk as nat,
        interject,
        mid,
        step,
        said,
    ));
    let ghost text = step.token_text@;
    out.push(UiEvent::Token(step.token_text));
    assert(ui_views(out@) =~= first.push(UiView::Token(text)));
    let settled = match lobe.advance_reveal(status, pending, revealed) {
        Ok(settled) => settled,
        Err(e) => {
            return Err(e);
        },
    };
    let ghost done = shown_text(settled);
    if let Some(s) = settled {
        let ghost so_far = ui_views(out@);
        out.push(UiEvent::Settled(s));
        assert(ui_views(out@) =~= so_far.push(UiView::Settled(s@)));
    }
    let ghost so_far = ui_views(out@);
    let shown = copied_text(pending);
    let ghost p = shown_text(shown);
    out.push(UiEvent::Pending(shown));
    assert(ui_views(out@) =~= so_far.push(UiView::Pending(p)));
    assert(ui_views(out@) =~= first + reports(text, done, p));
    Ok(())
}

// ---------------------------------------------------------------------------------------------
// Laws
// ---------------------------------------------------------------------------------------------

/// Whatever is reported, the display stays within its limits.
pub proof fn lemma_display_stays_bounded(d: DisplayView, es: Seq<UiView>)
    requires
        d.wf(),
    ensures
        d.applied_all(es).wf(),
    decreases es.len(),
{
    if es.len() > 0 {
        let before = d.applied_all(es.drop_last());
        lemma_display_stays_bounded(d, es.drop_last());
        if let UiView::Token(t) = es.last() {
            lemma_tail_within(before.prose + t, PROSE_TAIL_CHARS as nat);
        }
    }
}

/// What is shown of the stream is always its end: a token that was reported last ends the prose, as
/// far as it fits.
pub proof fn lemma_prose_ends_in_the_latest_token(d: DisplayView, t: Seq<char>)
    requires
        byte_len(t) <= PROSE_TAIL_CHARS,
    ensures
        ({
            let prose = d.applied(UiView::Token(t)).prose;
            &&& prose.len() >= t.len()
            &&& prose.skip(prose.len() - t.len()) == t
        }),
{
    lemma_tail_keeps_the_end(d.prose, t, PROSE_TAIL_CHARS as nat);
}

proof fn lemma_tail_keeps_the_end(s: Seq<char>, t: Seq<char>, n: nat)
    requires
        byte_len(t) <= n,
    ensures
        tail_within(s + t, n).len() >= t.len(),
        tail_within(s + t, n).skip(tail_within(s + t, n).len() - t.len()) == t,
    decreases s.len(),
{
    if s.len() == 0 {
        assert(s + t =~= t);
        assert(t.skip(0) =~= t);
    } else if byte_len(s + t) <= n {
        assert((s + t).skip(s.len() as int) =~= t);
    } else {
        assert((s + t).skip(1) =~= s.skip(1) + t);
        lemma_tail_keeps_the_end(s.skip(1), t, n);
    }
}

/// Applying reports one batch after the other is applying all of them in their order: how often the
/// display drains the channel does not matter.
pub proof fn lemma_draining_in_batches(d: DisplayView, a: Seq<UiView>, b: Seq<UiView>)
    ensures
        d.applied_all(a).applied_all(b) == d.applied_all(a + b),
    decreases b.len(),
{
    if b.len() == 0 {
        assert(a + b =~= a);
    } else {
        lemma_draining_in_batches(d, a, b.drop_last());
        assert((a + b).drop_last() =~= a + b.drop_last());
    }
}

/// What each report changes on the display. The text of a token joins the prose, of which the longest end
/// of at most 12000 bytes is kept; a finished aside joins the others, of which the latest 24 are kept;
/// the aside in flight is replaced; the end of the stream is noted. Nothing else changes.
pub proof fn lemma_what_a_report_changes(d: DisplayView, t: Seq<char>, p: Option<Seq<char>>)
    requires
        d.wf(),
    ensures
        d.applied(UiView::Ready) == d,
        d.applied(UiView::Pending(p)) == (DisplayView { pending: p, ..d }),
        d.applied(UiView::Done) == (DisplayView { done: true, ..d }),
        ({
            let q = d.applied(UiView::Settled(t));
            &&& q == (DisplayView { asides: q.asides, ..d })
            &&& q.asides == if d.asides.len() < 24 {
                d.asides.push(t)
            } else {
                d.asides.push(t).skip(1)
            }
        }),
        ({
            let q = d.applied(UiView::Token(t));
            let all = d.prose + t;
            &&& q == (DisplayView { prose: q.prose, ..d })
            &&& q.prose.len() <= all.len()
            &&& q.prose == all.skip(all.len() - q.prose.len())
            &&& vstd::utf8::encode_utf8(q.prose).len() <= 12000
            &&& q.prose.len() < all.len() ==> vstd::utf8::encode_utf8(
                all.skip(all.len() - q.prose.len() - 1),
            ).len() > 12000
        }),
{
    crate::text::lemma_the_tail_is_the_longest(d.prose + t, 12000);
}

/// What a control changes: pausing and the threshold each leave the other alone, the threshold moves as
/// the arithmetic says, and a word to quit is the only one that stops the worker.
pub proof fn lemma_what_a_control_changes<N: Numerics>(
    num: &N,
    p: Pace,
    c: Control,
    after: Option<Pace>,
)
    requires
        obeyed(num, p, c, after),
    ensures
        after is None <==> c == Control::Quit,
        c matches Control::Pause(b) ==> after is Some && after->Some_0.paused == b && after->Some_0.z
            == p.z,
        c matches Control::AdjustZ(by) ==> after is Some && after->Some_0.paused == p.paused
            && call_ensures(N::nudged, (num, p.z, by), after->Some_0.z),
{
}

/// The reports of a token come in this order: its text, the aside that it settled, and last what is shown
/// of the aside in flight.
pub proof fn lemma_the_order_of_reports(
    d: DisplayView,
    text: Seq<char>,
    settled: Option<Seq<char>>,
    pending: Option<Seq<char>>,
)
    ensures
        settled is None ==> reports(text, settled, pending) =~= seq![UiView::Token(text)] + seq![
            UiView::Pending(pending),
        ],
        settled matches Some(s) ==> reports(text, settled, pending) =~= seq![UiView::Token(text)]
            + seq![UiView::Settled(s)] + seq![UiView::Pending(pending)],
        d.applied_all(reports(text, settled, pending)).pending == pending,
        d.applied_all(reports(text, settled, pending)).done == d.done,
        settled is None ==> d.applied_all(reports(text, settled, pending)).asides == d.asides,
        settled matches Some(s) ==> d.applied_all(reports(text, settled, pending)).asides.last() == s,
        d.applied_all(reports(text, settled, pending)).prose == d.applied(UiView::Token(text)).prose,
{
    reveal_with_fuel(DisplayView::applied_all, 4);
    let es = reports(text, settled, pending);
    match settled {
        None => {
            assert(es.drop_last() =~= seq![UiView::Token(text)]);
            assert(es.drop_last().drop_last() =~= Seq::empty());
        },
        Some(s) => {
            assert(es.drop_last() =~= seq![UiView::Token(text), UiView::Settled(s)]);
            assert(es.drop_last().drop_last() =~= seq![UiView::Token(text)]);
            assert(es.drop_last().drop_last().drop_last() =~= Seq::empty());
        },
    }
}

/// What becomes of the observer when what is shown moves on: an aside that is dropped leaves no aside in
/// flight and its sequence empty, a settled one is remembered, and else nothing changes.
pub proof fn lemma_what_showing_changes(v: LobeView, status: Progress, was: Shown)
    ensures
        status is Working && !was.revealed && v.memory.dooms(status->Working_0) ==> {
            let after = shown_on(v, status, was);
            &&& after.gen.fused is None
            &&& after.gen.fsm is None
            &&& after.memory == v.memory
            &&& after.calls == v.calls.push(KvCall::Clear { seq: 1, ok: true })
        },
        status is Working && (was.revealed || !v.memory.dooms(status->Working_0)) ==> shown_on(
            v,
            status,
            was,
        ) == v,
        status is Idle || status is Started ==> shown_on(v, status, was) == v,
        status is Done ==> shown_on(v, status, was) == match settles(v.memory, status, was) {
            Some(text) => LobeView { memory: v.memory.recorded(text), ..v },
            None => v,
        },
{
}

/// Taking in a report, on the display itself: the text of a token joins the prose, of which the longest end
/// of at most 12000 bytes is kept; a finished aside joins the others, of which the latest 24 are kept.
pub proof fn lemma_what_taking_in_a_report_does(d: &mut Display, ev: UiEvent, u: ())
    requires
        old(d)@.wf(),
        call_ensures(Display::apply, (d, ev), u),
    ensures
        ev matches UiEvent::Token(t) ==> {
            let all = old(d).prose@ + t@;
            let n = final(d).prose@.len();
            &&& n <= all.len()
            &&& final(d).prose@ == all.skip(all.len() - n)
            &&& vstd::utf8::encode_utf8(final(d).prose@).len() <= 12000
            &&& n < all.len() ==> vstd::utf8::encode_utf8(all.skip(all.len() - n - 1)).len() > 12000
        },
        !(ev is Token) ==> final(d).prose@ == old(d).prose@,
        ev matches UiEvent::Settled(s) ==> {
            let all = texts(old(d).asides@).push(s@);
            &&& all.len() <= 24 ==> texts(final(d).asides@) == all
            &&& all.len() > 24 ==> texts(final(d).asides@) == all.skip(1)
        },
        !(ev is Settled) ==> texts(final(d).asides@) == texts(old(d).asides@),
        ev matches UiEvent::Pending(p) ==> shown_text(final(d).pending) == shown_text(p),
        !(ev is Pending) ==> shown_text(final(d).pending) == shown_text(old(d).pending),
        final(d).done == (old(d).done || ev is Done),
{
    let a = old(d)@;
    let b = final(d)@;
    assert(b == a.applied(ev@));
    assert(b.prose == final(d).prose@ && b.asides == texts(final(d).asides@) && b.pending
        == shown_text(final(d).pending) && b.done == final(d).done);
    if let UiEvent::Token(t) = ev {
        crate::text::lemma_the_tail_is_the_longest(a.prose + t@, 12000);
    }
}

/// The worker goes on exactly where the display is still there and none of its controls says to quit. A
/// single control has its effect.
pub proof fn lemma_what_obeying_does<N: Numerics>(
    p: &mut Pace,
    queued: &Vec<Control>,
    connected: bool,
    num: &N,
    go_on: bool,
)
    requires
        call_ensures(Pace::obey::<N>, (p, queued, connected, num), go_on),
    ensures
        go_on <==> connected && forall|i: int|
            0 <= i < queued@.len() ==> !((#[trigger] queued@[i]) is Quit),
        queued@.len() == 0 ==> *final(p) == *old(p),
        queued@.len() == 1 ==> match queued@[0] {
            Control::Pause(b) => final(p).paused == b && final(p).z == old(p).z,
            Control::AdjustZ(by) => final(p).paused == old(p).paused && call_ensures(
                N::nudged,
                (num, old(p).z, by),
                final(p).z,
            ),
            Control::Quit => *final(p) == *old(p),
        },
{
    let cs = queued@;
    if quits(cs) {
        let i = choose|i: int| 0 <= i < cs.len() && #[trigger] cs[i] == Control::Quit;
        assert(cs[i] is Quit);
    } else {
        assert forall|i: int| 0 <= i < cs.len() implies !((#[trigger] cs[i]) is Quit) by {
            assert(cs[i] != Control::Quit);
        }
    }
    let states = choose|states: Seq<Pace>|
        {
            &&& #[trigger] obeyed_all(num, cs, states)
            &&& states[0] == *old(p)
            &&& states.last() == *final(p)
            &&& if quits(cs) {
                cs[states.len() - 1] == Control::Quit
            } else {
                states.len() == cs.len() + 1
            }
        };
    if cs.len() == 0 {
        assert(!quits(cs));
    } else if cs.len() == 1 {
        if states.len() == 2 {
            assert(obeyed(num, states[0], cs[0], Some(states[1])));
            if quits(cs) {
                assert(cs[0] == Control::Quit);
            }
        } else {
            assert(states.len() == 1);
        }
    }
}

/// While it is paused the worker waits; else it takes the next token of the stream, in order, and once
/// there is none left it finishes.
pub proof fn lemma_what_comes_next(p: &Pace, feed: &Vec<Token>, at: &mut usize, m: Move)
    requires
        *old(at) <= feed@.len(),
        call_ensures(Pace::next_move, (p, feed, at), m),
    ensures
        m is Wait <==> p.paused,
        m is Finish <==> !p.paused && *old(at) == feed@.len(),
        m matches Move::Take(t) ==> t == feed@[*old(at) as int] && *final(at) == *old(at) + 1,
        !(m is Take) ==> *final(at) == *old(at),
{
}

/// Taking a token, as a call: behind what was reported before come the text of the token, at most one
/// finished aside, and last what is shown of the aside in flight now. With asides off none is reported.
pub proof fn lemma_what_taking_a_token_reports<
    'a,
    B: Backend,
    N: Numerics,
    R: Fn(&str) -> Option<String>,
>(
    lobe: &mut Lobe<'a, B>,
    tok: Token,
    stats: &mut Welford,
    z: F32,
    topk: usize,
    interject: Option<usize>,
    retrieve: &R,
    pending: &mut Option<String>,
    revealed: &mut bool,
    num: &N,
    out: &mut Vec<UiEvent>,
    r: Result<(), LobeError>,
)
    requires
        call_ensures(
            take_token::<B, N, R>,
            (
                lobe,
                tok,
                stats,
                z,
                topk,
                interject,
                retrieve,
                pending,
                revealed,
                num,
                out,
            ),
            r,
        ),
        r is Ok,
    ensures
        ({
            let before = ui_views(old(out)@);
            let after = ui_views(final(out)@);
            let n = before.len() as int;
            &&& n + 2 <= after.len() <= n + 3
            &&& after.take(n) == before
            &&& after[n] == UiView::Token(old(lobe).engine.text_of(tok, Detok::Text))
            &&& after.last() == UiView::Pending(shown_text(*final(pending)))
            &&& after.len() == n + 3 ==> (after[n + 1] matches UiView::Settled(s) && s.len() > 0
                && trimmed(s) == s)
            &&& interject is None ==> {
                &&& after.len() == n + 2
                &&& shown_text(*final(pending)) == shown_text(*old(pending))
                &&& *final(revealed) == *old(revealed)
            }
        }),
{
    let engine = old(lobe).engine;
    let v = old(lobe)@;
    let before = ui_views(old(out)@);
    let after = ui_views(final(out)@);
    let was = Shown { pending: shown_text(*old(pending)), revealed: *old(revealed) };
    let now = Shown { pending: shown_text(*final(pending)), revealed: *final(revealed) };
    let (mid, step, status) = choose|mid: LobeView, step: Step, status: Progress|
        {
            &&& #[trigger] taken_on(
                engine,
                num,
                *retrieve,
                v,
                tok,
                *old(stats),
                *final(stats),
                z,
                topk as nat,
                interject,
                mid,
                step,
                status,
            )
            &&& now == shown_next(mid.memory, status, was)
            &&& final(lobe)@ == shown_on(mid, status, was)
            &&& after == before + reports(
                step.token_text@,
                settles(mid.memory, status, was),
                now.pending,
            )
        };
    let es = reports(step.token_text@, settles(mid.memory, status, was), now.pending);
    assert(after.take(before.len() as int) =~= before);
    assert(es.len() == 2 || es.len() == 3);
    assert(after.last() == es.last());
    assert(step.token_text@ == engine.text_of(tok, Detok::Text));
    if let Progress::Done(text) = status {
        crate::text::lemma_trimming_is_done_once(text);
    }
}

} // verus!
