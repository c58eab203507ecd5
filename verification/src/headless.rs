//! The pipe: stream tokens in, events out. Which events a token gives, in which order, and what the
//! observer remembers of them is decided here; writing them out is the frontend's.

use crate::backend::{Backend, Detok, KvCall, Token};
use crate::lobe::interject::{not_staged, InterjectStatus, Progress};
use crate::lobe::model::{aside, cut_short, hint_fits, LobeView};
use crate::lobe::novelty::MemoryView;
use crate::lobe::observe::{advanced, observed, step_failed, taken_on};
use crate::lobe::promises::lemma_nothing_fires_before_the_warm_up_is_over;
use crate::lobe::rag::{consulted, not_consulted, RagOutcome, Source};
use crate::lobe::showing::{remembering, shown_text};
use crate::lobe::types::{LobeError, Signal, Step, StepOutcome, Trigger};
use crate::lobe::{Lobe, GEN_SEQ};
use crate::number::F32;
use crate::numerics::Numerics;
use crate::stats::Welford;
use crate::text::{trim, trimmed};
use vstd::prelude::*;
use vstd::string::*;

verus! {

/// How many tokens a search pass may speak.
pub const RAG_MAX: usize = 160;

/// How many tokens lie between two throughput reports.
pub const STATS_EVERY: u64 = 25_000;

/// How many tokens lie between two reports on the cache while steps are fused.
pub const FUSED_STATS_EVERY: u64 = 200;

/// What is written out.
pub enum Event {
    /// A token fired.
    Trigger {
        trigger: Trigger,
        signal: Signal,
        pos: i32,
        /// Is it written what was expected instead?
        with_expected: bool,
    },
    /// An aside.
    Interjection {
        stream_index: usize,
        /// The token it is about; not known where it formed alongside the stream.
        trigger_token: Option<String>,
        text: String,
        /// Did it form alongside the stream?
        fused: bool,
    },
    /// A scored token.
    Step {
        stream_index: usize,
        token: String,
        surprisal: F32,
        entropy: F32,
        z: F32,
        signal: Signal,
        pos: i32,
    },
    /// A search.
    Retrieval {
        stream_index: usize,
        source: Source,
        query: String,
        /// What was found.
        snippet: Option<String>,
    },
}

/// An event, as a value.
pub enum EventView {
    Trigger { trigger: Trigger, signal: Signal, pos: int, with_expected: bool },
    Interjection {
        stream_index: int,
        trigger_token: Option<Seq<char>>,
        text: Seq<char>,
        fused: bool,
    },
    Step {
        stream_index: int,
        token: Seq<char>,
        surprisal: F32,
        entropy: F32,
        z: F32,
        signal: Signal,
        pos: int,
    },
    Retrieval {
        stream_index: int,
        source: Source,
        query: Seq<char>,
        snippet: Option<Seq<char>>,
    },
}

impl View for Event {
    type V = EventView;

    open spec fn view(&self) -> EventView {
        match *self {
            Event::Trigger { trigger, signal, pos, with_expected } => EventView::Trigger {
                trigger,
                signal,
                pos: pos as int,
                with_expected,
            },
            Event::Interjection { stream_index, trigger_token, text, fused } =>
                EventView::Interjection {
                    stream_index: stream_index as int,
                    trigger_token: shown_text(trigger_token),
                    text: text@,
                    fused,
                },
            Event::Step { stream_index, token, surprisal, entropy, z, signal, pos } =>
                EventView::Step {
                    stream_index: stream_index as int,
                    token: token@,
                    surprisal,
                    entropy,
                    z,
                    signal,
                    pos: pos as int,
                },
            Event::Retrieval { stream_index, source, query, snippet } => EventView::Retrieval {
                stream_index: stream_index as int,
                source,
                query: query@,
                snippet: shown_text(snippet),
            },
        }
    }
}

/// Events, as values.
pub open spec fn event_views(v: Seq<Event>) -> Seq<EventView> {
    v.map_values(|e: Event| e@)
}

fn emit(out: &mut Vec<Event>, e: Event)
    ensures
        event_views(final(out)@) == event_views(old(out)@).push(e@),
{
    let ghost before = event_views(out@);
    let ghost v = e@;
    out.push(e);
    assert(event_views(out@) =~= before.push(v));
}

/// The event of a trigger, if there is one.
pub open spec fn trigger_events(
    trigger: Option<Trigger>,
    signal: Signal,
    pos: int,
    with_expected: bool,
) -> Seq<EventView> {
    match trigger {
        Some(trigger) => seq![EventView::Trigger { trigger, signal, pos, with_expected }],
        None => Seq::empty(),
    }
}

/// The event of a scored token.
pub open spec fn step_event(step: Step, signal: Signal, pos: int) -> EventView {
    EventView::Step {
        stream_index: step.stream_index as int,
        token: step.token_text@,
        surprisal: step.surprisal,
        entropy: step.entropy,
        z: step.z,
        signal,
        pos,
    }
}

// ---------------------------------------------------------------------------------------------
// Fused
// ---------------------------------------------------------------------------------------------

/// The aside that a fused step finished, if it did and there is anything in it.
pub open spec fn finished(status: Progress) -> Option<Seq<char>> {
    match status {
        Progress::Done(text) => if trimmed(text).len() > 0 {
            Some(trimmed(text))
        } else {
            None
        },
        _ => None,
    }
}

/// Is the aside in flight a repeat?
pub open spec fn repeats(m: MemoryView, status: Progress) -> bool {
    status matches Progress::Working(p) && m.dooms(p)
}

/// The events of a fused step: its trigger, the aside that it finished, and the token itself where all
/// of them are wanted.
pub open spec fn fused_events(
    step: Step,
    status: Progress,
    signal: Signal,
    pos: int,
    all_steps: bool,
) -> Seq<EventView> {
    let fired = trigger_events(step.trigger, signal, pos, false);
    let said = match finished(status) {
        Some(text) => fired.push(
            EventView::Interjection {
                stream_index: step.stream_index as int,
                trigger_token: None,
                text,
                fused: true,
            },
        ),
        None => fired,
    };
    if all_steps {
        said.push(step_event(step, signal, pos))
    } else {
        said
    }
}

/// The observer after the aside of a fused step has been dealt with: a repeat is abandoned, a finished
/// one is remembered.
pub open spec fn fused_after(v: LobeView, status: Progress) -> LobeView {
    if repeats(v.memory, status) {
        v.scratched().with_fsm(None).with_fused(None)
    } else {
        remembering(v, finished(status))
    }
}

/// One stream token on the fused path: a step where asides are on, else an observation; then the events
/// of its trigger, of the aside that it finished, and of the token itself where all of them are wanted.
/// An aside that turns out to be a repeat is abandoned. What was emitted before a failure stays in
/// `out`.
#[verifier::rlimit(40)]
pub fn process_fused_token<B: Backend, N: Numerics, R: Fn(&str) -> Option<String>>(
    lobe: &mut Lobe<B>,
    tok: Token,
    stats: &mut Welford,
    z: F32,
    topk: usize,
    interject: Option<usize>,
    signal: Signal,
    all_steps: bool,
    retrieve: &R,
    num: &N,
    out: &mut Vec<Event>,
) -> (r: Result<(), LobeError>)
    requires
        old(lobe)@.wf(),
        old(lobe).window.wf(),
        old(lobe)@.has_room(),
        old(lobe)@.scores(tok),
        old(lobe)@.anchored(),
        interject matches Some(max) ==> hint_fits(max as nat),
        old(stats).count < u64::MAX,
        forall|s: &str| #[trigger] retrieve.requires((s,)),
    ensures
        match r {
            Ok(()) => exists|mid: LobeView, step: Step, status: Progress|
                {
                    &&& #[trigger] taken_on(
                        old(lobe).engine,
                        num,
                        *retrieve,
                        old(lobe)@,
                        tok,
                        *old(stats),
                        *final(stats),
                        z,
                        topk as nat,
                        interject,
                        mid,
                        step,
                        status,
                    )
                    &&& event_views(final(out)@) == event_views(old(out)@) + fused_events(
                        step,
                        status,
                        signal,
                        mid.pos,
                        all_steps,
                    )
                    &&& final(lobe)@ == fused_after(mid, status)
                },
            Err(e) => {
                ||| final(out)@ == old(out)@ && match interject {
                    Some(max) => step_failed(
                        old(lobe).engine,
                        num,
                        *retrieve,
                        old(lobe)@,
                        tok,
                        *old(stats),
                        *final(stats),
                        z,
                        topk as nat,
                        max,
                        final(lobe)@,
                        e,
                    ),
                    None => e is Backend && cut_short(
                        old(lobe)@.calls,
                        old(lobe)@.fed_calls(tok),
                        final(lobe)@.calls,
                    ),
                }
                ||| exists|mid: LobeView, step: Step, status: Progress|
                    {
                        &&& #[trigger] taken_on(
                            old(lobe).engine,
                            num,
                            *retrieve,
                            old(lobe)@,
                            tok,
                            *old(stats),
                            *final(stats),
                            z,
                            topk as nat,
                            interject,
                            mid,
                            step,
                            status,
                        )
                        &&& e is Backend
                        &&& repeats(mid.memory, status)
                        &&& event_views(final(out)@) == event_views(old(out)@) + trigger_events(
                            step.trigger,
                            signal,
                            mid.pos,
                            false,
                        )
                        &&& final(lobe)@ == (LobeView {
                            calls: mid.calls.push(KvCall::Clear { seq: GEN_SEQ, ok: false }),
                            answers: mid.answers.push(Seq::empty()),
                            ..mid
                        })
                    }
            },
        },
        final(lobe)@.wf(),
        final(lobe).window.wf(),
        r is Ok ==> final(lobe)@.anchored(),
        final(lobe).engine == old(lobe).engine,
        final(lobe).debug == old(lobe).debug,
{
    let ghost first = event_views(out@);
    let ghost v = lobe@;
    let (step, interjection): (Step, InterjectStatus) = match interject {
        Some(max) => {
            let o = match lobe.step(tok, stats, z, topk, max, retrieve, num) {
                Ok(o) => o,
                Err(e) => {
                    return Err(e);
                },
            };
            assert(advanced(
                old(lobe).engine,
                num,
                *retrieve,
                v,
                tok,
                *old(stats),
                *stats,
                z,
                topk as nat,
                max,
                lobe@,
                o,
            ));
            (o.step, o.interjection)
        },
        None => {
            match lobe.observe(tok, stats, z, topk, num) {
                Ok(s) => (s, InterjectStatus::Idle),
                Err(e) => {
                    return Err(e);
                },
            }
        },
    };
    let ghost mid = lobe@;
    let ghost whole = step;
    let ghost status = interjection@;
    assert(taken_on(
        old(lobe).engine,
        num,
        *retrieve,
        v,
        tok,
        *old(stats),
        *stats,
        z,
        topk as nat,
        interject,
        mid,
        whole,
        status,
    ));
    let pos: i32 = lobe.position();
    let index: usize = step.stream_index;
    if let Some(trigger) = step.trigger {
        emit(out, Event::Trigger { trigger, signal, pos, with_expected: false });
    }
    let ghost fired = event_views(out@);
    assert(fired =~= first + trigger_events(whole.trigger, signal, mid.pos, false));
    match interjection {
        InterjectStatus::Working(partial) => {
            if lobe.interjection_doomed(partial.as_str()) {
                match lobe.abort_interjection() {
                    Ok(()) => {},
                    Err(e) => {
                        return Err(e);
                    },
                }
            }
        },
        InterjectStatus::Done(text) => {
            let text = trim(text.as_str());
            if !text.is_empty() {
                emit(
                    out,
                    Event::Interjection {
                        stream_index: index,
                        trigger_token: None,
                        text: text.to_owned(),
                        fused: true,
                    },
                );
                lobe.record_interjection(text);
            }
        },
        InterjectStatus::Started => {},
        InterjectStatus::Idle => {},
    }
    assert(event_views(out@) =~= first + fused_events(whole, status, signal, mid.pos, false));
    if all_steps {
        emit(
            out,
            Event::Step {
                stream_index: index,
                token: step.token_text,
                surprisal: step.surprisal,
                entropy: step.entropy,
                z: step.z,
                signal,
                pos,
            },
        );
    }
    assert(event_views(out@) =~= first + fused_events(whole, status, signal, mid.pos, all_steps));
    Ok(())
}

// ---------------------------------------------------------------------------------------------
// One after the other
// ---------------------------------------------------------------------------------------------

/// An aside is remembered, and written out where it is novel; an empty one is neither.
pub open spec fn voiced<N: Numerics>(
    num: &N,
    v: LobeView,
    index: int,
    token: Seq<char>,
    text: Seq<char>,
    after: LobeView,
    events: Seq<EventView>,
) -> bool {
    if text.len() == 0 {
        after == v && events == Seq::<EventView>::empty()
    } else {
        exists|novel: bool|
            {
                &&& #[trigger] v.memory.judged(num, text, novel)
                &&& after == remembering(v, Some(text))
                &&& events == if novel {
                    seq![
                        EventView::Interjection {
                            stream_index: index,
                            trigger_token: Some(token),
                            text,
                            fused: false,
                        },
                    ]
                } else {
                    Seq::empty()
                }
            }
    }
}

/// Remember an aside, and write it out where it is novel. It is always remembered: what keeps the
/// observer from circling is the next ask, which shows it.
pub fn record_and_emit_interjection<B: Backend, N: Numerics>(
    lobe: &mut Lobe<B>,
    stream_index: usize,
    trigger_token: &str,
    text: &str,
    num: &N,
    out: &mut Vec<Event>,
)
    requires
        old(lobe)@.wf(),
    ensures
        exists|events: Seq<EventView>|
            #[trigger] voiced(
                num,
                old(lobe)@,
                stream_index as int,
                trigger_token@,
                text@,
                final(lobe)@,
                events,
            ) && event_views(final(out)@) == event_views(old(out)@) + events,
        final(lobe)@.wf(),
        final(lobe)@ == (LobeView { memory: final(lobe)@.memory, ..old(lobe)@ }),
        final(lobe).engine == old(lobe).engine,
        final(lobe).debug == old(lobe).debug,
        final(lobe).window == old(lobe).window,
{
    let ghost first = event_views(out@);
    let ghost v = lobe@;
    if text.is_empty() {
        assert(first =~= first + Seq::<EventView>::empty());
        assert(voiced(
            num,
            v,
            stream_index as int,
            trigger_token@,
            text@,
            lobe@,
            Seq::<EventView>::empty(),
        ));
        return ;
    }
    let novel: bool = lobe.interjection_is_novel(text, num);
    lobe.record_interjection(text);
    let ghost mut events: Seq<EventView> = Seq::empty();
    if novel {
        let e = Event::Interjection {
            stream_index,
            trigger_token: Some(trigger_token.to_owned()),
            text: text.to_owned(),
            fused: false,
        };
        proof {
            events = seq![e@];
        }
        emit(out, e);
    }
    assert(event_views(out@) =~= first + events);
    assert(v.memory.judged(num, text@, novel));
    assert(voiced(num, v, stream_index as int, trigger_token@, text@, lobe@, events));
}

/// A whole aside on a token that fired, and what is written out of it.
pub open spec fn interjected<B: Backend, N: Numerics>(
    engine: &B,
    num: &N,
    v: LobeView,
    index: int,
    token: Seq<char>,
    max: nat,
    after: LobeView,
    events: Seq<EventView>,
) -> bool {
    exists|mid: LobeView, note: Seq<char>|
        #[trigger] aside(engine, num, v, max, None, mid, note) && voiced(
            num,
            mid,
            index,
            token,
            trimmed(note),
            after,
            events,
        )
}

/// Produce the aside on a token that fired, and write it out where it is novel.
pub fn handle_interjection<B: Backend, N: Numerics>(
    lobe: &mut Lobe<B>,
    stream_index: usize,
    surprising: &str,
    max: usize,
    num: &N,
    out: &mut Vec<Event>,
) -> (r: Result<(), LobeError>)
    requires
        old(lobe)@.wf(),
        hint_fits(max as nat),
    ensures
        match r {
            Ok(()) => exists|events: Seq<EventView>|
                #[trigger] interjected(
                    old(lobe).engine,
                    num,
                    old(lobe)@,
                    stream_index as int,
                    surprising@,
                    max as nat,
                    final(lobe)@,
                    events,
                ) && event_views(final(out)@) == event_views(old(out)@) + events,
            Err(e) => final(out)@ == old(out)@ && not_staged(
                old(lobe).engine,
                old(lobe)@,
                max as nat,
                None,
                final(lobe)@,
                e,
            ),
        },
        final(lobe)@.wf(),
        final(lobe)@ == (LobeView {
            gen: final(lobe)@.gen,
            calls: final(lobe)@.calls,
            answers: final(lobe)@.answers,
            memory: final(lobe)@.memory,
            ..old(lobe)@
        }),
        final(lobe).engine == old(lobe).engine,
        final(lobe).debug == old(lobe).debug,
        final(lobe).window == old(lobe).window,
{
    let ghost v = lobe@;
    let note = match lobe.interject(surprising, max, None, num) {
        Ok(note) => note,
        Err(e) => {
            return Err(e);
        },
    };
    let ghost mid = lobe@;
    let ghost first = event_views(out@);
    record_and_emit_interjection(lobe, stream_index, surprising, trim(note.as_str()), num, out);
    proof {
        assert(aside(old(lobe).engine, num, v, max as nat, None, mid, note@));
        let events = choose|events: Seq<EventView>|
            #[trigger] voiced(
                num,
                mid,
                stream_index as int,
                surprising@,
                trimmed(note@),
                lobe@,
                events,
            ) && event_views(out@) == first + events;
        assert(interjected(
            old(lobe).engine,
            num,
            v,
            stream_index as int,
            surprising@,
            max as nat,
            lobe@,
            events,
        ));
    }
    Ok(())
}

/// The event of a search, if one was called for.
pub open spec fn retrieval_events(o: RagOutcome, index: int) -> Seq<EventView> {
    match o.directive {
        Some(d) => seq![
            EventView::Retrieval {
                stream_index: index,
                source: d.source,
                query: d.query@,
                snippet: shown_text(o.retrieved),
            },
        ],
        None => Seq::empty(),
    }
}

/// What the model said once it had been told, where a search was called for; else nothing.
pub open spec fn grounded(o: RagOutcome) -> Seq<char> {
    match o.response {
        Some(r) => if o.directive is Some {
            r@
        } else {
            Seq::empty()
        },
        None => Seq::empty(),
    }
}

/// A search pass on a token that fired: the thought, the search, and what was said once it was known
/// are written out in that order.
pub open spec fn looked_up<B: Backend, N: Numerics, F: Fn(Source, &str) -> Option<String>>(
    engine: &B,
    num: &N,
    retrieve: F,
    v: LobeView,
    index: int,
    token: Seq<char>,
    after: LobeView,
    events: Seq<EventView>,
) -> bool {
    exists|
        mid: LobeView,
        o: RagOutcome,
        thought: LobeView,
        first: Seq<EventView>,
        last: Seq<EventView>,
    |
        #![trigger consulted(engine, retrieve, v, token, RAG_MAX as nat, mid, o), voiced(num, mid, index, token, trimmed(o.thought@), thought, first), voiced(num, thought, index, token, grounded(o), after, last)]
        {
            &&& consulted(engine, retrieve, v, token, RAG_MAX as nat, mid, o)
            &&& voiced(num, mid, index, token, trimmed(o.thought@), thought, first)
            &&& voiced(num, thought, index, token, grounded(o), after, last)
            &&& events == first + retrieval_events(o, index) + last
        }
}

/// Make a search pass on a token that fired and write out what came of it.
pub fn handle_rag<B: Backend, N: Numerics, F: Fn(Source, &str) -> Option<String>>(
    lobe: &mut Lobe<B>,
    stream_index: usize,
    surprising: &str,
    retrieve: &F,
    num: &N,
    out: &mut Vec<Event>,
) -> (r: Result<(), LobeError>)
    requires
        old(lobe)@.wf(),
        forall|s: Source, q: &str| #[trigger] retrieve.requires((s, q)),
    ensures
        match r {
            Ok(()) => exists|events: Seq<EventView>|
                #[trigger] looked_up(
                    old(lobe).engine,
                    num,
                    *retrieve,
                    old(lobe)@,
                    stream_index as int,
                    surprising@,
                    final(lobe)@,
                    events,
                ) && event_views(final(out)@) == event_views(old(out)@) + events,
            Err(e) => final(out)@ == old(out)@ && not_consulted(
                old(lobe).engine,
                *retrieve,
                old(lobe)@,
                surprising@,
                RAG_MAX as nat,
                final(lobe)@,
                e,
            ),
        },
        final(lobe)@.wf(),
        final(lobe)@ == (LobeView {
            calls: final(lobe)@.calls,
            answers: final(lobe)@.answers,
            memory: final(lobe)@.memory,
            ..old(lobe)@
        }),
        final(lobe).engine == old(lobe).engine,
        final(lobe).debug == old(lobe).debug,
        final(lobe).window == old(lobe).window,
{
    let ghost v = lobe@;
    let ghost engine = lobe.engine;
    let ghost before = event_views(out@);
    let ghost index = stream_index as int;
    let o = match lobe.rag(surprising, RAG_MAX, retrieve) {
        Ok(o) => o,
        Err(e) => {
            return Err(e);
        },
    };
    let ghost mid = lobe@;
    let ghost whole = o;
    record_and_emit_interjection(
        lobe,
        stream_index,
        surprising,
        trim(o.thought.as_str()),
        num,
        out,
    );
    let ghost thought = lobe@;
    let ghost first = choose|events: Seq<EventView>|
        #[trigger] voiced(
            num,
            mid,
            index,
            surprising@,
            trimmed(whole.thought@),
            thought,
            events,
        ) && event_views(out@) == before + events;
    let mut reply = String::new();
    assert(reply@ =~= Seq::empty());
    if let Some(d) = o.directive {
        let snippet = o.retrieved;
        emit(
            out,
            Event::Retrieval { stream_index, source: d.source, query: d.query, snippet },
        );
        if let Some(r) = o.response {
            reply = r;
        }
    }
    let ghost searched = event_views(out@);
    assert(searched =~= before + first + retrieval_events(whole, index));
    assert(reply@ == grounded(whole));
    record_and_emit_interjection(lobe, stream_index, surprising, reply.as_str(), num, out);
    proof {
        let last = choose|events: Seq<EventView>|
            #[trigger] voiced(
                num,
                thought,
                index,
                surprising@,
                grounded(whole),
                lobe@,
                events,
            ) && event_views(out@) == searched + events;
        let events = first + retrieval_events(whole, index) + last;
        assert(event_views(out@) =~= before + events);
        assert(consulted(engine, *retrieve, v, surprising@, RAG_MAX as nat, mid, whole));
        assert(looked_up(engine, num, *retrieve, v, index, surprising@, lobe@, events));
    }
    Ok(())
}

/// What follows a token that fired: an aside where asides are on, then a search where searching is on.
#[verifier::opaque]
pub open spec fn reacted<B: Backend, N: Numerics, F: Fn(Source, &str) -> Option<String>>(
    engine: &B,
    num: &N,
    retrieve: F,
    v: LobeView,
    index: int,
    token: Seq<char>,
    interject: Option<usize>,
    rag: bool,
    after: LobeView,
    events: Seq<EventView>,
) -> bool {
    exists|mid: LobeView, spoken: Seq<EventView>, found: Seq<EventView>|
        #![trigger answered(engine, num, v, index, token, interject, mid, spoken), searched(engine, num, retrieve, mid, index, token, rag, after, found)]
        {
            &&& answered(engine, num, v, index, token, interject, mid, spoken)
            &&& searched(engine, num, retrieve, mid, index, token, rag, after, found)
            &&& events == spoken + found
        }
}

/// An aside where asides are on.
pub open spec fn answered<B: Backend, N: Numerics>(
    engine: &B,
    num: &N,
    v: LobeView,
    index: int,
    token: Seq<char>,
    interject: Option<usize>,
    after: LobeView,
    events: Seq<EventView>,
) -> bool {
    match interject {
        Some(max) => interjected(engine, num, v, index, token, max as nat, after, events),
        None => after == v && events == Seq::<EventView>::empty(),
    }
}

/// A search where searching is on.
pub open spec fn searched<B: Backend, N: Numerics, F: Fn(Source, &str) -> Option<String>>(
    engine: &B,
    num: &N,
    retrieve: F,
    v: LobeView,
    index: int,
    token: Seq<char>,
    rag: bool,
    after: LobeView,
    events: Seq<EventView>,
) -> bool {
    if rag {
        looked_up(engine, num, retrieve, v, index, token, after, events)
    } else {
        after == v && events == Seq::<EventView>::empty()
    }
}

/// Why what follows a token that fired failed, and what had been written out by then.
#[verifier::opaque]
pub open spec fn not_reacted<B: Backend, N: Numerics, F: Fn(Source, &str) -> Option<String>>(
    engine: &B,
    num: &N,
    retrieve: F,
    v: LobeView,
    index: int,
    token: Seq<char>,
    interject: Option<usize>,
    rag: bool,
    after: LobeView,
    events: Seq<EventView>,
    e: LobeError,
) -> bool {
    ||| events == Seq::<EventView>::empty() && (interject matches Some(max) && not_staged(
        engine,
        v,
        max as nat,
        None,
        after,
        e,
    ))
    ||| rag && exists|mid: LobeView|
        #[trigger] answered(engine, num, v, index, token, interject, mid, events) && not_consulted(
            engine,
            retrieve,
            mid,
            token,
            RAG_MAX as nat,
            after,
            e,
        )
}

/// What follows a token that fired.
fn react<B: Backend, N: Numerics, F: Fn(Source, &str) -> Option<String>>(
    lobe: &mut Lobe<B>,
    stream_index: usize,
    surprising: &str,
    interject: Option<usize>,
    rag: bool,
    retrieve: &F,
    num: &N,
    out: &mut Vec<Event>,
) -> (r: Result<(), LobeError>)
    requires
        old(lobe)@.wf(),
        interject matches Some(max) ==> hint_fits(max as nat),
        forall|s: Source, q: &str| #[trigger] retrieve.requires((s, q)),
    ensures
        match r {
            Ok(()) => exists|events: Seq<EventView>|
                #[trigger] reacted(
                    old(lobe).engine,
                    num,
                    *retrieve,
                    old(lobe)@,
                    stream_index as int,
                    surprising@,
                    interject,
                    rag,
                    final(lobe)@,
                    events,
                ) && event_views(final(out)@) == event_views(old(out)@) + events,
            Err(e) => exists|events: Seq<EventView>|
                #[trigger] not_reacted(
                    old(lobe).engine,
                    num,
                    *retrieve,
                    old(lobe)@,
                    stream_index as int,
                    surprising@,
                    interject,
                    rag,
                    final(lobe)@,
                    events,
                    e,
                ) && event_views(final(out)@) == event_views(old(out)@) + events,
        },
        final(lobe)@.wf(),
        final(lobe)@ == (LobeView {
            gen: final(lobe)@.gen,
            calls: final(lobe)@.calls,
            answers: final(lobe)@.answers,
            memory: final(lobe)@.memory,
            ..old(lobe)@
        }),
        final(lobe).engine == old(lobe).engine,
        final(lobe).debug == old(lobe).debug,
        final(lobe).window == old(lobe).window,
{
    proof {
        reveal(reacted);
        reveal(not_reacted);
    }
    let ghost v = lobe@;
    let ghost engine = lobe.engine;
    let ghost index = stream_index as int;
    let ghost before = event_views(out@);
    let ghost none = Seq::<EventView>::empty();
    assert(before =~= before + none);
    let ghost mut spoken: Seq<EventView> = none;
    if let Some(max) = interject {
        match handle_interjection(lobe, stream_index, surprising, max, num, out) {
            Ok(()) => {},
            Err(e) => {
                assert(not_reacted(
                    engine,
                    num,
                    *retrieve,
                    v,
                    index,
                    surprising@,
                    interject,
                    rag,
                    lobe@,
                    none,
                    e,
                ));
                return Err(e);
            },
        }
        proof {
            spoken = choose|events: Seq<EventView>|
                #[trigger] interjected(
                    engine,
                    num,
                    v,
                    index,
                    surprising@,
                    max as nat,
                    lobe@,
                    events,
                ) && event_views(out@) == before + events;
        }
    }
    let ghost mid = lobe@;
    let ghost so_far = event_views(out@);
    assert(answered(engine, num, v, index, surprising@, interject, mid, spoken));
    let ghost mut found: Seq<EventView> = none;
    if rag {
        match handle_rag(lobe, stream_index, surprising, retrieve, num, out) {
            Ok(()) => {},
            Err(e) => {
                assert(not_reacted(
                    engine,
                    num,
                    *retrieve,
                    v,
                    index,
                    surprising@,
                    interject,
                    rag,
                    lobe@,
                    spoken,
                    e,
                ));
                return Err(e);
            },
        }
        proof {
            found = choose|events: Seq<EventView>|
                #[trigger] looked_up(
                    engine,
                    num,
                    *retrieve,
                    mid,
                    index,
                    surprising@,
                    lobe@,
                    events,
                ) && event_views(out@) == so_far + events;
        }
    }
    proof {
        assert(searched(engine, num, *retrieve, mid, index, surprising@, rag, lobe@, found));
        assert(event_views(out@) =~= before + (spoken + found));
        assert(reacted(
            engine,
            num,
            *retrieve,
            v,
            index,
            surprising@,
            interject,
            rag,
            lobe@,
            spoken + found,
        ));
    }
    Ok(())
}

/// What follows a token: where it fired what follows a fire, else nothing.
pub open spec fn followed<B: Backend, N: Numerics, F: Fn(Source, &str) -> Option<String>>(
    engine: &B,
    num: &N,
    retrieve: F,
    v: LobeView,
    trigger: Option<Trigger>,
    interject: Option<usize>,
    rag: bool,
    after: LobeView,
    events: Seq<EventView>,
) -> bool {
    match trigger {
        Some(t) => reacted(
            engine,
            num,
            retrieve,
            v,
            t.stream_index as int,
            t.token_text@,
            interject,
            rag,
            after,
            events,
        ),
        None => after == v && events == Seq::<EventView>::empty(),
    }
}

/// Why what follows a token failed, and what had been written out by then.
pub open spec fn not_followed<B: Backend, N: Numerics, F: Fn(Source, &str) -> Option<String>>(
    engine: &B,
    num: &N,
    retrieve: F,
    v: LobeView,
    trigger: Option<Trigger>,
    interject: Option<usize>,
    rag: bool,
    after: LobeView,
    events: Seq<EventView>,
    e: LobeError,
) -> bool {
    trigger matches Some(t) && not_reacted(
        engine,
        num,
        retrieve,
        v,
        t.stream_index as int,
        t.token_text@,
        interject,
        rag,
        after,
        events,
        e,
    )
}

/// Write out a trigger, if there is one, and what follows it.
fn follow<B: Backend, N: Numerics, F: Fn(Source, &str) -> Option<String>>(
    lobe: &mut Lobe<B>,
    trigger: Option<Trigger>,
    signal: Signal,
    pos: i32,
    interject: Option<usize>,
    rag: bool,
    retrieve: &F,
    num: &N,
    out: &mut Vec<Event>,
) -> (r: Result<(), LobeError>)
    requires
        old(lobe)@.wf(),
        interject matches Some(max) ==> hint_fits(max as nat),
        forall|s: Source, q: &str| #[trigger] retrieve.requires((s, q)),
    ensures
        match r {
            Ok(()) => exists|events: Seq<EventView>|
                #[trigger] followed(
                    old(lobe).engine,
                    num,
                    *retrieve,
                    old(lobe)@,
                    trigger,
                    interject,
                    rag,
                    final(lobe)@,
                    events,
                ) && event_views(final(out)@) == event_views(old(out)@) + (trigger_events(
                    trigger,
                    signal,
                    pos as int,
                    true,
                ) + events),
            Err(e) => exists|events: Seq<EventView>|
                #[trigger] not_followed(
                    old(lobe).engine,
                    num,
                    *retrieve,
                    old(lobe)@,
                    trigger,
                    interject,
                    rag,
                    final(lobe)@,
                    events,
                    e,
                ) && event_views(final(out)@) == event_views(old(out)@) + (trigger_events(
                    trigger,
                    signal,
                    pos as int,
                    true,
                ) + events),
        },
        final(lobe)@.wf(),
        final(lobe)@ == (LobeView {
            gen: final(lobe)@.gen,
            calls: final(lobe)@.calls,
            answers: final(lobe)@.answers,
            memory: final(lobe)@.memory,
            ..old(lobe)@
        }),
        final(lobe).engine == old(lobe).engine,
        final(lobe).debug == old(lobe).debug,
        final(lobe).window == old(lobe).window,
{
    let ghost before = event_views(out@);
    let ghost engine = lobe.engine;
    let ghost v = lobe@;
    let ghost whole = trigger;
    let ghost head = trigger_events(whole, signal, pos as int, true);
    match trigger {
        None => {
            let ghost none = Seq::<EventView>::empty();
            assert(followed(engine, num, *retrieve, v, whole, interject, rag, lobe@, none));
            assert(before =~= before + (head + none));
            Ok(())
        },
        Some(t) => {
            let index: usize = t.stream_index;
            let surprising = t.token_text.clone();
            emit(out, Event::Trigger { trigger: t, signal, pos, with_expected: true });
            let ghost so_far = event_views(out@);
            assert(so_far =~= before + head);
            match react(lobe, index, surprising.as_str(), interject, rag, retrieve, num, out) {
                Ok(()) => {
                    proof {
                        let events = choose|events: Seq<EventView>|
                            #[trigger] reacted(
                                engine,
                                num,
                                *retrieve,
                                v,
                                index as int,
                                surprising@,
                                interject,
                                rag,
                                lobe@,
                                events,
                            ) && event_views(out@) == so_far + events;
                        assert(so_far + events =~= before + (head + events));
                        assert(followed(
                            engine,
                            num,
                            *retrieve,
                            v,
                            whole,
                            interject,
                            rag,
                            lobe@,
                            events,
                        ));
                    }
                    Ok(())
                },
                Err(e) => {
                    proof {
                        let events = choose|events: Seq<EventView>|
                            #[trigger] not_reacted(
                                engine,
                                num,
                                *retrieve,
                                v,
                                index as int,
                                surprising@,
                                interject,
                                rag,
                                lobe@,
                                events,
                                e,
                            ) && event_views(out@) == so_far + events;
                        assert(so_far + events =~= before + (head + events));
                        assert(not_followed(
                            engine,
                            num,
                            *retrieve,
                            v,
                            whole,
                            interject,
                            rag,
                            lobe@,
                            events,
                            e,
                        ));
                    }
                    Err(e)
                },
            }
        },
    }
}

/// The events of a token on the path that takes one thing after the other: its trigger, what followed,
/// and the token itself where all of them are wanted.
pub open spec fn observe_events(
    step: Step,
    signal: Signal,
    pos: int,
    followed: Seq<EventView>,
    all_steps: bool,
) -> Seq<EventView> {
    let fired = trigger_events(step.trigger, signal, pos, true) + followed;
    if all_steps {
        fired.push(step_event(step, signal, pos))
    } else {
        fired
    }
}

/// One stream token on the path that takes one thing after the other: it is observed, and where it
/// fired its trigger is written out, then the aside, then the search. Hands back whether it fired.
/// What was emitted before a failure stays in `out`.
#[verifier::rlimit(40)]
pub fn process_observe_token<B: Backend, N: Numerics, F: Fn(Source, &str) -> Option<String>>(
    lobe: &mut Lobe<B>,
    tok: Token,
    stats: &mut Welford,
    z: F32,
    topk: usize,
    signal: Signal,
    interject: Option<usize>,
    rag: bool,
    all_steps: bool,
    retrieve: &F,
    num: &N,
    out: &mut Vec<Event>,
) -> (r: Result<bool, LobeError>)
    requires
        old(lobe)@.wf(),
        old(lobe).window.wf(),
        old(lobe)@.has_room(),
        old(lobe)@.scores(tok),
        interject matches Some(max) ==> hint_fits(max as nat),
        old(stats).count < u64::MAX,
        forall|s: Source, q: &str| #[trigger] retrieve.requires((s, q)),
    ensures
        match r {
            Ok(fired) => exists|mid: LobeView, step: Step, events: Seq<EventView>|
                #![trigger observed(old(lobe).engine, num, old(lobe)@, tok, *old(stats), *final(stats), z, topk as nat, mid, step), followed(old(lobe).engine, num, *retrieve, mid, step.trigger, interject, rag, final(lobe)@, events)]
                {
                    &&& observed(
                        old(lobe).engine,
                        num,
                        old(lobe)@,
                        tok,
                        *old(stats),
                        *final(stats),
                        z,
                        topk as nat,
                        mid,
                        step,
                    )
                    &&& followed(
                        old(lobe).engine,
                        num,
                        *retrieve,
                        mid,
                        step.trigger,
                        interject,
                        rag,
                        final(lobe)@,
                        events,
                    )
                    &&& fired == step.fired
                    &&& event_views(final(out)@) == event_views(old(out)@) + observe_events(
                        step,
                        signal,
                        mid.pos,
                        events,
                        all_steps,
                    )
                },
            Err(e) => {
                ||| final(out)@ == old(out)@ && e is Backend && cut_short(
                    old(lobe)@.calls,
                    old(lobe)@.fed_calls(tok),
                    final(lobe)@.calls,
                )
                ||| exists|mid: LobeView, step: Step, events: Seq<EventView>|
                    #![trigger observed(old(lobe).engine, num, old(lobe)@, tok, *old(stats), *final(stats), z, topk as nat, mid, step), not_followed(old(lobe).engine, num, *retrieve, mid, step.trigger, interject, rag, final(lobe)@, events, e)]
                    {
                        &&& observed(
                            old(lobe).engine,
                            num,
                            old(lobe)@,
                            tok,
                            *old(stats),
                            *final(stats),
                            z,
                            topk as nat,
                            mid,
                            step,
                        )
                        &&& not_followed(
                            old(lobe).engine,
                            num,
                            *retrieve,
                            mid,
                            step.trigger,
                            interject,
                            rag,
                            final(lobe)@,
                            events,
                            e,
                        )
                        &&& event_views(final(out)@) == event_views(old(out)@) + (trigger_events(
                            step.trigger,
                            signal,
                            mid.pos,
                            true,
                        ) + events)
                    }
            },
        },
        final(lobe)@.wf(),
        final(lobe).window.wf(),
        r is Ok ==> final(lobe)@.anchored(),
        final(lobe).engine == old(lobe).engine,
        final(lobe).debug == old(lobe).debug,
{
    let ghost before = event_views(out@);
    let ghost engine = lobe.engine;
    let ghost v = lobe@;
    let step = match lobe.observe(tok, stats, z, topk, num) {
        Ok(step) => step,
        Err(e) => {
            return Err(e);
        },
    };
    let ghost mid = lobe@;
    let ghost whole = step;
    assert(observed(engine, num, v, tok, *old(stats), *stats, z, topk as nat, mid, whole));
    let pos: i32 = lobe.position();
    match follow(lobe, step.trigger, signal, pos, interject, rag, retrieve, num, out) {
        Ok(()) => {},
        Err(e) => {
            return Err(e);
        },
    }
    let ghost so_far = event_views(out@);
    let ghost events = choose|events: Seq<EventView>|
        #[trigger] followed(
            engine,
            num,
            *retrieve,
            mid,
            whole.trigger,
            interject,
            rag,
            lobe@,
            events,
        ) && so_far == before + (trigger_events(whole.trigger, signal, mid.pos, true) + events);
    let fired: bool = step.fired;
    if all_steps {
        emit(
            out,
            Event::Step {
                stream_index: step.stream_index,
                token: step.token_text,
                surprisal: step.surprisal,
                entropy: step.entropy,
                z: step.z,
                signal,
                pos,
            },
        );
        assert(event_views(out@) =~= before + observe_events(
            whole,
            signal,
            mid.pos,
            events,
            all_steps,
        ));
    }
    Ok(fired)
}

// ---------------------------------------------------------------------------------------------
// Laws
// ---------------------------------------------------------------------------------------------

/// Is this what a token gives besides its trigger and itself?
pub open spec fn is_reaction(e: EventView) -> bool {
    e is Interjection || e is Retrieval
}

/// Every one of these events is a reaction.
pub open spec fn all_reactions(es: Seq<EventView>) -> bool {
    forall|i: int| 0 <= i < es.len() ==> is_reaction(#[trigger] es[i])
}

proof fn lemma_voiced_reacts<N: Numerics>(
    num: &N,
    v: LobeView,
    index: int,
    token: Seq<char>,
    text: Seq<char>,
    after: LobeView,
    events: Seq<EventView>,
)
    requires
        voiced(num, v, index, token, text, after, events),
    ensures
        all_reactions(events),
{
}

proof fn lemma_answered_reacts<B: Backend, N: Numerics>(
    engine: &B,
    num: &N,
    v: LobeView,
    index: int,
    token: Seq<char>,
    interject: Option<usize>,
    after: LobeView,
    events: Seq<EventView>,
)
    requires
        answered(engine, num, v, index, token, interject, after, events),
    ensures
        all_reactions(events),
{
    if let Some(max) = interject {
        let (m, note) = choose|m: LobeView, note: Seq<char>|
            #[trigger] aside(engine, num, v, max as nat, None, m, note) && voiced(
                num,
                m,
                index,
                token,
                trimmed(note),
                after,
                events,
            );
        lemma_voiced_reacts(num, m, index, token, trimmed(note), after, events);
    }
}

proof fn lemma_searched_reacts<B: Backend, N: Numerics, F: Fn(Source, &str) -> Option<String>>(
    engine: &B,
    num: &N,
    retrieve: F,
    v: LobeView,
    index: int,
    token: Seq<char>,
    rag: bool,
    after: LobeView,
    events: Seq<EventView>,
)
    requires
        searched(engine, num, retrieve, v, index, token, rag, after, events),
    ensures
        all_reactions(events),
{
    if rag {
        let (m, o, thought, first, last) = choose|
            m: LobeView,
            o: RagOutcome,
            thought: LobeView,
            first: Seq<EventView>,
            last: Seq<EventView>,
        |
            #![trigger consulted(engine, retrieve, v, token, RAG_MAX as nat, m, o), voiced(num, m, index, token, trimmed(o.thought@), thought, first), voiced(num, thought, index, token, grounded(o), after, last)]
            consulted(engine, retrieve, v, token, RAG_MAX as nat, m, o) && voiced(
                num,
                m,
                index,
                token,
                trimmed(o.thought@),
                thought,
                first,
            ) && voiced(num, thought, index, token, grounded(o), after, last) && events == first
                + retrieval_events(o, index) + last;
        lemma_voiced_reacts(num, m, index, token, trimmed(o.thought@), thought, first);
        lemma_voiced_reacts(num, thought, index, token, grounded(o), after, last);
    }
}

proof fn lemma_followed_reacts<B: Backend, N: Numerics, F: Fn(Source, &str) -> Option<String>>(
    engine: &B,
    num: &N,
    retrieve: F,
    v: LobeView,
    trigger: Option<Trigger>,
    interject: Option<usize>,
    rag: bool,
    after: LobeView,
    events: Seq<EventView>,
)
    requires
        followed(engine, num, retrieve, v, trigger, interject, rag, after, events),
    ensures
        all_reactions(events),
{
    if let Some(t) = trigger {
        reveal(reacted);
        let index = t.stream_index as int;
        let token = t.token_text@;
        let (mid, spoken, found) = choose|
            mid: LobeView,
            spoken: Seq<EventView>,
            found: Seq<EventView>,
        |
            #![trigger answered(engine, num, v, index, token, interject, mid, spoken), searched(engine, num, retrieve, mid, index, token, rag, after, found)]
            answered(engine, num, v, index, token, interject, mid, spoken) && searched(
                engine,
                num,
                retrieve,
                mid,
                index,
                token,
                rag,
                after,
                found,
            ) && events == spoken + found;
        lemma_answered_reacts(engine, num, v, index, token, interject, mid, spoken);
        lemma_searched_reacts(engine, num, retrieve, mid, index, token, rag, after, found);
    }
}

/// Where all tokens are wanted, a token gives exactly one event of its own, and it is the last; where
/// it fired, it gives exactly one trigger, and that is the first. Whoever reads only those two gets
/// one line for each token and one for each fire.
pub proof fn lemma_a_token_is_written_once<
    B: Backend,
    N: Numerics,
    F: Fn(Source, &str) -> Option<String>,
>(
    engine: &B,
    num: &N,
    retrieve: F,
    v: LobeView,
    step: Step,
    interject: Option<usize>,
    rag: bool,
    after: LobeView,
    events: Seq<EventView>,
    signal: Signal,
    pos: int,
    all_steps: bool,
)
    requires
        followed(engine, num, retrieve, v, step.trigger, interject, rag, after, events),
    ensures
        ({
            let es = observe_events(step, signal, pos, events, all_steps);
            &&& forall|i: int|
                0 <= i < es.len() ==> ((#[trigger] es[i]) is Step <==> all_steps && i == es.len() - 1)
            &&& forall|i: int|
                0 <= i < es.len() ==> ((#[trigger] es[i]) is Trigger <==> step.trigger is Some && i
                    == 0)
            &&& all_steps ==> es.len() > 0
            &&& step.trigger is Some ==> es.len() > 0 && es[0] is Trigger
        }),
{
    lemma_followed_reacts(engine, num, retrieve, v, step.trigger, interject, rag, after, events);
    let es = observe_events(step, signal, pos, events, all_steps);
    let t = trigger_events(step.trigger, signal, pos, true);
    assert forall|i: int| 0 <= i < es.len() implies ((#[trigger] es[i]) is Step <==> all_steps && i
        == es.len() - 1) && (es[i] is Trigger <==> step.trigger is Some && i == 0) by {
        if t.len() <= i < t.len() + events.len() {
            assert(es[i] == events[i - t.len()]);
            assert(is_reaction(events[i - t.len()]));
        }
    }
}

/// On the fused path too: where all tokens are wanted, a token gives exactly one event of its own, and
/// it is the last; where it fired, it gives exactly one trigger, and that is the first.
pub proof fn lemma_a_fused_token_is_written_once(
    step: Step,
    status: Progress,
    signal: Signal,
    pos: int,
    all_steps: bool,
)
    ensures
        ({
            let es = fused_events(step, status, signal, pos, all_steps);
            &&& forall|i: int|
                0 <= i < es.len() ==> ((#[trigger] es[i]) is Step <==> all_steps && i == es.len() - 1)
            &&& forall|i: int|
                0 <= i < es.len() ==> ((#[trigger] es[i]) is Trigger <==> step.trigger is Some && i
                    == 0)
            &&& all_steps ==> es.len() > 0 && es.last() == step_event(step, signal, pos)
            &&& step.trigger is Some ==> es.len() > 0 && es[0] is Trigger
        }),
{
}

/// With asides off none is started, moved on or written out: the generation in flight stays as it was,
/// the scratch sequence is not called on, and no event is an aside.
pub proof fn lemma_no_asides_where_they_are_off<
    B: Backend,
    N: Numerics,
    R: Fn(&str) -> Option<String>,
>(
    engine: &B,
    num: &N,
    retrieve: R,
    v: LobeView,
    tok: Token,
    stats: Welford,
    stats_after: Welford,
    z: F32,
    topk: nat,
    after: LobeView,
    step: Step,
    status: Progress,
    signal: Signal,
    all_steps: bool,
)
    requires
        taken_on(
            engine,
            num,
            retrieve,
            v,
            tok,
            stats,
            stats_after,
            z,
            topk,
            None,
            after,
            step,
            status,
        ),
    ensures
        fused_after(after, status) == after,
        after.gen == v.gen,
        after.calls == v.calls + v.fed_calls(tok),
        forall|i: int|
            0 <= i < fused_events(step, status, signal, after.pos, all_steps).len() ==> !((
            #[trigger] fused_events(step, status, signal, after.pos, all_steps)[i]) is Interjection),
{
}

// ---------------------------------------------------------------------------------------------
// Throughput
// ---------------------------------------------------------------------------------------------

/// How many tokens have gone through, in all and since the last report.
#[derive(Copy, Clone, Debug, PartialEq, Eq, Structural)]
pub struct Meter {
    pub tok_count: u64,
    pub window_count: u64,
}

impl Default for Meter {
    fn default() -> (m: Self)
        ensures
            m == (Meter { tok_count: 0, window_count: 0 }),
    {
        Meter { tok_count: 0, window_count: 0 }
    }
}

/// How many tokens lie between two reports.
pub open spec fn report_every(fused: bool) -> u64 {
    if fused {
        FUSED_STATS_EVERY
    } else {
        STATS_EVERY
    }
}

impl Meter {
    /// No window is longer than the stream.
    pub open spec fn wf(self) -> bool {
        self.window_count <= self.tok_count
    }

    /// Count one token. Where a report is due, hands back how many tokens it covers, and the next
    /// window starts.
    pub fn tick(&mut self, fused: bool, reporting: bool) -> (r: Option<u64>)
        requires
            old(self).wf(),
            old(self).tok_count < u64::MAX,
        ensures
            final(self).tok_count == old(self).tok_count + 1,
            r is Some <==> reporting && old(self).window_count + 1 >= if fused {
                200int
            } else {
                25_000int
            },
            final(self).wf(),
            if reporting && old(self).window_count + 1 >= report_every(fused) {
                &&& r == Some((old(self).window_count + 1) as u64)
                &&& final(self).window_count == 0
            } else {
                &&& r is None
                &&& final(self).window_count == old(self).window_count + 1
            },
    {
        self.tok_count = self.tok_count + 1;
        self.window_count = self.window_count + 1;
        let every: u64 = if fused {
            FUSED_STATS_EVERY
        } else {
            STATS_EVERY
        };
        if reporting && self.window_count >= every {
            let n: u64 = self.window_count;
            self.window_count = 0;
            Some(n)
        } else {
            None
        }
    }
}

/// The event of a token repeats its step.
pub open spec fn tells_the_step(e: EventView, step: Step, signal: Signal, pos: int) -> bool {
    e matches EventView::Step { stream_index, token, surprisal, entropy, z, signal: s, pos: p }
        && stream_index == step.stream_index && token == step.token_text@ && surprisal == step.surprisal
        && entropy == step.entropy && z == step.z && s == signal && p == pos
}

/// On the fused path a token writes, in this order: its trigger, without what was expected, where it
/// fired; the aside that it finished, trimmed and under its own index, where there is anything in it; and
/// itself where all tokens are wanted. Nothing else.
pub proof fn lemma_what_a_fused_token_writes(
    step: Step,
    status: Progress,
    signal: Signal,
    pos: int,
    all_steps: bool,
)
    ensures
        ({
            let es = fused_events(step, status, signal, pos, all_steps);
            let fires = if step.trigger is Some {
                1int
            } else {
                0
            };
            let says = if status is Done && trimmed(status->Done_0).len() > 0 {
                1int
            } else {
                0
            };
            &&& es.len() == fires + says + if all_steps {
                1int
            } else {
                0
            }
            &&& step.trigger matches Some(t) ==> es[0] == (EventView::Trigger {
                trigger: t,
                signal,
                pos,
                with_expected: false,
            })
            &&& says == 1 ==> es[fires] == (EventView::Interjection {
                stream_index: step.stream_index as int,
                trigger_token: None,
                text: trimmed(status->Done_0),
                fused: true,
            })
            &&& all_steps ==> tells_the_step(es.last(), step, signal, pos)
        }),
{
}

/// An aside alongside the stream that turns out to be a repeat is dropped, together with its sequence; a
/// finished one is remembered; else the observer is as it was.
pub proof fn lemma_what_becomes_of_a_fused_aside(v: LobeView, status: Progress)
    ensures
        status is Working && v.memory.dooms(status->Working_0) ==> {
            let after = fused_after(v, status);
            &&& after.gen.fused is None
            &&& after.gen.fsm is None
            &&& after.memory == v.memory
            &&& after.calls == v.calls.push(KvCall::Clear { seq: 1, ok: true })
            &&& after.pos == v.pos
        },
        status is Working && !v.memory.dooms(status->Working_0) ==> fused_after(v, status) == v,
        status is Idle || status is Started ==> fused_after(v, status) == v,
        status is Done && trimmed(status->Done_0).len() == 0 ==> fused_after(v, status) == v,
        status is Done && trimmed(status->Done_0).len() > 0 ==> fused_after(v, status) == (LobeView {
            memory: v.memory.recorded(trimmed(status->Done_0)),
            ..v
        }),
{
}

/// On the path that takes one thing after the other a token writes its trigger with what was expected,
/// then what followed, then itself where all tokens are wanted.
pub proof fn lemma_what_an_observed_token_writes(
    step: Step,
    signal: Signal,
    pos: int,
    followed: Seq<EventView>,
    all_steps: bool,
)
    ensures
        ({
            let es = observe_events(step, signal, pos, followed, all_steps);
            let fires = if step.trigger is Some {
                1int
            } else {
                0
            };
            &&& es.len() == fires + followed.len() + if all_steps {
                1int
            } else {
                0
            }
            &&& step.trigger matches Some(t) ==> es[0] == (EventView::Trigger {
                trigger: t,
                signal,
                pos,
                with_expected: true,
            })
            &&& es.subrange(fires, fires + followed.len()) == followed
            &&& all_steps ==> tells_the_step(es.last(), step, signal, pos)
        }),
{
    let es = observe_events(step, signal, pos, followed, all_steps);
    let fires = if step.trigger is Some {
        1int
    } else {
        0
    };
    assert(es.subrange(fires, fires + followed.len()) =~= followed);
}

/// An aside is remembered whether or not it is novel, and written out exactly where it is, with the index
/// and the token that it is about; an empty one is neither remembered nor written.
pub proof fn lemma_what_is_said_aloud<N: Numerics>(
    num: &N,
    v: LobeView,
    index: int,
    token: Seq<char>,
    text: Seq<char>,
    after: LobeView,
    events: Seq<EventView>,
)
    requires
        voiced(num, v, index, token, text, after, events),
    ensures
        text.len() == 0 ==> after == v && events.len() == 0,
        text.len() > 0 ==> {
            &&& after == (LobeView { memory: v.memory.recorded(text), ..v })
            &&& events.len() <= 1
            &&& v.memory.judged(num, text, events.len() == 1)
            &&& events.len() == 1 ==> events[0] == (EventView::Interjection {
                stream_index: index,
                trigger_token: Some(token),
                text,
                fused: false,
            })
            &&& v.memory.asides.len() == 0 ==> events.len() == 1
        },
{
    if text.len() > 0 {
        let novel = choose|novel: bool|
            {
                &&& #[trigger] v.memory.judged(num, text, novel)
                &&& after == remembering(v, Some(text))
                &&& events == if novel {
                    seq![
                        EventView::Interjection {
                            stream_index: index,
                            trigger_token: Some(token),
                            text,
                            fused: false,
                        },
                    ]
                } else {
                    Seq::empty()
                }
            };
        assert(events.len() == 1 <==> novel);
    }
}

/// What follows a fire: where asides are on, a whole aside of the length asked for, trimmed and said
/// aloud; then, where searching is on, a search pass of at most 160 tokens for the token that fired, of
/// which the thought is said aloud, the search is written with what it found, and the response is said
/// aloud where a search was asked for.
pub proof fn lemma_what_follows_a_fire<
    B: Backend,
    N: Numerics,
    F: Fn(Source, &str) -> Option<String>,
>(
    engine: &B,
    num: &N,
    retrieve: F,
    v: LobeView,
    trigger: Option<Trigger>,
    interject: Option<usize>,
    rag: bool,
    after: LobeView,
    events: Seq<EventView>,
) -> (parts: (LobeView, Seq<EventView>, LobeView, RagOutcome, LobeView, Seq<EventView>, Seq<EventView>))
    requires
        followed(engine, num, retrieve, v, trigger, interject, rag, after, events),
    ensures
        trigger is None ==> after == v && events.len() == 0,
        trigger matches Some(t) ==> {
            let (mid, spoken, heard, o, thought, first, last) = parts;
            let index = t.stream_index as int;
            let token = t.token_text@;
            &&& interject is None ==> mid == v && spoken.len() == 0
            &&& interject matches Some(max) ==> exists|told: LobeView, note: Seq<char>|
                #[trigger] aside(engine, num, v, max as nat, None, told, note) && voiced(
                    num,
                    told,
                    index,
                    token,
                    trimmed(note),
                    mid,
                    spoken,
                )
            &&& !rag ==> after == mid && events == spoken
            &&& rag ==> {
                &&& consulted(engine, retrieve, mid, token, 160, heard, o)
                &&& voiced(num, heard, index, token, trimmed(o.thought@), thought, first)
                &&& voiced(
                    num,
                    thought,
                    index,
                    token,
                    if o.response is Some && o.directive is Some {
                        o.response->Some_0@
                    } else {
                        Seq::empty()
                    },
                    after,
                    last,
                )
                &&& o.directive is None ==> events == spoken + first + last
                &&& o.directive matches Some(d) ==> events == spoken + first + seq![
                    EventView::Retrieval {
                        stream_index: index,
                        source: d.source,
                        query: d.query@,
                        snippet: match o.retrieved {
                            Some(s) => Some(s@),
                            None => None,
                        },
                    },
                ] + last
            }
        },
{
    reveal(reacted);
    match trigger {
        None => arbitrary(),
        Some(t) => {
            let index = t.stream_index as int;
            let token = t.token_text@;
            let (mid, spoken, found) = choose|
                mid: LobeView,
                spoken: Seq<EventView>,
                found: Seq<EventView>,
            |
                #![trigger answered(engine, num, v, index, token, interject, mid, spoken), searched(engine, num, retrieve, mid, index, token, rag, after, found)]
                {
                    &&& answered(engine, num, v, index, token, interject, mid, spoken)
                    &&& searched(engine, num, retrieve, mid, index, token, rag, after, found)
                    &&& events == spoken + found
                };
            if rag {
                assert(looked_up(engine, num, retrieve, mid, index, token, after, found));
                let (heard, o, thought, first, last) = choose|
                    m: LobeView,
                    o: RagOutcome,
                    thought: LobeView,
                    first: Seq<EventView>,
                    last: Seq<EventView>,
                |
                    #![trigger consulted(engine, retrieve, mid, token, RAG_MAX as nat, m, o), voiced(num, m, index, token, trimmed(o.thought@), thought, first), voiced(num, thought, index, token, grounded(o), after, last)]
                    {
                        &&& consulted(engine, retrieve, mid, token, RAG_MAX as nat, m, o)
                        &&& voiced(num, m, index, token, trimmed(o.thought@), thought, first)
                        &&& voiced(num, thought, index, token, grounded(o), after, last)
                        &&& found == first + retrieval_events(o, index) + last
                    };
                assert(grounded(o) =~= if o.response is Some && o.directive is Some {
                    o.response->Some_0@
                } else {
                    Seq::empty()
                });
                match o.directive {
                    None => {
                        assert(events =~= spoken + first + last);
                    },
                    Some(d) => {
                        assert(events =~= spoken + first + retrieval_events(o, index) + last);
                    },
                }
                (mid, spoken, heard, o, thought, first, last)
            } else {
                assert(events =~= spoken);
                (mid, spoken, mid, arbitrary(), mid, Seq::empty(), Seq::empty())
            }
        },
    }
}

/// Counting a token: a report is due every 200 tokens on the fused path and every 25000 on the other, where
/// reports are wanted; it covers the tokens since the one before, and the next starts from nothing.
pub proof fn lemma_when_a_report_is_due(m: &mut Meter, fused: bool, reporting: bool, r: Option<u64>)
    requires
        old(m).tok_count < u64::MAX,
        old(m).window_count <= old(m).tok_count,
        call_ensures(Meter::tick, (m, fused, reporting), r),
    ensures
        final(m).tok_count == old(m).tok_count + 1,
        r is Some <==> reporting && (if fused {
            old(m).window_count + 1 >= 200
        } else {
            old(m).window_count + 1 >= 25_000
        }),
        r matches Some(n) ==> n == old(m).window_count + 1 && final(m).window_count == 0,
        r is None ==> final(m).window_count == old(m).window_count + 1,
{
}

/// What is to be seen in the events that a token wrote behind those before: they are left alone; where all
/// tokens are wanted the last is that of this token, with its index and its text, and else there is none
/// of that kind; a trigger is written exactly where it fired, first, with its index and its text.
pub open spec fn writes_of<B: Backend>(
    engine: &B,
    tok: Token,
    index: int,
    before: Seq<EventView>,
    after: Seq<EventView>,
    fired: bool,
    with_expected: bool,
    signal: Signal,
    all_steps: bool,
) -> bool {
    let n = before.len() as int;
    &&& n <= after.len()
    &&& after.take(n) == before
    &&& all_steps ==> n < after.len() && (after.last() matches EventView::Step {
        stream_index,
        token,
        signal: s,
        ..
    } && stream_index == index && token == engine.text_of(tok, Detok::Text) && s == signal)
    &&& forall|i: int|
        n <= i < after.len() ==> ((#[trigger] after[i]) is Step <==> all_steps && i == after.len() - 1)
    &&& forall|i: int|
        n <= i < after.len() ==> ((#[trigger] after[i]) is Trigger <==> fired && i == n)
    &&& fired ==> n < after.len() && (after[n] matches EventView::Trigger {
        trigger,
        signal: s,
        with_expected: e,
        ..
    } && trigger.stream_index == index && trigger.token_text@ == engine.text_of(tok, Detok::Text) && s
        == signal && e == with_expected)
}

/// What a token writes on the fused path. It fires only once the baseline has warmed up, and with asides
/// off none is written.
pub proof fn lemma_what_the_fused_path_writes<
    'a,
    B: Backend,
    N: Numerics,
    R: Fn(&str) -> Option<String>,
>(
    lobe: &mut Lobe<'a, B>,
    tok: Token,
    stats: &mut Welford,
    z: F32,
    topk: usize,
    interject: Option<usize>,
    signal: Signal,
    all_steps: bool,
    retrieve: &R,
    num: &N,
    out: &mut Vec<Event>,
    r: Result<(), LobeError>,
)
    requires
        old(stats).count < u64::MAX,
        call_ensures(
            process_fused_token::<B, N, R>,
            (
                lobe,
                tok,
                stats,
                z,
                topk,
                interject,
                signal,
                all_steps,
                retrieve,
                num,
                out,
            ),
            r,
        ),
        r is Ok,
    ensures
        exists|fired: bool|
            {
                &&& #[trigger] writes_of(
                    old(lobe).engine,
                    tok,
                    old(lobe)@.index,
                    event_views(old(out)@),
                    event_views(final(out)@),
                    fired,
                    false,
                    signal,
                    all_steps,
                )
                &&& fired ==> final(stats).count > final(stats).warmup
            },
        interject is None ==> forall|i: int|
            old(out)@.len() <= i < final(out)@.len() ==> !((#[trigger] event_views(
                final(out)@,
            )[i]) is Interjection),
{
    let engine = old(lobe).engine;
    let v = old(lobe)@;
    let before = event_views(old(out)@);
    let after = event_views(final(out)@);
    let (mid, step, status) = choose|mid: LobeView, step: Step, status: Progress|
        {
            &&& #[trigger] taken_on(
                engine,
                num,
                *retrieve,
                v,
                tok,
                *old(stats),
                *final(stats),
                z,
                topk as nat,
                interject,
                mid,
                step,
                status,
            )
            &&& after == before + fused_events(step, status, signal, mid.pos, all_steps)
            &&& final(lobe)@ == fused_after(mid, status)
        };
    lemma_taken_on_is_told(
        engine,
        num,
        *retrieve,
        v,
        tok,
        *old(stats),
        *final(stats),
        z,
        topk as nat,
        interject,
        mid,
        step,
        status,
    );
    let es = fused_events(step, status, signal, mid.pos, all_steps);
    lemma_a_fused_token_is_written_once(step, status, signal, mid.pos, all_steps);
    lemma_what_a_fused_token_writes(step, status, signal, mid.pos, all_steps);
    lemma_written_behind(before, es, after);
    assert(writes_of(
        engine,
        tok,
        v.index,
        before,
        after,
        step.fired,
        false,
        signal,
        all_steps,
    ));
    if interject is None {
        lemma_no_asides_where_they_are_off(
            engine,
            num,
            *retrieve,
            v,
            tok,
            *old(stats),
            *final(stats),
            z,
            topk as nat,
            mid,
            step,
            status,
            signal,
            all_steps,
        );
        assert forall|i: int| old(out)@.len() <= i < final(out)@.len() implies !((
        #[trigger] event_views(final(out)@)[i]) is Interjection) by {
            assert(after[i] == es[i - before.len()]);
        }
    }
}

proof fn lemma_written_behind(before: Seq<EventView>, es: Seq<EventView>, after: Seq<EventView>)
    requires
        after == before + es,
    ensures
        after.take(before.len() as int) == before,
        es.len() > 0 ==> after.last() == es.last() && after[before.len() as int] == es[0],
        forall|i: int|
            before.len() <= i < after.len() ==> #[trigger] after[i] == es[i - before.len()],
{
    assert(after.take(before.len() as int) =~= before);
}

proof fn lemma_taken_on_is_told<B: Backend, N: Numerics, R: Fn(&str) -> Option<String>>(
    engine: &B,
    num: &N,
    retrieve: R,
    v: LobeView,
    tok: Token,
    stats: Welford,
    stats_after: Welford,
    z: F32,
    topk: nat,
    interject: Option<usize>,
    after: LobeView,
    step: Step,
    status: Progress,
)
    requires
        stats.count < u64::MAX,
        taken_on(
            engine,
            num,
            retrieve,
            v,
            tok,
            stats,
            stats_after,
            z,
            topk,
            interject,
            after,
            step,
            status,
        ),
    ensures
        told_in_brief(engine, v, tok, step),
        step.fired ==> stats_after.count > stats_after.warmup,
{
    match interject {
        None => {
            if v.logits.len() > 0 {
                lemma_nothing_fires_before_the_warm_up_is_over(
                    engine,
                    num,
                    retrieve,
                    v,
                    tok,
                    stats,
                    stats_after,
                    z,
                    topk,
                    0,
                    after,
                    step,
                    arbitrary(),
                );
            }
        },
        Some(max) => {
            let out = choose|out: StepOutcome|
                #[trigger] advanced(
                    engine,
                    num,
                    retrieve,
                    v,
                    tok,
                    stats,
                    stats_after,
                    z,
                    topk,
                    max,
                    after,
                    out,
                ) && out.step == step && out.interjection@ == status;
            if v.logits.len() > 0 {
                lemma_nothing_fires_before_the_warm_up_is_over(
                    engine,
                    num,
                    retrieve,
                    v,
                    tok,
                    stats,
                    stats_after,
                    z,
                    topk,
                    max,
                    after,
                    arbitrary(),
                    out,
                );
            }
        },
    }
}

/// A step names its token and its place in the stream, and reports a trigger with the same exactly where
/// it fired.
pub open spec fn told_in_brief<B: Backend>(engine: &B, v: LobeView, tok: Token, step: Step) -> bool {
    &&& step.stream_index == v.index
    &&& step.token_text@ == engine.text_of(tok, Detok::Text)
    &&& step.fired <==> step.trigger is Some
    &&& step.trigger matches Some(t) ==> t.stream_index == v.index && t.token_text@ == engine.text_of(
        tok,
        Detok::Text,
    )
}

/// What a token writes on the path that takes one thing after the other, and that it says whether it fired.
pub proof fn lemma_what_the_observing_path_writes<
    'a,
    B: Backend,
    N: Numerics,
    F: Fn(Source, &str) -> Option<String>,
>(
    lobe: &mut Lobe<'a, B>,
    tok: Token,
    stats: &mut Welford,
    z: F32,
    topk: usize,
    signal: Signal,
    interject: Option<usize>,
    rag: bool,
    all_steps: bool,
    retrieve: &F,
    num: &N,
    out: &mut Vec<Event>,
    r: Result<bool, LobeError>,
)
    requires
        old(stats).count < u64::MAX,
        call_ensures(
            process_observe_token::<B, N, F>,
            (
                lobe,
                tok,
                stats,
                z,
                topk,
                signal,
                interject,
                rag,
                all_steps,
                retrieve,
                num,
                out,
            ),
            r,
        ),
        r is Ok,
    ensures
        writes_of(
            old(lobe).engine,
            tok,
            old(lobe)@.index,
            event_views(old(out)@),
            event_views(final(out)@),
            r->Ok_0,
            true,
            signal,
            all_steps,
        ),
        r->Ok_0 ==> final(stats).count > final(stats).warmup,
        !r->Ok_0 ==> final(out)@.len() == old(out)@.len() + if all_steps {
            1int
        } else {
            0
        },
{
    let engine = old(lobe).engine;
    let v = old(lobe)@;
    let before = event_views(old(out)@);
    let after = event_views(final(out)@);
    let (mid, step, events) = choose|mid: LobeView, step: Step, events: Seq<EventView>|
        #![trigger observed(engine, num, v, tok, *old(stats), *final(stats), z, topk as nat, mid, step), followed(engine, num, *retrieve, mid, step.trigger, interject, rag, final(lobe)@, events)]
        {
            &&& observed(
                engine,
                num,
                v,
                tok,
                *old(stats),
                *final(stats),
                z,
                topk as nat,
                mid,
                step,
            )
            &&& followed(
                engine,
                num,
                *retrieve,
                mid,
                step.trigger,
                interject,
                rag,
                final(lobe)@,
                events,
            )
            &&& r->Ok_0 == step.fired
            &&& after == before + observe_events(step, signal, mid.pos, events, all_steps)
        };
    lemma_observed_is_told(
        engine,
        num,
        v,
        tok,
        *old(stats),
        *final(stats),
        z,
        topk as nat,
        mid,
        step,
    );
    let es = observe_events(step, signal, mid.pos, events, all_steps);
    lemma_a_token_is_written_once(
        engine,
        num,
        *retrieve,
        mid,
        step,
        interject,
        rag,
        final(lobe)@,
        events,
        signal,
        mid.pos,
        all_steps,
    );
    lemma_what_an_observed_token_writes(step, signal, mid.pos, events, all_steps);
    lemma_written_behind(before, es, after);
}

proof fn lemma_observed_is_told<B: Backend, N: Numerics>(
    engine: &B,
    num: &N,
    v: LobeView,
    tok: Token,
    stats: Welford,
    stats_after: Welford,
    z: F32,
    topk: nat,
    after: LobeView,
    step: Step,
)
    requires
        stats.count < u64::MAX,
        observed(engine, num, v, tok, stats, stats_after, z, topk, after, step),
    ensures
        told_in_brief(engine, v, tok, step),
        step.fired ==> stats_after.count > stats_after.warmup,
{
}

} // verus!
