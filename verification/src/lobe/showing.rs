//! Showing an aside while it grows. Until it is known whether it repeats an earlier one a frontend
//! shows only that something is coming; then it is either abandoned unseen or shown from there on.

use super::interject::{InterjectStatus, Progress};
use super::model::LobeView;
use super::novelty::MemoryView;
use super::types::LobeError;
use super::{Lobe, GEN_SEQ};
use crate::backend::{Backend, KvCall};
use crate::text::{trim, trimmed};
use vstd::prelude::*;

verus! {

/// What a frontend shows of the aside in flight: nothing, that one is coming (the empty text), or its
/// text so far; and whether it has been found fit to show.
pub struct Shown {
    pub pending: Option<Seq<char>>,
    pub revealed: bool,
}

/// The text of an optional string.
pub open spec fn shown_text(s: Option<String>) -> Option<Seq<char>> {
    match s {
        Some(t) => Some(t@),
        None => None,
    }
}

/// Is the aside abandoned on this tick?
pub open spec fn abandons(m: MemoryView, status: Progress, was: Shown) -> bool {
    status matches Progress::Working(p) && !was.revealed && m.dooms(p)
}

/// What is shown after a tick.
pub open spec fn shown_next(m: MemoryView, status: Progress, was: Shown) -> Shown {
    match status {
        Progress::Idle => was,
        Progress::Started => Shown { pending: Some(Seq::empty()), revealed: false },
        Progress::Working(p) => if was.revealed {
            Shown { pending: Some(p), revealed: true }
        } else if m.dooms(p) {
            Shown { pending: None, revealed: false }
        } else if m.decides(p) {
            Shown { pending: Some(p), revealed: true }
        } else {
            Shown { pending: Some(Seq::empty()), revealed: false }
        },
        Progress::Done(_) => Shown { pending: None, revealed: false },
    }
}

/// The aside that a tick settles: a finished one that is not blank, and that was shown or is no
/// repeat.
pub open spec fn settles(m: MemoryView, status: Progress, was: Shown) -> Option<Seq<char>> {
    match status {
        Progress::Done(text) => if trimmed(text).len() > 0 && (was.revealed || !m.dooms(
            trimmed(text),
        )) {
            Some(trimmed(text))
        } else {
            None
        },
        _ => None,
    }
}

/// The observer after a settled aside, if there is one, has been remembered.
pub open spec fn remembering(v: LobeView, settled: Option<Seq<char>>) -> LobeView {
    match settled {
        Some(text) => LobeView { memory: v.memory.recorded(text), ..v },
        None => v,
    }
}

/// What a status says; no status is an idle one.
pub open spec fn progress(status: Option<InterjectStatus>) -> Progress {
    match status {
        Some(s) => s@,
        None => Progress::Idle,
    }
}

impl<'a, B: Backend> Lobe<'a, B> {
    /// Move what is shown on by one tick. An aside that turns out to be a repeat is abandoned before
    /// any of it has been shown; a finished one is remembered and handed back.
    pub fn advance_reveal(
        &mut self,
        status: Option<InterjectStatus>,
        pending: &mut Option<String>,
        revealed: &mut bool,
    ) -> (r: Result<Option<String>, LobeError>)
        requires
            old(self)@.wf(),
        ensures
            ({
                let was = Shown { pending: shown_text(*old(pending)), revealed: *old(revealed) };
                let m = old(self)@.memory;
                match r {
                    Ok(settled) => {
                        &&& shown_text(settled) == settles(m, progress(status), was)
                        &&& Shown { pending: shown_text(*final(pending)), revealed: *final(revealed) }
                            == shown_next(m, progress(status), was)
                        &&& final(self)@ == if abandons(m, progress(status), was) {
                            old(self)@.scratched().with_fsm(None).with_fused(None)
                        } else {
                            remembering(old(self)@, shown_text(settled))
                        }
                    },
                    Err(e) => {
                        &&& e is Backend
                        &&& abandons(m, progress(status), was)
                        &&& final(self)@ == (LobeView {
                            calls: old(self)@.calls.push(KvCall::Clear { seq: GEN_SEQ, ok: false }),
                            answers: old(self)@.answers.push(Seq::empty()),
                            ..old(self)@
                        })
                        &&& *final(pending) == *old(pending)
                        &&& *final(revealed) == *old(revealed)
                    },
                }
            }),
            final(self)@.wf(),
            final(self).engine == old(self).engine,
            final(self).debug == old(self).debug,
            final(self).window == old(self).window,
    {
        match status {
            Some(InterjectStatus::Started) => {
                let blank = String::new();
                assert(blank@ =~= Seq::empty());
                *pending = Some(blank);
                *revealed = false;
                Ok(None)
            },
            Some(InterjectStatus::Working(partial)) => {
                if *revealed {
                    *pending = Some(partial);
                } else if self.interjection_doomed(partial.as_str()) {
                    match self.abort_interjection() {
                        Ok(()) => {},
                        Err(e) => {
                            return Err(e);
                        },
                    }
                    *pending = None;
                } else if self.interjection_decidable(partial.as_str()) {
                    *revealed = true;
                    *pending = Some(partial);
                } else {
                    let blank = String::new();
                    assert(blank@ =~= Seq::empty());
                    *pending = Some(blank);
                }
                Ok(None)
            },
            Some(InterjectStatus::Done(text)) => {
                let text = trim(text.as_str());
                let mut settled: Option<String> = None;
                if !text.is_empty() && (*revealed || !self.interjection_doomed(text)) {
                    self.record_interjection(text);
                    settled = Some(text.to_owned());
                }
                *pending = None;
                *revealed = false;
                Ok(settled)
            },
            Some(InterjectStatus::Idle) => Ok(None),
            None => Ok(None),
        }
    }
}

// ---------------------------------------------------------------------------------------------
// Laws
// ---------------------------------------------------------------------------------------------

/// Nothing is shown that is then taken back as a repeat: while an aside has not been revealed nothing
/// of its text is shown, it is revealed only where it is decidable and no repeat, and once revealed it
/// is shown to the end and settled.
pub proof fn lemma_nothing_shown_is_taken_back(m: MemoryView, status: Progress, was: Shown)
    requires
        !was.revealed ==> was.pending is None || was.pending == Some(Seq::<char>::empty()),
    ensures
        ({
            let now = shown_next(m, status, was);
            &&& !now.revealed ==> now.pending is None || now.pending == Some(Seq::<char>::empty())
            &&& now.revealed && !was.revealed ==> {
                &&& status matches Progress::Working(p)
                &&& m.decides(p)
                &&& !m.dooms(p)
            }
            &&& was.revealed ==> !abandons(m, status, was)
            &&& was.revealed && (status matches Progress::Done(text) && trimmed(text).len() > 0)
                ==> settles(m, status, was) is Some
        }),
{
}

/// With the filter off everything is shown as it comes and nothing is ever abandoned.
pub proof fn lemma_unfiltered_shows_everything(m: MemoryView, p: Seq<char>, was: Shown)
    requires
        m.unfiltered(),
    ensures
        shown_next(m, Progress::Working(p), was) == (Shown { pending: Some(p), revealed: true }),
        !abandons(m, Progress::Working(p), was),
        trimmed(p).len() > 0 ==> settles(m, Progress::Done(p), was) == Some(trimmed(p)),
{
}

/// What a tick shows and what it settles. A start shows that an aside is coming. One that has been found
/// fit is shown as far as it has come. One that has not is dropped as soon as it is known to be a repeat,
/// shown as soon as it is known to be none, and else nothing of its text is shown. At the end nothing is
/// left to show; the text is settled, trimmed, unless it is blank or is a repeat of which nothing was
/// shown. Without a tick all stays as it is.
pub proof fn lemma_what_a_tick_shows(m: MemoryView, was: Shown, p: Seq<char>)
    ensures
        shown_next(m, Progress::Idle, was) == was,
        settles(m, Progress::Idle, was) is None,
        shown_next(m, Progress::Started, was).pending == Some(Seq::<char>::empty()),
        !shown_next(m, Progress::Started, was).revealed,
        was.revealed ==> {
            let now = shown_next(m, Progress::Working(p), was);
            now.pending == Some(p) && now.revealed
        },
        !was.revealed ==> {
            let now = shown_next(m, Progress::Working(p), was);
            &&& m.dooms(p) ==> now.pending is None && !now.revealed && abandons(
                m,
                Progress::Working(p),
                was,
            )
            &&& !m.dooms(p) && m.decides(p) ==> now.pending == Some(p) && now.revealed
            &&& !m.decides(p) ==> now.pending == Some(Seq::<char>::empty()) && !now.revealed
        },
        !m.dooms(p) ==> !abandons(m, Progress::Working(p), was),
        settles(m, Progress::Working(p), was) is None,
        shown_next(m, Progress::Done(p), was).pending is None,
        !shown_next(m, Progress::Done(p), was).revealed,
        settles(m, Progress::Done(p), was) is Some <==> trimmed(p).len() > 0 && (was.revealed
            || !m.dooms(trimmed(p))),
        settles(m, Progress::Done(p), was) matches Some(t) ==> t == trimmed(p),
{
}

/// What is settled is remembered for the asides to come, and nothing else of the observer changes.
pub proof fn lemma_what_is_settled_is_remembered(v: LobeView, text: Seq<char>)
    requires
        trimmed(text) == text,
        text.len() > 0,
        v.memory.bounded(),
    ensures
        remembering(v, None) == v,
        remembering(v, Some(text)).memory.asides.last() == text,
        remembering(v, Some(text)) == (LobeView {
            memory: remembering(v, Some(text)).memory,
            ..v
        }),
        remembering(v, Some(text)).memory.since == v.memory.since,
        remembering(v, Some(text)).memory.span == v.memory.span,
{
}

/// Moving on what is shown, as a call. Without a tick nothing changes. A start shows that an aside is
/// coming. The text so far is shown once the aside has been found fit, which it is as soon as it can be
/// told that it is no repeat; a repeat is dropped unseen, with its sequence. At the end nothing is left to
/// show, and the text, trimmed, is handed back and remembered unless it is blank or an unseen repeat.
pub proof fn lemma_what_moving_on_does<'a, B: Backend>(
    lobe: &mut Lobe<'a, B>,
    status: Option<InterjectStatus>,
    pending: &mut Option<String>,
    revealed: &mut bool,
    r: Result<Option<String>, LobeError>,
)
    requires
        call_ensures(Lobe::<'a, B>::advance_reveal, (lobe, status, pending, revealed), r),
        r is Ok,
    ensures
        ({
            let m = old(lobe)@.memory;
            let settled = r->Ok_0;
            &&& status is None || (status matches Some(InterjectStatus::Idle)) ==> {
                &&& shown_text(*final(pending)) == shown_text(*old(pending))
                &&& *final(revealed) == *old(revealed)
                &&& settled is None
                &&& final(lobe)@ == old(lobe)@
            }
            &&& status matches Some(InterjectStatus::Started) ==> {
                &&& shown_text(*final(pending)) == Some(Seq::<char>::empty())
                &&& !*final(revealed)
                &&& settled is None
                &&& final(lobe)@ == old(lobe)@
            }
            &&& status matches Some(InterjectStatus::Working(p)) ==> {
                &&& settled is None
                &&& *final(revealed) == (*old(revealed) || (m.decides(p@) && !m.dooms(p@)))
                &&& *final(revealed) ==> shown_text(*final(pending)) == Some(p@)
                &&& !*old(revealed) && m.dooms(p@) ==> {
                    &&& *final(pending) is None
                    &&& final(lobe)@.gen.fused is None && final(lobe)@.gen.fsm is None
                    &&& final(lobe)@.calls == old(lobe)@.calls.push(KvCall::Clear { seq: 1, ok: true })
                }
                &&& *old(revealed) || !m.dooms(p@) ==> final(lobe)@ == old(lobe)@
                &&& !*final(revealed) && !m.dooms(p@) ==> shown_text(*final(pending)) == Some(
                    Seq::<char>::empty(),
                )
            }
            &&& status matches Some(InterjectStatus::Done(text)) ==> {
                let t = trimmed(text@);
                &&& *final(pending) is None
                &&& !*final(revealed)
                &&& settled is Some <==> t.len() > 0 && (*old(revealed) || !m.dooms(t))
                &&& settled matches Some(s) ==> s@ == t && final(lobe)@ == (LobeView {
                    memory: m.recorded(t),
                    ..old(lobe)@
                })
                &&& settled is None ==> final(lobe)@ == old(lobe)@
            }
        }),
{
}

} // verus!
