//! The calibration instrument: what its panels hold and how they grow, which key does what, and how a
//! token is shaded. Painting is the frontend's.

use crate::backend::{Backend, Detok, KvCall, Token};
use crate::lobe::interject::{InterjectStatus, Progress};
use crate::lobe::model::{cut_short, hint_fits, LobeView};
use crate::lobe::observe::{advanced, step_failed, taken_on};
use crate::lobe::showing::{abandons, progress, settles, shown_next, shown_text, Shown};
use crate::lobe::types::{LobeError, Step, Trigger};
use crate::lobe::window::last_n;
use crate::lobe::{Lobe, GEN_SEQ};
use crate::number::F32;
use crate::numerics::Numerics;
use crate::present_worker::{shown_on, Control, Pace, LOWER_BITS, RAISE_BITS};
use crate::stats::Welford;
use crate::text::{chars_of, texts};
use std::collections::VecDeque;
use vstd::prelude::*;
use vstd::string::*;

verus! {

/// How many bars the chart holds at most.
pub const SPARK_CAP: usize = 120;

/// How many triggers the list holds at most.
pub const TRIGGER_CAP: usize = 64;

/// How many asides the panel holds at most.
pub const INTERJECTION_CAP: usize = 50;

/// How many tokens the transcript holds at most.
pub const SHADED_CAP: usize = 4000;

/// How many of them are dropped once it holds more.
pub const SHADED_DROP: usize = 1000;

/// How many of its latest tokens are drawn at most.
pub const SHADED_TAIL: usize = 1200;

/// 1, 2, 3 and 4, from which on a z-score is shaded hotter.
pub const ONE_BITS: u32 = 0x3f80_0000;

pub const TWO_BITS: u32 = 0x4000_0000;

pub const THREE_BITS: u32 = 0x4040_0000;

pub const FOUR_BITS: u32 = 0x4080_0000;

// ---------------------------------------------------------------------------------------------
// Keys
// ---------------------------------------------------------------------------------------------

/// A key.
#[derive(Copy, Clone, Debug, PartialEq, Eq, Structural)]
pub enum Key {
    Char(char),
    Esc,
    Other,
}

/// What a key does.
#[derive(Copy, Clone, Debug, PartialEq, Eq, Structural)]
pub enum Action {
    Quit,
    TogglePause,
    Raise,
    Lower,
    Nothing,
}

/// What a key does.
pub open spec fn action(key: Key) -> Action {
    if key == Key::Esc || key == Key::Char('q') {
        Action::Quit
    } else if key == Key::Char(' ') {
        Action::TogglePause
    } else if key == Key::Char('+') || key == Key::Char('=') {
        Action::Raise
    } else if key == Key::Char('-') || key == Key::Char('_') {
        Action::Lower
    } else {
        Action::Nothing
    }
}

/// What a key does: `q` and escape quit, the space bar pauses, `+` and `-` (with or without shift)
/// move the threshold.
pub fn action_of(key: Key) -> (a: Action)
    ensures
        a == action(key),
{
    match key {
        Key::Esc => Action::Quit,
        Key::Other => Action::Nothing,
        Key::Char(c) => if c == 'q' {
            Action::Quit
        } else if c == ' ' {
            Action::TogglePause
        } else if c == '+' || c == '=' {
            Action::Raise
        } else if c == '-' || c == '_' {
            Action::Lower
        } else {
            Action::Nothing
        },
    }
}

/// What the display of the showcase asks of the worker for an action, where `paused` says whether it
/// is paused so far.
pub fn control_of(a: Action, paused: bool) -> (c: Option<Control>)
    ensures
        c == match a {
            Action::Quit => Some(Control::Quit),
            Action::TogglePause => Some(Control::Pause(!paused)),
            Action::Raise => Some(Control::AdjustZ(F32(RAISE_BITS))),
            Action::Lower => Some(Control::AdjustZ(F32(LOWER_BITS))),
            Action::Nothing => None,
        },
{
    match a {
        Action::Quit => Some(Control::Quit),
        Action::TogglePause => Some(Control::Pause(!paused)),
        Action::Raise => Some(Control::AdjustZ(F32(RAISE_BITS))),
        Action::Lower => Some(Control::AdjustZ(F32(LOWER_BITS))),
        Action::Nothing => None,
    }
}

/// An action on the instrument itself: `None` where it quits.
pub open spec fn pressed<N: Numerics>(num: &N, p: Pace, a: Action, after: Option<Pace>) -> bool {
    match a {
        Action::Quit => after is None,
        Action::TogglePause => after == Some(Pace { paused: !p.paused, ..p }),
        Action::Raise => exists|z: F32|
            #[trigger] call_ensures(N::raised, (num, p.z), z) && after == Some(Pace { z, ..p }),
        Action::Lower => exists|z: F32|
            #[trigger] call_ensures(N::lowered, (num, p.z), z) && after == Some(Pace { z, ..p }),
        Action::Nothing => after == Some(p),
    }
}

/// Do what a key asks of the instrument. Hands back whether to go on.
pub fn press<N: Numerics>(pace: &mut Pace, a: Action, num: &N) -> (go_on: bool)
    ensures
        pressed(
            num,
            *old(pace),
            a,
            if go_on {
                Some(*final(pace))
            } else {
                None
            },
        ),
        !go_on ==> *final(pace) == *old(pace),
{
    match a {
        Action::Quit => {
            return false;
        },
        Action::TogglePause => {
            pace.paused = !pace.paused;
        },
        Action::Raise => {
            pace.z = num.raised(pace.z);
        },
        Action::Lower => {
            pace.z = num.lowered(pace.z);
        },
        Action::Nothing => {},
    }
    true
}

// ---------------------------------------------------------------------------------------------
// Shading
// ---------------------------------------------------------------------------------------------

/// How a token is shaded, from calm to hot.
#[derive(Copy, Clone, Debug, PartialEq, Eq, Structural)]
pub enum Shade {
    Calm,
    Mild,
    Warm,
    Hot,
    Burning,
}

/// How a z-score is shaded.
pub open spec fn shade(z: F32) -> Shade {
    if F32(FOUR_BITS).at_most(z) {
        Shade::Burning
    } else if F32(THREE_BITS).at_most(z) {
        Shade::Hot
    } else if F32(TWO_BITS).at_most(z) {
        Shade::Warm
    } else if F32(ONE_BITS).at_most(z) {
        Shade::Mild
    } else {
        Shade::Calm
    }
}

/// Shade a token by its z-score.
pub fn shade_style(z: F32) -> (s: Shade)
    ensures
        s == shade(z),
{
    if F32(FOUR_BITS).le(z) {
        Shade::Burning
    } else if F32(THREE_BITS).le(z) {
        Shade::Hot
    } else if F32(TWO_BITS).le(z) {
        Shade::Warm
    } else if F32(ONE_BITS).le(z) {
        Shade::Mild
    } else {
        Shade::Calm
    }
}

/// A character that can be seen on a single line: the ends of lines and the tabs are spelled out.
pub open spec fn visible(c: char) -> char {
    if c == '\n' {
        '⏎'
    } else if c == '\t' {
        '→'
    } else {
        c
    }
}

/// Spell out what could not be seen on a single line.
pub fn clean(s: &str) -> (r: String)
    ensures
        r@ == s@.map_values(|c: char| visible(c)),
{
    let v = chars_of(s);
    let mut r = String::new();
    let mut i: usize = 0;
    assert(r@ =~= v@.map_values(|c: char| visible(c)).take(0));
    while i < v.len()
        invariant
            i <= v@.len(),
            r@ == v@.map_values(|c: char| visible(c)).take(i as int),
        decreases v@.len() - i,
    {
        let c = v[i];
        let shown = if c == '\n' {
            '⏎'
        } else if c == '\t' {
            '→'
        } else {
            c
        };
        r.push(shown);
        i = i + 1;
        assert(r@ =~= v@.map_values(|c: char| visible(c)).take(i as int));
    }
    assert(v@.map_values(|c: char| visible(c)).take(i as int) =~= v@.map_values(
        |c: char| visible(c),
    ));
    r
}

// ---------------------------------------------------------------------------------------------
// The panels
// ---------------------------------------------------------------------------------------------

/// A token of the transcript.
pub struct Shaded {
    pub text: String,
    pub z: F32,
}

/// The tokens of a transcript, as values.
pub open spec fn shaded_views(v: Seq<Shaded>) -> Seq<(Seq<char>, F32)> {
    v.map_values(|s: Shaded| (s.text@, s.z))
}

/// What the panels hold.
pub struct Panels {
    /// The transcript.
    pub shaded: Vec<Shaded>,
    /// The chart of surprisals.
    pub spark: VecDeque<u64>,
    /// The triggers, oldest first.
    pub triggers: VecDeque<Trigger>,
    /// The finished asides, oldest first.
    pub interjections: Vec<String>,
    /// The aside in flight.
    pub pending: Option<String>,
    /// Has it been found fit to show?
    pub revealed: bool,
}

/// What the panels hold, as a value.
#[verifier::ext_equal]
pub struct PanelsView {
    pub shaded: Seq<(Seq<char>, F32)>,
    pub spark: Seq<u64>,
    pub triggers: Seq<Trigger>,
    pub interjections: Seq<Seq<char>>,
    pub shown: Shown,
}

impl View for Panels {
    type V = PanelsView;

    open spec fn view(&self) -> PanelsView {
        PanelsView {
            shaded: shaded_views(self.shaded@),
            spark: self.spark@,
            triggers: self.triggers@,
            interjections: texts(self.interjections@),
            shown: Shown { pending: shown_text(self.pending), revealed: self.revealed },
        }
    }
}

/// A list that is cut by a fixed amount once it holds too much.
pub open spec fn shed<T>(s: Seq<T>) -> Seq<T> {
    if s.len() > SHADED_CAP {
        s.skip(SHADED_DROP as int)
    } else {
        s
    }
}

impl PanelsView {
    /// The panels stay within their limits.
    pub open spec fn wf(self) -> bool {
        &&& self.shaded.len() <= SHADED_CAP
        &&& self.spark.len() <= SPARK_CAP
        &&& self.triggers.len() <= TRIGGER_CAP
        &&& self.interjections.len() <= INTERJECTION_CAP
    }

    /// The panels after a token has been charted at `height`, put into the transcript, and listed
    /// where it fired.
    pub open spec fn charted(self, height: u64, step: Step) -> PanelsView {
        PanelsView {
            spark: last_n(self.spark.push(height), SPARK_CAP as nat),
            shaded: shed(self.shaded.push((step.token_text@, step.z))),
            triggers: match step.trigger {
                Some(t) => last_n(self.triggers.push(t), TRIGGER_CAP as nat),
                None => self.triggers,
            },
            ..self
        }
    }

    /// The panels after what is shown of the aside has moved on, and a finished one has been listed.
    pub open spec fn moved_on(self, shown: Shown, settled: Option<Seq<char>>) -> PanelsView {
        PanelsView {
            shown,
            interjections: match settled {
                Some(s) => last_n(
                    self.interjections.push(">> "@ + s),
                    INTERJECTION_CAP as nat,
                ),
                None => self.interjections,
            },
            ..self
        }
    }
}

impl Default for Panels {
    fn default() -> (p: Self)
        ensures
            p@ == (PanelsView {
                shaded: Seq::empty(),
                spark: Seq::empty(),
                triggers: Seq::empty(),
                interjections: Seq::empty(),
                shown: (Shown { pending: None, revealed: false }),
            }),
            p@.wf(),
    {
        let p = Panels {
            shaded: Vec::new(),
            spark: VecDeque::new(),
            triggers: VecDeque::new(),
            interjections: Vec::new(),
            pending: None,
            revealed: false,
        };
        assert(p@.shaded =~= Seq::empty());
        assert(p@.interjections =~= Seq::empty());
        p
    }
}

/// Append to a list of at most `cap` items, dropping the oldest where it is full.
fn push_last<T>(list: &mut VecDeque<T>, item: T, cap: usize)
    requires
        old(list)@.len() <= cap,
    ensures
        final(list)@ == last_n(old(list)@.push(item), cap as nat),
{
    list.push_back(item);
    if list.len() > cap {
        let ghost full = list@;
        list.pop_front();
        assert(list@ =~= full.skip(1));
    }
}

impl Panels {
    /// Chart a token, put it into the transcript, and list it where it fired.
    fn chart<N: Numerics>(&mut self, step: Step, num: &N)
        requires
            old(self)@.wf(),
        ensures
            exists|height: u64|
                #[trigger] call_ensures(N::height, (num, step.surprisal), height) && final(self)@
                    == old(self)@.charted(height, step),
            final(self)@.wf(),
            final(self)@.shown == old(self)@.shown,
    {
        let height: u64 = num.height(step.surprisal);
        push_last(&mut self.spark, height, SPARK_CAP);
        let ghost before = shaded_views(self.shaded@);
        self.shaded.push(Shaded { text: step.token_text, z: step.z });
        assert(shaded_views(self.shaded@) =~= before.push((step.token_text@, step.z)));
        if self.shaded.len() > SHADED_CAP {
            let ghost full = self.shaded@;
            let kept = self.shaded.split_off(SHADED_DROP);
            self.shaded = kept;
            assert(self.shaded@ =~= full.skip(SHADED_DROP as int));
            assert(shaded_views(self.shaded@) =~= shaded_views(full).skip(SHADED_DROP as int));
        }
        if let Some(t) = step.trigger {
            push_last(&mut self.triggers, t, TRIGGER_CAP);
        }
    }

    /// List a finished aside.
    fn list(&mut self, settled: Option<String>)
        requires
            old(self)@.wf(),
        ensures
            final(self)@ == old(self)@.moved_on(old(self)@.shown, shown_text(settled)),
            final(self)@.wf(),
    {
        if let Some(s) = settled {
            let mut line = ">> ".to_owned();
            line.append(s.as_str());
            let ghost before = texts(self.interjections@);
            let ghost l = line@;
            self.interjections.push(line);
            assert(texts(self.interjections@) =~= before.push(l));
            if self.interjections.len() > INTERJECTION_CAP {
                self.interjections.remove(0);
                assert(texts(self.interjections@) =~= before.push(l).skip(1));
            }
        }
    }

    /// Where the part of the transcript that is drawn starts.
    pub fn transcript_start(&self) -> (i: usize)
        ensures
            i <= self@.shaded.len(),
            self@.shaded.skip(i as int) == last_n(self@.shaded, SHADED_TAIL as nat),
    {
        let n: usize = self.shaded.len();
        if n > SHADED_TAIL {
            n - SHADED_TAIL
        } else {
            assert(self@.shaded.skip(0) =~= self@.shaded);
            0
        }
    }

    /// Take one stream token: step or observe, put it into the panels, and move on what is shown of
    /// the aside. `interject` is the length asked of an aside, or `None` where asides are off.
    #[verifier::rlimit(40)]
    pub fn take_token<B: Backend, R: Fn(&str) -> Option<String>, N: Numerics>(
        &mut self,
        lobe: &mut Lobe<B>,
        tok: Token,
        stats: &mut Welford,
        z: F32,
        topk: usize,
        interject: Option<usize>,
        retrieve: &R,
        num: &N,
    ) -> (r: Result<(), LobeError>)
        requires
            old(self)@.wf(),
            old(lobe)@.wf(),
            old(lobe).window.wf(),
            old(lobe)@.has_room(),
            old(lobe)@.scores(tok),
            old(lobe)@.anchored(),
            interject matches Some(max) ==> hint_fits(max as nat),
            old(stats).count < u64::MAX,
            forall|s: &str| #[trigger] retrieve.requires((s,)),
        ensures
            ({
                let was = old(self)@.shown;
                match r {
                    Ok(()) => exists|mid: LobeView, step: Step, status: Progress, height: u64|
                        {
                            &&& #[trigger] taken_on(
                                old(lobe).engine,
                                num,
                                *retrieve,
                                old(lobe)@,
                                tok,
                                *old(stats),
                                *final(stats),
                                z,
                                topk as nat,
                                interject,
                                mid,
                                step,
                                status,
                            )
                            &&& #[trigger] call_ensures(N::height, (num, step.surprisal), height)
                            &&& final(lobe)@ == shown_on(mid, status, was)
                            &&& final(self)@ == old(self)@.charted(height, step).moved_on(
                                shown_next(mid.memory, status, was),
                                settles(mid.memory, status, was),
                            )
                        },
                    Err(e) => {
                        ||| final(self)@ == old(self)@ && match interject {
                            Some(max) => step_failed(
                                old(lobe).engine,
                                num,
                                *retrieve,
                                old(lobe)@,
                                tok,
                                *old(stats),
                                *final(stats),
                                z,
                                topk as nat,
                                max,
                                final(lobe)@,
                                e,
                            ),
                            None => e is Backend && cut_short(
                                old(lobe)@.calls,
                                old(lobe)@.fed_calls(tok),
                                final(lobe)@.calls,
                            ),
                        }
                        ||| exists|mid: LobeView, step: Step, status: Progress, height: u64|
                            {
                                &&& #[trigger] taken_on(
                                    old(lobe).engine,
                                    num,
                                    *retrieve,
                                    old(lobe)@,
                                    tok,
                                    *old(stats),
                                    *final(stats),
                                    z,
                                    topk as nat,
                                    interject,
                                    mid,
                                    step,
                                    status,
                                )
                                &&& #[trigger] call_ensures(
                                    N::height,
                                    (num, step.surprisal),
                                    height,
                                )
                                &&& e is Backend
                                &&& abandons(mid.memory, status, was)
                                &&& final(lobe)@ == (LobeView {
                                    calls: mid.calls.push(
                                        KvCall::Clear { seq: GEN_SEQ, ok: false },
                                    ),
                                    answers: mid.answers.push(Seq::empty()),
                                    ..mid
                                })
                                &&& final(self)@ == old(self)@.charted(height, step)
                            }
                    },
                }
            }),
            final(self)@.wf(),
            final(lobe)@.wf(),
            final(lobe).window.wf(),
            r is Ok ==> final(lobe)@.anchored(),
            final(lobe).engine == old(lobe).engine,
            final(lobe).debug == old(lobe).debug,
    {
        let ghost v = lobe@;
        let ghost engine = lobe.engine;
        let (step, status): (Step, Option<InterjectStatus>) = match interject {
            Some(max) => {
                let o = match lobe.step(tok, stats, z, topk, max, retrieve, num) {
                    Ok(o) => o,
                    Err(e) => {
                        return Err(e);
                    },
                };
                assert(advanced(
                    engine,
                    num,
                    *retrieve,
                    v,
                    tok,
                    *old(stats),
                    *stats,
                    z,
                    topk as nat,
                    max,
                    lobe@,
                    o,
                ));
                (o.step, Some(o.interjection))
            },
            None => {
                match lobe.observe(tok, stats, z, topk, num) {
                    Ok(s) => (s, None),
                    Err(e) => {
                        return Err(e);
                    },
                }
            },
        };
        let ghost said = progress(status);
        assert(taken_on(
            engine,
            num,
            *retrieve,
            v,
            tok,
            *old(stats),
            *stats,
            z,
            topk as nat,
            interject,
            lobe@,
            step,
            said,
        ));
        self.chart(step, num);
        let settled = match lobe.advance_reveal(status, &mut self.pending, &mut self.revealed) {
            Ok(settled) => settled,
            Err(e) => {
                return Err(e);
            },
        };
        self.list(settled);
        Ok(())
    }

    /// The lines of the panel of asides: the one in flight, then the finished ones, newest first.
    pub fn side_lines(&self) -> (r: Vec<SideLine>)
        ensures
            side_views(r@) == side(self@.interjections, self@.shown.pending),
    {
        let mut r: Vec<SideLine> = Vec::new();
        assert(side_views(r@) =~= Seq::empty());
        if let Some(p) = &self.pending {
            let text = if p.as_str().is_empty() {
                "💭 thinking…".to_owned()
            } else {
                let mut t = "💭 ".to_owned();
                t.append(p.as_str());
                t.append("▋");
                t
            };
            let ghost t = text@;
            r.push(SideLine { text, live: true });
            assert(side_views(r@) =~= seq![(t, true)]);
        }
        let ghost head = side_views(r@);
        let ghost tail = settled_lines(self@.interjections);
        let n: usize = self.interjections.len();
        let mut i: usize = 0;
        assert(head + tail.take(0) =~= head);
        while i < n
            invariant
                n == self.interjections@.len(),
                i <= n,
                tail == settled_lines(self@.interjections),
                side_views(r@) == head + tail.take(i as int),
            decreases n - i,
        {
            let k: usize = n - 1 - i;
            assert(tail[i as int] == (self.interjections@[k as int]@, false));
            let ghost before = side_views(r@);
            let text = self.interjections[k].clone();
            let ghost t = text@;
            r.push(SideLine { text, live: false });
            assert(side_views(r@) =~= before.push((t, false)));
            assert(tail.take(i + 1) =~= tail.take(i as int).push(tail[i as int]));
            i = i + 1;
        }
        assert(tail.take(n as int) =~= tail);
        assert(head =~= pending_lines(self@.shown.pending));
        r
    }
}

/// A line of the panel of asides: its text, and whether it is the one in flight.
pub struct SideLine {
    pub text: String,
    pub live: bool,
}

/// The lines of the panel of asides, as values.
pub open spec fn side_views(v: Seq<SideLine>) -> Seq<(Seq<char>, bool)> {
    v.map_values(|l: SideLine| (l.text@, l.live))
}

/// The line of the aside in flight, if there is one.
pub open spec fn pending_lines(pending: Option<Seq<char>>) -> Seq<(Seq<char>, bool)> {
    match pending {
        Some(p) => if p.len() == 0 {
            seq![("💭 thinking…"@, true)]
        } else {
            seq![("💭 "@ + p + "▋"@, true)]
        },
        None => Seq::empty(),
    }
}

/// The lines of the finished asides, newest first.
pub open spec fn settled_lines(asides: Seq<Seq<char>>) -> Seq<(Seq<char>, bool)> {
    Seq::new(asides.len(), |i: int| (asides[asides.len() - 1 - i], false))
}

/// The lines of the panel of asides: the one in flight, then the finished ones, newest first.
pub open spec fn side(asides: Seq<Seq<char>>, pending: Option<Seq<char>>) -> Seq<(Seq<char>, bool)> {
    pending_lines(pending) + settled_lines(asides)
}

/// Charting and moving on keep the panels within their limits.
pub proof fn lemma_panels_stay_bounded(
    p: PanelsView,
    height: u64,
    step: Step,
    shown: Shown,
    settled: Option<Seq<char>>,
)
    requires
        p.wf(),
    ensures
        p.charted(height, step).moved_on(shown, settled).wf(),
{
}

/// What each key does, and that no other does anything.
pub proof fn lemma_what_the_keys_do(key: Key, a: Action)
    requires
        call_ensures(action_of, (key,), a),
    ensures
        a is Quit <==> key is Esc || key == Key::Char('q'),
        a is TogglePause <==> key == Key::Char(' '),
        a is Raise <==> key == Key::Char('+') || key == Key::Char('='),
        a is Lower <==> key == Key::Char('-') || key == Key::Char('_'),
{
}

/// What the display asks for: a key that moves the threshold moves it by a quarter, up or down, and the
/// space bar turns pausing over.
pub proof fn lemma_what_the_display_asks_for(a: Action, paused: bool, c: Option<Control>)
    requires
        call_ensures(control_of, (a, paused), c),
    ensures
        a is Raise ==> c == Some(Control::AdjustZ(F32(0x3e80_0000))),
        a is Lower ==> c == Some(Control::AdjustZ(F32(0xbe80_0000))),
        a is TogglePause ==> c == Some(Control::Pause(!paused)),
        a is Quit <==> c == Some(Control::Quit),
        a is Nothing <==> c is None,
{
}

/// On the instrument itself: pausing twice is as good as not at all and leaves the threshold alone,
/// moving the threshold leaves the pausing alone, a key without an action changes nothing, and only a
/// word to quit stops it.
pub proof fn lemma_what_a_press_changes<N: Numerics>(
    num: &N,
    p: Pace,
    a: Action,
    mid: Option<Pace>,
    after: Option<Pace>,
)
    requires
        pressed(num, p, a, mid),
        mid matches Some(m) ==> pressed(num, m, a, after),
    ensures
        mid is None <==> a is Quit,
        a is Nothing ==> mid == Some(p),
        a is TogglePause ==> mid is Some && mid->Some_0.paused == !p.paused && mid->Some_0.z == p.z
            && after == Some(p),
        a is Raise ==> mid is Some && mid->Some_0.paused == p.paused && call_ensures(
            N::raised,
            (num, p.z),
            mid->Some_0.z,
        ),
        a is Lower ==> mid is Some && mid->Some_0.paused == p.paused && call_ensures(
            N::lowered,
            (num, p.z),
            mid->Some_0.z,
        ),
{
}

/// A token is shaded hotter from a z-score of one, two, three and four on.
pub proof fn lemma_when_a_token_is_shaded_hotter(z: F32, s: Shade)
    requires
        call_ensures(shade_style, (z,), s),
    ensures
        F32(0x4080_0000).at_most(z) <==> s is Burning,
        F32(0x4040_0000).at_most(z) && !F32(0x4080_0000).at_most(z) <==> s is Hot,
        F32(0x4000_0000).at_most(z) && !F32(0x4040_0000).at_most(z) <==> s is Warm,
        F32(0x3f80_0000).at_most(z) && !F32(0x4000_0000).at_most(z) <==> s is Mild,
        !F32(0x3f80_0000).at_most(z) <==> s is Calm,
{
}

/// On a single line a text keeps its length and every character, but for line ends and tabs, which are
/// spelled out.
pub proof fn lemma_what_is_spelled_out(s: &str, r: String)
    requires
        call_ensures(clean, (s,), r),
    ensures
        r@.len() == s@.len(),
        forall|i: int|
            0 <= i < s@.len() ==> #[trigger] r@[i] == if s@[i] == '\n' {
                '⏎'
            } else if s@[i] == '\t' {
                '→'
            } else {
                s@[i]
            },
{
}

/// A token is charted as the last bar, of which the latest 120 stay; joins the transcript, which loses
/// its oldest thousand once it holds more than four thousand; and is listed where it fired, among the
/// latest 64. A finished aside is listed with its mark, among the latest 50.
pub proof fn lemma_how_the_panels_grow(
    p: PanelsView,
    height: u64,
    step: Step,
    shown: Shown,
    text: Seq<char>,
)
    requires
        p.wf(),
    ensures
        ({
            let q = p.charted(height, step);
            let token = (step.token_text@, step.z);
            &&& q.spark == if p.spark.len() < 120 {
                p.spark.push(height)
            } else {
                p.spark.push(height).skip(1)
            }
            &&& q.spark.len() <= 120
            &&& q.shaded == if p.shaded.len() < 4000 {
                p.shaded.push(token)
            } else {
                p.shaded.push(token).skip(1000)
            }
            &&& step.trigger is None ==> q.triggers == p.triggers
            &&& step.trigger matches Some(t) ==> q.triggers == if p.triggers.len() < 64 {
                p.triggers.push(t)
            } else {
                p.triggers.push(t).skip(1)
            }
            &&& q.interjections == p.interjections
            &&& q.shown == p.shown
        }),
        ({
            let q = p.moved_on(shown, Some(text));
            &&& q.shown == shown
            &&& q.interjections == if p.interjections.len() < 50 {
                p.interjections.push(">> "@ + text)
            } else {
                p.interjections.push(">> "@ + text).skip(1)
            }
            &&& q.shaded == p.shaded && q.spark == p.spark && q.triggers == p.triggers
        }),
        p.moved_on(shown, None) == (PanelsView { shown, ..p }),
{
}

/// Of the transcript the latest 1200 tokens are drawn.
pub proof fn lemma_how_much_of_the_transcript_is_drawn(p: Panels, i: usize)
    requires
        call_ensures(Panels::transcript_start, (&p,), i),
    ensures
        p.shaded@.len() <= 1200 ==> i == 0,
        p.shaded@.len() > 1200 ==> i == p.shaded@.len() - 1200,
{
    let s = p@.shaded;
    assert(s.len() == p.shaded@.len());
    assert(s.skip(i as int).len() == s.len() - i);
}

/// The panel of asides shows the one in flight first, marked as such, and below it the finished ones, the
/// newest first.
pub proof fn lemma_the_newest_aside_is_on_top(p: Panels, r: Vec<SideLine>)
    requires
        call_ensures(Panels::side_lines, (&p,), r),
    ensures
        ({
            let n = p.interjections@.len() as int;
            let top = if p.pending is Some {
                1int
            } else {
                0
            };
            &&& r@.len() == top + n
            &&& forall|i: int|
                0 <= i < n ==> (#[trigger] r@[top + i]).text@ == p.interjections@[n - 1 - i]@
                    && !r@[top + i].live
            &&& p.pending matches Some(t) ==> r@[0].live && r@[0].text@ == if t@.len() == 0 {
                "💭 thinking…"@
            } else {
                "💭 "@ + t@ + "▋"@
            }
        }),
{
    let views = side_views(r@);
    assert(views.len() == r@.len());
    assert forall|i: int| 0 <= i < r@.len() implies #[trigger] views[i] == (
        r@[i].text@,
        r@[i].live,
    ) by {}
    let top = if p.pending is Some {
        1int
    } else {
        0
    };
    let n = p.interjections@.len() as int;
    assert forall|i: int| 0 <= i < n implies (#[trigger] r@[top + i]).text@
        == p.interjections@[n - 1 - i]@ && !r@[top + i].live by {
        assert(views[top + i] == settled_lines(p@.interjections)[i]);
    }
    if p.pending is Some {
        assert(views[0] == pending_lines(p@.shown.pending)[0]);
    }
}

/// A key pressed on the instrument: pausing is turned over, the threshold is raised or lowered as the
/// arithmetic says, and only a word to quit stops it, with nothing changed.
pub proof fn lemma_what_pressing_does<N: Numerics>(pace: &mut Pace, a: Action, num: &N, go_on: bool)
    requires
        call_ensures(press::<N>, (pace, a, num), go_on),
    ensures
        go_on <==> !(a is Quit),
        a is Quit || a is Nothing ==> *final(pace) == *old(pace),
        a is TogglePause ==> final(pace).paused == !old(pace).paused && final(pace).z == old(pace).z,
        a is Raise ==> final(pace).paused == old(pace).paused && call_ensures(
            N::raised,
            (num, old(pace).z),
            final(pace).z,
        ),
        a is Lower ==> final(pace).paused == old(pace).paused && call_ensures(
            N::lowered,
            (num, old(pace).z),
            final(pace).z,
        ),
{
}

/// Taking a token, as a call: it ends the transcript, with its score, and the chart, and is listed where it
/// fired. With asides off what is shown of them and their list are as they were.
pub proof fn lemma_what_taking_a_token_shows<
    'a,
    B: Backend,
    R: Fn(&str) -> Option<String>,
    N: Numerics,
>(
    p: &mut Panels,
    lobe: &mut Lobe<'a, B>,
    tok: Token,
    stats: &mut Welford,
    z: F32,
    topk: usize,
    interject: Option<usize>,
    retrieve: &R,
    num: &N,
    r: Result<(), LobeError>,
)
    requires
        old(p)@.wf(),
        call_ensures(
            Panels::take_token::<B, R, N>,
            (p, lobe, tok, stats, z, topk, interject, retrieve, num),
            r,
        ),
        r is Ok,
    ensures
        final(p)@.shaded.len() > 0,
        final(p)@.shaded.last().0 == old(lobe).engine.text_of(tok, Detok::Text),
        final(p)@.spark.len() > 0,
        old(p)@.spark.len() < 120 ==> final(p)@.spark.drop_last() == old(p)@.spark,
        old(p)@.spark.len() == 120 ==> final(p)@.spark.drop_last() == old(p)@.spark.skip(1),
        exists|step: Step|
            {
                &&& #[trigger] call_ensures(N::height, (num, step.surprisal), final(p)@.spark.last())
                &&& step.token_text@ == old(lobe).engine.text_of(tok, Detok::Text)
                &&& step.z == final(p)@.shaded.last().1
                &&& step.fired <==> step.trigger is Some
                &&& step.trigger matches Some(t) ==> final(p)@.triggers.len() > 0
                    && final(p)@.triggers.last() == t
                &&& step.trigger is None ==> final(p)@.triggers == old(p)@.triggers
            },
        interject is None ==> final(p)@.interjections == old(p)@.interjections && final(p)@.shown
            == old(p)@.shown,
{
    let engine = old(lobe).engine;
    let v = old(lobe)@;
    let was = old(p)@.shown;
    let (mid, step, status, height) = choose|
        mid: LobeView,
        step: Step,
        status: Progress,
        height: u64,
    |
        {
            &&& #[trigger] taken_on(
                engine,
                num,
                *retrieve,
                v,
                tok,
                *old(stats),
                *final(stats),
                z,
                topk as nat,
                interject,
                mid,
                step,
                status,
            )
            &&& #[trigger] call_ensures(N::height, (num, step.surprisal), height)
            &&& final(lobe)@ == shown_on(mid, status, was)
            &&& final(p)@ == old(p)@.charted(height, step).moved_on(
                shown_next(mid.memory, status, was),
                settles(mid.memory, status, was),
            )
        };
    assert(step.token_text@ == engine.text_of(tok, Detok::Text));
    assert(final(p)@.spark.last() == height);
    assert(final(p)@.spark.drop_last() =~= if old(p)@.spark.len() < 120 {
        old(p)@.spark
    } else {
        old(p)@.spark.skip(1)
    });
    assert(call_ensures(N::height, (num, step.surprisal), final(p)@.spark.last()));
}

} // verus!
