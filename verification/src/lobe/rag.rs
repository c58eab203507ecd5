//! Looking things up: the model is offered a search tool, may call it after thinking aloud, and is
//! handed the result inside its own turn. This module asks, reads the call out of what the model
//! wrote, and feeds the answer back; what the search finds is the caller's.

use super::model::{
    all_made, broke, continues, feeds, last_row, lemma_continues_self, lemma_continues_trans, lemma_cut_short_broke,
    lemma_feeds_succeed, lemma_made_more, lemma_made_then_broke, lemma_made_then_failed,
    lemma_made_trans, LobeView,
};
use super::novelty::{concat, concat_all};
use super::sampling::{aligned, argmax, greedy, word_aligned};
use super::types::LobeError;
use super::{Lobe, GEN_SEQ};
use crate::backend::{Answers, Backend, Decode, Detok, KvCall, Session, Token};
use crate::number::F32;
use crate::prompt::{rag_prompt, rag_tool_response, search_answer, search_ask};
use crate::text::{
    chars_of, contains, contains_text, find_chars, first_at, lemma_first_is_one, occurs_at, trim,
    trimmed,
};
use vstd::prelude::*;
use vstd::string::*;

verus! {

/// Where a search looks.
#[derive(Copy, Clone, Debug, PartialEq, Eq, Structural)]
pub enum Source {
    /// This session's own context.
    Mem,
    /// The external knowledge base.
    Rag,
}

/// A search that the model called for.
#[derive(Clone, Debug)]
pub struct RetrievalDirective {
    pub source: Source,
    pub query: String,
}

/// What came of a search pass: what the model thought aloud, the search it called for, what was
/// found, and what it said once it had been told.
#[derive(Clone, Debug, Default)]
pub struct RagOutcome {
    pub thought: String,
    pub directive: Option<RetrievalDirective>,
    pub retrieved: Option<String>,
    pub response: Option<String>,
}

// ---------------------------------------------------------------------------------------------
// Reading a call
// ---------------------------------------------------------------------------------------------

/// What follows the first `pat` in a text, if it occurs.
pub open spec fn after_first(s: Seq<char>, pat: Seq<char>) -> Option<Seq<char>> {
    if contains_text(s, pat) {
        let i = choose|i: int| first_at(s, pat, i);
        Some(s.skip(i + pat.len()))
    } else {
        None
    }
}

/// What stands before the first `pat` in a text; all of it where it does not occur.
pub open spec fn before_first(s: Seq<char>, pat: Seq<char>) -> Seq<char> {
    if contains_text(s, pat) {
        let i = choose|i: int| first_at(s, pat, i);
        s.take(i)
    } else {
        s
    }
}

/// The value of an argument of a call: what stands between the first quotes after its name.
pub open spec fn tool_arg(s: Seq<char>, key: Seq<char>) -> Option<Seq<char>> {
    match after_first(s, key + ":<|\"|>"@) {
        Some(rest) => if contains_text(rest, "<|\"|>"@) {
            Some(before_first(rest, "<|\"|>"@))
        } else {
            None
        },
        None => None,
    }
}

/// "rag", in whatever case.
pub open spec fn says_rag(s: Seq<char>) -> bool {
    &&& s.len() == 3
    &&& s[0] == 'r' || s[0] == 'R'
    &&& s[1] == 'a' || s[1] == 'A'
    &&& s[2] == 'g' || s[2] == 'G'
}

/// Where a call wants to look: in the knowledge base where it says so, else in the session.
pub open spec fn source_of(call: Seq<char>) -> Source {
    match tool_arg(call, "source"@) {
        Some(s) => if says_rag(trimmed(s)) {
            Source::Rag
        } else {
            Source::Mem
        },
        None => Source::Mem,
    }
}

/// What the model thought aloud: all that it wrote before a call.
pub open spec fn thought_in(raw: Seq<char>) -> Seq<char> {
    trimmed(before_first(raw, "<|tool_call>"@))
}

/// The search that the model called for, if it called for one.
pub open spec fn directive_in(raw: Seq<char>) -> Option<(Source, Seq<char>)> {
    match after_first(raw, "<|tool_call>"@) {
        Some(call) => match tool_arg(call, "query"@) {
            Some(q) => Some((source_of(call), trimmed(q))),
            None => None,
        },
        None => None,
    }
}

/// The search of an outcome, as a value.
pub open spec fn directive_view(d: Option<RetrievalDirective>) -> Option<(Source, Seq<char>)> {
    match d {
        Some(d) => Some((d.source, d.query@)),
        None => None,
    }
}

/// Split a text around the first `pat`.
fn split_first<'s>(s: &'s str, pat: &str) -> (r: Option<(&'s str, &'s str)>)
    ensures
        match r {
            Some((a, b)) => contains_text(s@, pat@) && a@ == before_first(s@, pat@)
                && after_first(s@, pat@) == Some(b@),
            None => !contains_text(s@, pat@),
        },
{
    let v = chars_of(s);
    let p = chars_of(pat);
    match find_chars(&v, &p) {
        None => None,
        Some(i) => {
            proof {
                lemma_first_is_one(s@, pat@, i as int);
                assert(occurs_at(s@, pat@, i as int));
            }
            let n: usize = v.len();
            let k: usize = i + p.len();
            assert(s@.subrange(0, i as int) =~= s@.take(i as int));
            assert(s@.subrange(k as int, n as int) =~= s@.skip(k as int));
            Some((s.substring_char(0, i), s.substring_char(k, n)))
        },
    }
}

/// The value of an argument of a call.
pub fn extract_tool_arg<'s>(s: &'s str, key: &str) -> (r: Option<&'s str>)
    ensures
        match r {
            Some(v) => tool_arg(s@, key@) == Some(v@),
            None => tool_arg(s@, key@) is None,
        },
{
    let mut pat = key.to_owned();
    pat.append(":<|\"|>");
    match split_first(s, pat.as_str()) {
        None => None,
        Some((_, rest)) => match split_first(rest, "<|\"|>") {
            None => None,
            Some((value, _)) => Some(value),
        },
    }
}

fn is_rag(s: &str) -> (r: bool)
    ensures
        r == says_rag(s@),
{
    let v = chars_of(s);
    v.len() == 3 && (v[0] == 'r' || v[0] == 'R') && (v[1] == 'a' || v[1] == 'A') && (v[2] == 'g'
        || v[2] == 'G')
}

/// Read what the model wrote: the thought before a call, and the search that the call asks for. A
/// call without a query asks for none.
pub fn parse_rag_output(raw: &str) -> (o: RagOutcome)
    ensures
        o.thought@ == thought_in(raw@),
        directive_view(o.directive) == directive_in(raw@),
        o.retrieved is None,
        o.response is None,
{
    match split_first(raw, "<|tool_call>") {
        Some((before, after)) => {
            let source = match extract_tool_arg(after, "source") {
                Some(s) => if is_rag(trim(s)) {
                    Source::Rag
                } else {
                    Source::Mem
                },
                None => Source::Mem,
            };
            let directive = match extract_tool_arg(after, "query") {
                Some(q) => Some(RetrievalDirective { source, query: trim(q).to_owned() }),
                None => None,
            };
            RagOutcome {
                thought: trim(before).to_owned(),
                directive,
                retrieved: None,
                response: None,
            }
        },
        None => RagOutcome {
            thought: trim(raw).to_owned(),
            directive: None,
            retrieved: None,
            response: None,
        },
    }
}

// ---------------------------------------------------------------------------------------------
// Generating
// ---------------------------------------------------------------------------------------------

/// The text of a run of tokens.
pub open spec fn spoken<B: Backend>(engine: &B, toks: Seq<Token>, mode: Detok) -> Seq<char> {
    concat(toks.map_values(|t: Token| engine.text_of(t, mode)))
}

/// Does a reply end before this token?
pub open spec fn closes<B: Backend>(engine: &B, v: LobeView, tok: Token) -> bool {
    engine.ends_generation(tok) || v.eot == Some(tok)
}

/// Has a call been written out?
pub open spec fn called(raw: Seq<char>) -> bool {
    contains_text(raw, "<tool_call|>"@)
}

/// The passes that feed tokens one by one to the scratch sequence from `start` on.
pub open spec fn trickle(toks: Seq<Token>, start: int) -> Seq<KvCall>
    decreases toks.len(),
{
    if toks.len() == 0 {
        Seq::empty()
    } else {
        trickle(toks.drop_last(), start) + feeds(
            seq![toks.last()],
            0,
            start + toks.len() - 1,
            GEN_SEQ,
        )
    }
}

/// The row that the model goes by once it has spoken `i` tokens from `v` on: at first the one that the
/// last of the `fed` tokens fed before left behind, then the one that the token spoken last did.
pub open spec fn row_at(v: LobeView, fed: int, answers: Answers, i: int) -> Seq<F32> {
    if i == 0 {
        last_row(v.answers, fed)
    } else {
        answers[v.answers.len() + i - 1][0]
    }
}

/// The model spoke `toks` from `v` on, each of them the greedy choice of the row that the token before
/// it left behind: none of them ends the reply, and it stopped because the next one would, because it
/// had reached `cap`, or (where `until_call`) because a call was written out, which no shorter piece of
/// it does.
pub open spec fn speaks<B: Backend>(
    engine: &B,
    v: LobeView,
    fed: int,
    answers: Answers,
    toks: Seq<Token>,
    cap: nat,
    mode: Detok,
    until_call: bool,
) -> bool {
    &&& toks.len() <= cap
    &&& forall|i: int|
        0 <= i < toks.len() ==> greedy(
            row_at(v, fed, answers, i),
            (#[trigger] toks[i]).0 as int,
        ) && !closes(engine, v, toks[i])
    &&& until_call ==> forall|i: int|
        0 < i < toks.len() ==> !called(#[trigger] spoken(engine, toks.take(i), mode))
    &&& {
        ||| toks.len() == cap
        ||| until_call && toks.len() > 0 && called(spoken(engine, toks, mode))
        ||| exists|t: Token|
            #[trigger] greedy(row_at(v, fed, answers, toks.len() as int), t.0 as int) && closes(
                engine,
                v,
                t,
            )
    }
}

/// How many tokens can be spoken from position `start` on where `max` are wanted: no more than there are
/// positions left to count.
pub open spec fn cap_at(start: int, max: nat) -> nat {
    if start + max <= i32::MAX {
        max
    } else if start <= i32::MAX {
        (i32::MAX - start) as nat
    } else {
        0
    }
}

/// Did a reply of `n` tokens run into the last position that can be counted?
pub open spec fn overran(n: nat, start: int, max: nat) -> bool {
    n == cap_at(start, max) && n < max
}

/// The ask of a search pass.
pub open spec fn search_tokens<B: Backend>(
    engine: &B,
    v: LobeView,
    surprising: Seq<char>,
) -> Option<Seq<Token>> {
    engine.tokens_of(search_ask(trimmed(aligned(concat(v.recent))), surprising), true)
}

/// The observer with these calls, which were answered by the first of `answers`.
pub open spec fn after_calls(v: LobeView, calls: Seq<KvCall>, answers: Answers) -> LobeView {
    LobeView { calls, answers: answers.take(calls.len() as int), ..v }
}

/// The observer after the ask of a search pass has been fed.
pub open spec fn asked(v: LobeView, ask: Seq<Token>, answers: Answers) -> LobeView {
    after_calls(v, v.scratched().calls + feeds(ask, 0, 0, GEN_SEQ), answers)
}

/// The observer after the ask of a search pass has been fed and the model has spoken `first`.
pub open spec fn thought_aloud(
    v: LobeView,
    ask: Seq<Token>,
    first: Seq<Token>,
    answers: Answers,
) -> LobeView {
    after_calls(
        v,
        v.scratched().calls + feeds(ask, 0, 0, GEN_SEQ) + trickle(first, ask.len() as int),
        answers,
    )
}

/// The model was asked and thought aloud: it spoke `first`.
pub open spec fn thinks<B: Backend>(
    engine: &B,
    v: LobeView,
    ask: Seq<Token>,
    max: nat,
    answers: Answers,
    first: Seq<Token>,
) -> bool {
    speaks(
        engine,
        asked(v, ask, answers),
        ask.len() as int,
        answers,
        first,
        cap_at(ask.len() as int, max),
        Detok::Text,
        true,
    )
}

/// A search pass: the model is asked and thinks aloud; where it calls for a search that finds
/// something, it is told and speaks again; then the scratch sequence is dropped.
pub open spec fn consulted<B: Backend, F: Fn(Source, &str) -> Option<String>>(
    engine: &B,
    retrieve: F,
    v: LobeView,
    surprising: Seq<char>,
    max: nat,
    after: LobeView,
    out: RagOutcome,
) -> bool {
    &&& search_tokens(engine, v, surprising) matches Some(ask)
    &&& 0 < ask.len() <= i32::MAX
    &&& continues(v, after)
    &&& exists|first: Seq<Token>|
        {
            let raw = spoken(engine, first, Detok::Text);
            let heard = thought_aloud(v, ask, first, after.answers);
            &&& #[trigger] thinks(engine, v, ask, max, after.answers, first)
            &&& !overran(first.len(), ask.len() as int, max)
            &&& out.thought@ == thought_in(raw)
            &&& directive_view(out.directive) == directive_in(raw)
            &&& match out.retrieved {
                None => {
                    &&& out.response is None
                    &&& after == heard.scratched()
                    &&& directive_in(raw) matches Some(d) ==> finds(retrieve, d, None)
                },
                Some(found) => {
                    &&& directive_in(raw) matches Some(d) && finds(retrieve, d, Some(found@))
                    &&& told(
                        engine,
                        heard,
                        (ask.len() + first.len()) as int,
                        found@,
                        max,
                        after,
                        out.response,
                    )
                },
            }
        }
}

/// The search gave `found` for a directive.
pub open spec fn finds<F: Fn(Source, &str) -> Option<String>>(
    retrieve: F,
    d: (Source, Seq<char>),
    found: Option<Seq<char>>,
) -> bool {
    exists|q: &str, s: Option<String>|
        q@ == d.1 && #[trigger] retrieve.ensures((d.0, q), s) && found == match s {
            Some(s) => Some(s@),
            None => None,
        }
}

/// The observer after what was found has been fed at `pos`.
pub open spec fn bridged(v: LobeView, bridge: Seq<Token>, pos: int, answers: Answers) -> LobeView {
    after_calls(v, v.calls + feeds(bridge, 0, pos, GEN_SEQ), answers)
}

/// The observer after what was found has been fed at `pos` and the model has spoken `second`.
pub open spec fn replied(
    v: LobeView,
    bridge: Seq<Token>,
    pos: int,
    second: Seq<Token>,
    answers: Answers,
) -> LobeView {
    after_calls(
        v,
        v.calls + feeds(bridge, 0, pos, GEN_SEQ) + trickle(second, (pos + bridge.len()) as int),
        answers,
    )
}

/// The model was told what was found and replied: it spoke `second`.
pub open spec fn replies<B: Backend>(
    engine: &B,
    v: LobeView,
    bridge: Seq<Token>,
    pos: int,
    max: nat,
    answers: Answers,
    second: Seq<Token>,
) -> bool {
    speaks(
        engine,
        bridged(v, bridge, pos, answers),
        bridge.len() as int,
        answers,
        second,
        cap_at((pos + bridge.len()) as int, max),
        Detok::Plain,
        false,
    )
}

/// The model is told what was found and speaks again.
pub open spec fn told<B: Backend>(
    engine: &B,
    v: LobeView,
    pos: int,
    found: Seq<char>,
    max: nat,
    after: LobeView,
    response: Option<String>,
) -> bool {
    &&& engine.tokens_of(search_answer(found), false) matches Some(bridge)
    &&& bridge.len() > 0
    &&& pos + bridge.len() <= i32::MAX
    &&& exists|second: Seq<Token>|
        {
            &&& #[trigger] replies(engine, v, bridge, pos, max, after.answers, second)
            &&& !overran(second.len(), (pos + bridge.len()) as int, max)
            &&& response matches Some(r) && r@ == trimmed(spoken(engine, second, Detok::Plain))
            &&& after == replied(v, bridge, pos, second, after.answers).scratched()
        }
}

/// The model thought aloud and called for a search, which found something that makes these tokens;
/// nothing was called after that.
pub open spec fn stuck<B: Backend, F: Fn(Source, &str) -> Option<String>>(
    engine: &B,
    retrieve: F,
    v: LobeView,
    ask: Seq<Token>,
    max: nat,
    after: LobeView,
    first: Seq<Token>,
    found: Seq<char>,
    bridge: Option<Seq<Token>>,
) -> bool {
    &&& thinks(engine, v, ask, max, after.answers, first)
    &&& after == thought_aloud(v, ask, first, after.answers)
    &&& directive_in(spoken(engine, first, Detok::Text)) matches Some(d) && finds(
        retrieve,
        d,
        Some(found),
    )
    &&& engine.tokens_of(search_answer(found), false) == bridge
}

/// The second reply ran into the last position that can be counted.
pub open spec fn talked_out<B: Backend, F: Fn(Source, &str) -> Option<String>>(
    engine: &B,
    retrieve: F,
    v: LobeView,
    ask: Seq<Token>,
    max: nat,
    after: LobeView,
    first: Seq<Token>,
    found: Seq<char>,
    second: Seq<Token>,
) -> bool {
    let heard = thought_aloud(v, ask, first, after.answers);
    let pos = (ask.len() + first.len()) as int;
    &&& thinks(engine, v, ask, max, after.answers, first)
    &&& directive_in(spoken(engine, first, Detok::Text)) matches Some(d) && finds(
        retrieve,
        d,
        Some(found),
    )
    &&& engine.tokens_of(search_answer(found), false) matches Some(bridge) && {
        &&& replies(engine, heard, bridge, pos, max, after.answers, second)
        &&& overran(second.len(), (pos + bridge.len()) as int, max)
        &&& after == replied(heard, bridge, pos, second, after.answers)
    }
}

/// Why a search pass failed: the engine failed in a call or at tokenizing, a text to be fed has no
/// tokens, or a text or a reply ran past the positions that can be counted.
pub open spec fn not_consulted<B: Backend, F: Fn(Source, &str) -> Option<String>>(
    engine: &B,
    retrieve: F,
    v: LobeView,
    surprising: Seq<char>,
    max: nat,
    after: LobeView,
    e: LobeError,
) -> bool {
    let ask = search_tokens(engine, v, surprising);
    match e {
        LobeError::Backend(_) => {
            ||| broke(v.calls, after.calls)
            ||| ask is None
            ||| exists|first: Seq<Token>, found: Seq<char>| #[trigger]
                stuck(engine, retrieve, v, ask->0, max, after, first, found, None)
        },
        LobeError::EmptyPrompt => {
            ||| ask == Some(Seq::<Token>::empty())
            ||| exists|first: Seq<Token>, found: Seq<char>| #[trigger]
                stuck(
                    engine,
                    retrieve,
                    v,
                    ask->0,
                    max,
                    after,
                    first,
                    found,
                    Some(Seq::<Token>::empty()),
                )
        },
        LobeError::TooLong => ask matches Some(ask) && {
            ||| ask.len() > i32::MAX
            ||| exists|first: Seq<Token>|
                {
                    &&& #[trigger] thinks(engine, v, ask, max, after.answers, first)
                    &&& after == thought_aloud(v, ask, first, after.answers)
                    &&& overran(first.len(), ask.len() as int, max)
                }
            ||| exists|first: Seq<Token>, found: Seq<char>, bridge: Seq<Token>| #[trigger]
                stuck(engine, retrieve, v, ask, max, after, first, found, Some(bridge))
                    && ask.len() + first.len() + bridge.len() > i32::MAX
            ||| exists|first: Seq<Token>, found: Seq<char>, second: Seq<Token>| #[trigger]
                talked_out(engine, retrieve, v, ask, max, after, first, found, second)
        },
    }
}

/// What was spoken stays what was spoken: more calls do not change the rows that it went by, and only
/// the answers up to there and the marker that closes a turn matter of the state it began in.
proof fn lemma_speaks_alike<B: Backend>(
    engine: &B,
    v: LobeView,
    w: LobeView,
    fed: int,
    a: Answers,
    b: Answers,
    toks: Seq<Token>,
    cap: nat,
    mode: Detok,
    until_call: bool,
)
    requires
        speaks(engine, v, fed, a, toks, cap, mode, until_call),
        v.answers == w.answers,
        v.eot == w.eot,
        v.answers.len() + toks.len() <= a.len() <= b.len(),
        b.take(a.len() as int) == a,
    ensures
        speaks(engine, w, fed, b, toks, cap, mode, until_call),
{
    assert forall|i: int| 0 <= i <= toks.len() implies #[trigger] row_at(w, fed, b, i) == row_at(
        v,
        fed,
        a,
        i,
    ) by {
        if i > 0 {
            let k = v.answers.len() + i - 1;
            assert(b.take(a.len() as int)[k] == b[k]);
        }
    }
    assert forall|i: int| 0 <= i < toks.len() implies greedy(
        row_at(w, fed, b, i),
        (#[trigger] toks[i]).0 as int,
    ) && !closes(engine, w, toks[i]) by {
        assert(row_at(w, fed, b, i) == row_at(v, fed, a, i));
    }
    assert(row_at(w, fed, b, toks.len() as int) == row_at(v, fed, a, toks.len() as int));
    if exists|t: Token|
        #[trigger] greedy(row_at(v, fed, a, toks.len() as int), t.0 as int) && closes(engine, v, t) {
        let t = choose|t: Token|
            #[trigger] greedy(row_at(v, fed, a, toks.len() as int), t.0 as int) && closes(
                engine,
                v,
                t,
            );
        assert(greedy(row_at(w, fed, b, toks.len() as int), t.0 as int) && closes(engine, w, t));
    }
}

/// A token that is fed alone takes one pass.
proof fn lemma_one_pass(tok: Token, pos: int)
    ensures
        feeds(seq![tok], 0, pos, GEN_SEQ).len() == 1,
{
    reveal_with_fuel(feeds, 2);
}

/// Tokens fed one by one take a pass each.
proof fn lemma_trickle_len(toks: Seq<Token>, start: int)
    ensures
        trickle(toks, start).len() == toks.len(),
    decreases toks.len(),
{
    if toks.len() > 0 {
        lemma_trickle_len(toks.drop_last(), start);
        lemma_one_pass(toks.last(), start + toks.len() - 1);
    }
}

impl<'a, B: Backend> Lobe<'a, B> {
    /// Let the model speak greedily on the scratch sequence from `start` on, for at most `cap` tokens,
    /// until its turn closes or (where `until_call`) it has written out a call. `fed` tokens were fed
    /// last, and `logits` is the row that the last of them left behind.
    #[verifier::rlimit(40)]
    fn speak(
        &mut self,
        logits: Vec<F32>,
        Ghost(fed): Ghost<int>,
        start: i32,
        cap: usize,
        mode: Detok,
        until_call: bool,
    ) -> (r: Result<(String, usize), LobeError>)
        requires
            old(self)@.wf(),
            logits@ == last_row(old(self)@.answers, fed),
            logits@.len() == old(self)@.width,
            0 <= start,
            start + cap <= i32::MAX,
        ensures
            match r {
                Ok((text, n)) => exists|toks: Seq<Token>|
                    {
                        &&& #[trigger] speaks(
                            old(self).engine,
                            old(self)@,
                            fed,
                            final(self)@.answers,
                            toks,
                            cap as nat,
                            mode,
                            until_call,
                        )
                        &&& n == toks.len()
                        &&& text@ == spoken(old(self).engine, toks, mode)
                        &&& final(self)@ == (LobeView {
                            calls: old(self)@.calls + trickle(toks, start as int),
                            answers: final(self)@.answers,
                            ..old(self)@
                        })
                    },
                Err(e) => e is Backend && broke(old(self)@.calls, final(self)@.calls),
            },
            r matches Ok((_, n)) ==> n <= cap && final(self)@.answers.len() == old(
                self,
            )@.answers.len() + n,
            final(self)@ == (LobeView {
                calls: final(self)@.calls,
                answers: final(self)@.answers,
                ..old(self)@
            }),
            r is Ok ==> all_made(old(self)@.calls, final(self)@.calls),
            continues(old(self)@, final(self)@),
            final(self).engine == old(self).engine,
            final(self).window == old(self).window,
            final(self).last_logits == old(self).last_logits,
            final(self).debug == old(self).debug,
    {
        let ghost v = self@;
        let ghost engine = self.engine;
        let mut logits = logits;
        let mut text = String::new();
        let mut n: usize = 0;
        let ghost mut toks: Seq<Token> = Seq::empty();
        proof {
            assert(v.calls + trickle(toks, start as int) =~= v.calls);
            assert(v.calls.take(v.calls.len() as int) =~= v.calls);
            assert(v.answers.take(v.answers.len() as int) =~= v.answers);
            assert(toks.map_values(|t: Token| engine.text_of(t, mode)) =~= Seq::empty());
        }
        while n < cap
            invariant
                v == old(self)@,
                v.wf(),
                engine == old(self).engine,
                self.engine == old(self).engine,
                self.window == old(self).window,
                self.last_logits == old(self).last_logits,
                self.debug == old(self).debug,
                0 <= start,
                start + cap <= i32::MAX,
                n <= cap,
                n == toks.len(),
                logits@ == row_at(v, fed, self@.answers, n as int),
                logits@.len() == v.width,
                text@ == spoken(engine, toks, mode),
                self@ == (LobeView {
                    calls: v.calls + trickle(toks, start as int),
                    answers: self@.answers,
                    ..v
                }),
                continues(v, self@),
                self@.answers.len() == v.answers.len() + n,
                all_made(v.calls, self@.calls),
                forall|i: int|
                    0 <= i < toks.len() ==> greedy(
                        row_at(v, fed, self@.answers, i),
                        (#[trigger] toks[i]).0 as int,
                    ) && !closes(engine, v, toks[i]),
                until_call ==> forall|i: int|
                    0 < i <= toks.len() ==> !called(#[trigger] spoken(engine, toks.take(i), mode)),
            decreases cap - n,
        {
            let tok = argmax(&logits);
            if self.engine.is_eog(tok) || closes_turn(self.eot, tok) {
                proof {
                    assert(greedy(
                        row_at(v, fed, self@.answers, toks.len() as int),
                        tok.0 as int,
                    ) && closes(engine, v, tok));
                    assert(speaks(
                        engine,
                        v,
                        fed,
                        self@.answers,
                        toks,
                        cap as nat,
                        mode,
                        until_call,
                    ));
                }
                return Ok((text, n));
            }
            text.append(self.engine.detok(tok, mode).as_str());
            let mut one: Vec<Token> = Vec::new();
            one.push(tok);
            assert(one@ =~= seq![tok]);
            let ghost before = self@;
            let ghost chosen_from = logits@;
            proof {
                lemma_feeds_succeed(one@, 0, start + n, GEN_SEQ);
                lemma_one_pass(tok, start + n);
            }
            logits = match self.decode_seq(&one, start + n as i32, GEN_SEQ) {
                Ok(row) => row,
                Err(e) => {
                    proof {
                        lemma_continues_trans(v, before, self@);
                        lemma_cut_short_broke(
                            before.calls,
                            feeds(one@, 0, start + n, GEN_SEQ),
                            self@.calls,
                        );
                        lemma_made_then_broke(v.calls, before.calls, self@.calls);
                    }
                    return Err(e);
                },
            };
            proof {
                lemma_continues_trans(v, before, self@);
                let grown = toks.push(tok);
                assert(grown.drop_last() =~= toks);
                assert(v.calls + trickle(grown, start as int) =~= v.calls + trickle(
                    toks,
                    start as int,
                ) + feeds(seq![tok], 0, start + n, GEN_SEQ));
                lemma_made_more(v.calls, before.calls, feeds(seq![tok], 0, start + n, GEN_SEQ));
                assert(grown.map_values(|t: Token| engine.text_of(t, mode)).drop_last()
                    =~= toks.map_values(|t: Token| engine.text_of(t, mode)));
                assert(spoken(engine, grown, mode) =~= spoken(engine, toks, mode)
                    + engine.text_of(tok, mode));
                assert forall|i: int| 0 <= i < grown.len() implies greedy(
                    row_at(v, fed, self@.answers, i),
                    (#[trigger] grown[i]).0 as int,
                ) && !closes(engine, v, grown[i]) by {
                    if i > 0 {
                        let k = v.answers.len() + i - 1;
                        assert(self@.answers.take(before.answers.len() as int)[k]
                            == self@.answers[k]);
                    }
                    assert(row_at(v, fed, self@.answers, i) == row_at(v, fed, before.answers, i));
                    if i < toks.len() {
                        assert(grown[i] == toks[i]);
                    } else {
                        assert(row_at(v, fed, before.answers, i) == chosen_from);
                    }
                }
                if until_call {
                    assert forall|i: int| 0 < i < grown.len() implies !called(
                        #[trigger] spoken(engine, grown.take(i), mode),
                    ) by {
                        assert(grown.take(i) =~= toks.take(i));
                        assert(!called(spoken(engine, toks.take(i), mode)));
                    }
                }
                toks = grown;
            }
            n = n + 1;
            if until_call && contains(text.as_str(), "<tool_call|>") {
                assert(speaks(engine, v, fed, self@.answers, toks, cap as nat, mode, until_call));
                return Ok((text, n));
            }
            proof {
                if until_call {
                    assert forall|i: int| 0 < i <= toks.len() implies !called(
                        #[trigger] spoken(engine, toks.take(i), mode),
                    ) by {
                        if i == toks.len() {
                            assert(toks.take(i) =~= toks);
                        }
                    }
                }
            }
        }
        assert(speaks(engine, v, fed, self@.answers, toks, cap as nat, mode, until_call));
        Ok((text, n))
    }

    /// Let the model look something up. It is offered the search tool together with the recent text
    /// and the token that stood out, and thinks aloud. Where it calls for a search and `retrieve` finds
    /// something, the result is fed back inside its turn and it speaks again. All of it runs on the
    /// scratch sequence.
    #[verifier::rlimit(40)]
    pub fn rag<F: Fn(Source, &str) -> Option<String>>(
        &mut self,
        surprising: &str,
        max: usize,
        retrieve: &F,
    ) -> (r: Result<RagOutcome, LobeError>)
        requires
            old(self)@.wf(),
            forall|s: Source, q: &str| #[trigger] retrieve.requires((s, q)),
        ensures
            match r {
                Ok(out) => consulted(
                    old(self).engine,
                    *retrieve,
                    old(self)@,
                    surprising@,
                    max as nat,
                    final(self)@,
                    out,
                ),
                Err(e) => not_consulted(
                    old(self).engine,
                    *retrieve,
                    old(self)@,
                    surprising@,
                    max as nat,
                    final(self)@,
                    e,
                ),
            },
            continues(old(self)@, final(self)@),
            final(self)@.wf(),
            final(self)@ == (LobeView {
                calls: final(self)@.calls,
                answers: final(self)@.answers,
                ..old(self)@
            }),
            final(self).engine == old(self).engine,
            final(self).window == old(self).window,
            final(self).last_logits == old(self).last_logits,
            final(self).debug == old(self).debug,
    {
        let ghost v = self@;
        let ghost engine = self.engine;
        match self.session.clear_seq(GEN_SEQ) {
            Ok(()) => {},
            Err(e) => {
                assert(self@.calls.take(v.calls.len() as int) =~= v.calls);
                assert(self@.answers.take(v.answers.len() as int) =~= v.answers);
                return Err(LobeError::Backend(e));
            },
        }
        let ghost cleared = self@;
        assert(cleared.calls.take(v.calls.len() as int) =~= v.calls);
        assert(cleared.answers.take(v.answers.len() as int) =~= v.answers);
        let recent = concat_all(&self.recent);
        let prompt = rag_prompt(trim(word_aligned(recent.as_str())), surprising);
        let toks = match self.tokenize(prompt.as_str(), true) {
            Ok(toks) => toks,
            Err(e) => {
                return Err(e);
            },
        };
        if toks.len() == 0 {
            assert(toks@ =~= Seq::empty());
            return Err(LobeError::EmptyPrompt);
        }
        if toks.len() > i32::MAX as usize {
            return Err(LobeError::TooLong);
        }
        let ghost ask = toks@;
        proof {
            lemma_feeds_succeed(ask, 0, 0, GEN_SEQ);
        }
        let logits = match self.decode_seq(&toks, 0, GEN_SEQ) {
            Ok(row) => row,
            Err(e) => {
                proof {
                    lemma_continues_trans(v, cleared, self@);
                    lemma_cut_short_broke(cleared.calls, feeds(ask, 0, 0, GEN_SEQ), self@.calls);
                    lemma_made_then_broke(v.calls, cleared.calls, self@.calls);
                }
                return Err(e);
            },
        };
        let ghost heeded = self@;
        proof {
            lemma_continues_trans(v, cleared, heeded);
            lemma_made_more(v.calls, cleared.calls, feeds(ask, 0, 0, GEN_SEQ));
        }
        let start: i32 = toks.len() as i32;
        let cap: usize = capped(start, max);
        let (raw, produced) = match self.speak(
            logits,
            Ghost(ask.len() as int),
            start,
            cap,
            Detok::Text,
            true,
        ) {
            Ok(p) => p,
            Err(e) => {
                proof {
                    lemma_continues_trans(v, heeded, self@);
                    lemma_made_then_broke(v.calls, heeded.calls, self@.calls);
                }
                return Err(e);
            },
        };
        let ghost heard = self@;
        let ghost first = choose|t: Seq<Token>|
            {
                &&& #[trigger] speaks(
                    engine,
                    heeded,
                    ask.len() as int,
                    heard.answers,
                    t,
                    cap as nat,
                    Detok::Text,
                    true,
                )
                &&& produced == t.len()
                &&& raw@ == spoken(engine, t, Detok::Text)
                &&& heard == (LobeView {
                    calls: heeded.calls + trickle(t, ask.len() as int),
                    answers: heard.answers,
                    ..heeded
                })
            };
        proof {
            lemma_continues_trans(v, heeded, heard);
            lemma_made_trans(v.calls, heeded.calls, heard.calls);
            lemma_continues_self(heard);
            lemma_thinks_still(engine, v, heeded, heard, heard, ask, first, max as nat);
        }
        if produced == cap && cap < max {
            return Err(LobeError::TooLong);
        }
        let mut outcome = parse_rag_output(raw.as_str());
        let mut found: Option<String> = None;
        match &outcome.directive {
            None => {},
            Some(d) => {
                let q = d.query.as_str();
                found = retrieve(d.source, q);
                let ghost sought = (d.source, d.query@);
                assert(q@ == sought.1 && retrieve.ensures((sought.0, q), found));
                assert(finds(
                    *retrieve,
                    (d.source, d.query@),
                    match found {
                        Some(s) => Some(s@),
                        None => None,
                    },
                ));
            },
        }
        match found {
            None => {
                match self.session.clear_seq(GEN_SEQ) {
                    Ok(()) => {},
                    Err(e) => {
                        proof {
                            lemma_cleared_last(v, heard, self@);
                        }
                        return Err(LobeError::Backend(e));
                    },
                }
                proof {
                    lemma_cleared_last(v, heard, self@);
                    lemma_thinks_still(engine, v, heeded, heard, self@, ask, first, max as nat);
                }
                Ok(outcome)
            },
            Some(snippet) => {
                let pos: i32 = start + produced as i32;
                let resp = match self.reply(snippet.as_str(), pos, max) {
                    Ok(resp) => resp,
                    Err(e) => {
                        proof {
                            lemma_continues_trans(v, heard, self@);
                            if broke(heard.calls, self@.calls) {
                                lemma_made_then_broke(v.calls, heard.calls, self@.calls);
                            }
                            let tokens = engine.tokens_of(search_answer(snippet@), false);
                            lemma_thinks_still(engine, v, heeded, heard, self@, ask, first, max as nat);
                            if e is TooLong && self@ != heard {
                                let bridge = tokens->0;
                                let second = choose|t: Seq<Token>|
                                    {
                                        &&& #[trigger] replies(
                                            engine,
                                            heard,
                                            bridge,
                                            pos as int,
                                            max as nat,
                                            self@.answers,
                                            t,
                                        )
                                        &&& overran(t.len(), pos + bridge.len(), max as nat)
                                        &&& self@ == replied(
                                            heard,
                                            bridge,
                                            pos as int,
                                            t,
                                            self@.answers,
                                        )
                                    };
                                assert(talked_out(
                                    engine,
                                    *retrieve,
                                    v,
                                    ask,
                                    max as nat,
                                    self@,
                                    first,
                                    snippet@,
                                    second,
                                ));
                            } else if self@ == heard {
                                assert(stuck(
                                    engine,
                                    *retrieve,
                                    v,
                                    ask,
                                    max as nat,
                                    self@,
                                    first,
                                    snippet@,
                                    tokens,
                                ));
                            }
                        }
                        return Err(e);
                    },
                };
                proof {
                    lemma_continues_trans(v, heard, self@);
                    lemma_thinks_still(engine, v, heeded, heard, self@, ask, first, max as nat);
                }
                outcome.retrieved = Some(snippet);
                outcome.response = Some(resp);
                Ok(outcome)
            },
        }
    }

    /// Tell the model what was found, let it speak again, and drop the scratch sequence.
    #[verifier::rlimit(40)]
    fn reply(&mut self, found: &str, pos: i32, max: usize) -> (r: Result<String, LobeError>)
        requires
            old(self)@.wf(),
            0 <= pos,
        ensures
            ({
                let tokens = old(self).engine.tokens_of(search_answer(found@), false);
                let stayed = final(self)@ == old(self)@;
                match r {
                    Ok(text) => told(
                        old(self).engine,
                        old(self)@,
                        pos as int,
                        found@,
                        max as nat,
                        final(self)@,
                        Some(text),
                    ),
                    Err(LobeError::Backend(_)) => {
                        ||| broke(old(self)@.calls, final(self)@.calls)
                        ||| tokens is None && stayed
                    },
                    Err(LobeError::EmptyPrompt) => tokens == Some(Seq::<Token>::empty()) && stayed,
                    Err(LobeError::TooLong) => tokens matches Some(bridge) && if stayed {
                        pos + bridge.len() > i32::MAX
                    } else {
                        exists|second: Seq<Token>|
                            {
                                &&& #[trigger] replies(
                                    old(self).engine,
                                    old(self)@,
                                    bridge,
                                    pos as int,
                                    max as nat,
                                    final(self)@.answers,
                                    second,
                                )
                                &&& overran(second.len(), pos + bridge.len(), max as nat)
                                &&& final(self)@ == replied(
                                    old(self)@,
                                    bridge,
                                    pos as int,
                                    second,
                                    final(self)@.answers,
                                )
                            }
                    },
                }
            }),
            continues(old(self)@, final(self)@),
            final(self)@.wf(),
            final(self)@ == (LobeView {
                calls: final(self)@.calls,
                answers: final(self)@.answers,
                ..old(self)@
            }),
            final(self).engine == old(self).engine,
            final(self).window == old(self).window,
            final(self).last_logits == old(self).last_logits,
            final(self).debug == old(self).debug,
    {
        let ghost v = self@;
        let ghost engine = self.engine;
        assert(v.calls.take(v.calls.len() as int) =~= v.calls);
        assert(v.answers.take(v.answers.len() as int) =~= v.answers);
        let text = rag_tool_response(found);
        let toks = match self.tokenize(text.as_str(), false) {
            Ok(toks) => toks,
            Err(e) => {
                return Err(e);
            },
        };
        if toks.len() == 0 {
            assert(toks@ =~= Seq::empty());
            return Err(LobeError::EmptyPrompt);
        }
        if toks.len() > i32::MAX as usize - pos as usize {
            return Err(LobeError::TooLong);
        }
        let ghost bridge = toks@;
        proof {
            lemma_feeds_succeed(bridge, 0, pos as int, GEN_SEQ);
        }
        let logits = match self.decode_seq(&toks, pos, GEN_SEQ) {
            Ok(row) => row,
            Err(e) => {
                proof {
                    lemma_cut_short_broke(
                        v.calls,
                        feeds(bridge, 0, pos as int, GEN_SEQ),
                        self@.calls,
                    );
                }
                return Err(e);
            },
        };
        let ghost crossed = self@;
        proof {
            lemma_made_more(v.calls, v.calls, feeds(bridge, 0, pos as int, GEN_SEQ));
        }
        let start: i32 = pos + toks.len() as i32;
        let cap: usize = capped(start, max);
        let (resp, count) = match self.speak(
            logits,
            Ghost(bridge.len() as int),
            start,
            cap,
            Detok::Plain,
            false,
        ) {
            Ok(p) => p,
            Err(e) => {
                proof {
                    lemma_continues_trans(v, crossed, self@);
                    lemma_made_then_broke(v.calls, crossed.calls, self@.calls);
                }
                return Err(e);
            },
        };
        let ghost said = self@;
        let ghost second = choose|t: Seq<Token>|
            {
                &&& #[trigger] speaks(
                    engine,
                    crossed,
                    bridge.len() as int,
                    said.answers,
                    t,
                    cap as nat,
                    Detok::Plain,
                    false,
                )
                &&& count == t.len()
                &&& resp@ == spoken(engine, t, Detok::Plain)
                &&& said == (LobeView {
                    calls: crossed.calls + trickle(t, start as int),
                    answers: said.answers,
                    ..crossed
                })
            };
        proof {
            lemma_continues_trans(v, crossed, said);
            lemma_made_trans(v.calls, crossed.calls, said.calls);
            lemma_continues_self(said);
            lemma_replies_still(engine, v, crossed, said, said, bridge, pos as int, second, max as nat);
        }
        if count == cap && cap < max {
            assert(said.calls.len() > v.calls.len());
            return Err(LobeError::TooLong);
        }
        match self.session.clear_seq(GEN_SEQ) {
            Ok(()) => {},
            Err(e) => {
                proof {
                    lemma_cleared_last(v, said, self@);
                }
                return Err(LobeError::Backend(e));
            },
        }
        proof {
            lemma_cleared_last(v, said, self@);
            lemma_replies_still(
                engine,
                v,
                crossed,
                said,
                self@,
                bridge,
                pos as int,
                second,
                max as nat,
            );
        }
        Ok(trim(resp.as_str()).to_owned())
    }
}

/// Dropping the scratch sequence after calls that succeeded.
proof fn lemma_cleared_last(v: LobeView, before: LobeView, after: LobeView)
    requires
        all_made(v.calls, before.calls),
        continues(v, before),
        after.answers == before.answers.push(Seq::empty()),
        after.calls == before.calls.push(KvCall::Clear { seq: GEN_SEQ, ok: true }) || after.calls
            == before.calls.push(KvCall::Clear { seq: GEN_SEQ, ok: false }),
    ensures
        continues(v, after),
        continues(before, after),
        after.calls.last() == (KvCall::Clear { seq: GEN_SEQ, ok: false }) ==> broke(
            v.calls,
            after.calls,
        ),
{
    assert(after.answers.take(before.answers.len() as int) =~= before.answers);
    lemma_continues_trans(v, before, after);
    if after.calls.last() == (KvCall::Clear { seq: GEN_SEQ, ok: false }) {
        lemma_made_then_failed(v.calls, before.calls, KvCall::Clear { seq: GEN_SEQ, ok: false });
    }
}

/// What the model thought aloud is on record in every history that goes on from there.
proof fn lemma_thinks_still<B: Backend>(
    engine: &B,
    v: LobeView,
    heeded: LobeView,
    heard: LobeView,
    after: LobeView,
    ask: Seq<Token>,
    first: Seq<Token>,
    max: nat,
)
    requires
        v.answers.len() == v.calls.len(),
        heeded == (LobeView {
            calls: v.scratched().calls + feeds(ask, 0, 0, GEN_SEQ),
            answers: heeded.answers,
            ..v
        }),
        heard == (LobeView {
            calls: heeded.calls + trickle(first, ask.len() as int),
            answers: heard.answers,
            ..heeded
        }),
        heeded.answers.len() == heeded.calls.len(),
        continues(heeded, heard),
        continues(heard, after),
        speaks(
            engine,
            heeded,
            ask.len() as int,
            heard.answers,
            first,
            cap_at(ask.len() as int, max),
            Detok::Text,
            true,
        ),
    ensures
        thinks(engine, v, ask, max, after.answers, first),
        heard == thought_aloud(v, ask, first, after.answers),
{
    lemma_continues_trans(heeded, heard, after);
    lemma_trickle_len(first, ask.len() as int);
    assert(heeded == asked(v, ask, after.answers));
    lemma_speaks_alike(
        engine,
        heeded,
        heeded,
        ask.len() as int,
        heard.answers,
        after.answers,
        first,
        cap_at(ask.len() as int, max),
        Detok::Text,
        true,
    );
}

/// What the model replied is on record in every history that goes on from there.
proof fn lemma_replies_still<B: Backend>(
    engine: &B,
    v: LobeView,
    crossed: LobeView,
    said: LobeView,
    after: LobeView,
    bridge: Seq<Token>,
    pos: int,
    second: Seq<Token>,
    max: nat,
)
    requires
        v.answers.len() == v.calls.len(),
        crossed == (LobeView {
            calls: v.calls + feeds(bridge, 0, pos, GEN_SEQ),
            answers: crossed.answers,
            ..v
        }),
        said == (LobeView {
            calls: crossed.calls + trickle(second, (pos + bridge.len()) as int),
            answers: said.answers,
            ..crossed
        }),
        crossed.answers.len() == crossed.calls.len(),
        continues(crossed, said),
        continues(said, after),
        speaks(
            engine,
            crossed,
            bridge.len() as int,
            said.answers,
            second,
            cap_at((pos + bridge.len()) as int, max),
            Detok::Plain,
            false,
        ),
    ensures
        replies(engine, v, bridge, pos, max, after.answers, second),
        said == replied(v, bridge, pos, second, after.answers),
{
    lemma_continues_trans(crossed, said, after);
    lemma_trickle_len(second, (pos + bridge.len()) as int);
    assert(crossed == bridged(v, bridge, pos, after.answers));
    lemma_speaks_alike(
        engine,
        crossed,
        crossed,
        bridge.len() as int,
        said.answers,
        after.answers,
        second,
        cap_at((pos + bridge.len()) as int, max),
        Detok::Plain,
        false,
    );
}

/// How many tokens can be spoken from `start` on where `max` are wanted.
fn capped(start: i32, max: usize) -> (cap: usize)
    requires
        0 <= start,
    ensures
        cap == cap_at(start as int, max as nat),
        start + cap <= i32::MAX,
{
    let left: usize = i32::MAX as usize - start as usize;
    if max <= left {
        max
    } else {
        left
    }
}

fn closes_turn(eot: Option<Token>, tok: Token) -> (r: bool)
    ensures
        r == (eot == Some(tok)),
{
    match eot {
        Some(t) => t == tok,
        None => false,
    }
}

// ---------------------------------------------------------------------------------------------
// Laws
// ---------------------------------------------------------------------------------------------

/// Does `c` stand nowhere in a text?
spec fn lacks(s: Seq<char>, c: char) -> bool
    decreases s.len(),
{
    s.len() == 0 || (s.last() != c && lacks(s.drop_last(), c))
}

proof fn lemma_lacks(s: Seq<char>, c: char)
    requires
        lacks(s, c),
    ensures
        forall|i: int| 0 <= i < s.len() ==> #[trigger] s[i] != c,
    decreases s.len(),
{
    if s.len() > 0 {
        lemma_lacks(s.drop_last(), c);
        assert forall|i: int| 0 <= i < s.len() implies #[trigger] s[i] != c by {
            if i < s.len() - 1 {
                assert(s.drop_last()[i] == s[i]);
            }
        }
    }
}

/// Reading undoes writing: what is fed back as the answer of a search is read back from it to the
/// letter, unless it holds the mark that closes it.
pub proof fn lemma_reading_undoes_writing(s: Seq<char>)
    requires
        !contains_text(s, "<|\"|>"@),
    ensures
        tool_arg(search_answer(s), "value"@) == Some(s),
{
    reveal_strlit("<|tool_response>response:search{value:<|\"|>");
    reveal_strlit("<|\"|>}<tool_response|>");
    reveal_strlit("<|\"|>");
    reveal_strlit(":<|\"|>");
    reveal_strlit("value");
    let quote = "<|\"|>"@;
    let pre = "<|tool_response>response:search{value:<|\"|>"@;
    let post = "<|\"|>}<tool_response|>"@;
    let pat = "value"@ + ":<|\"|>"@;
    let whole = search_answer(s);
    let at = pre.len() - pat.len();
    let head = pre.take(at);
    assert(lacks(head, 'v')) by {
        reveal_with_fuel(lacks, 34);
    }
    lemma_lacks(head, 'v');
    assert(whole.subrange(at, at + pat.len()) =~= pat);
    assert forall|j: int| 0 <= j < at implies !occurs_at(whole, pat, j) by {
        if occurs_at(whole, pat, j) {
            assert(whole.subrange(j, j + pat.len())[0] == whole[j]);
            assert(whole[j] == head[j]);
            assert(pat[0] == 'v');
        }
    }
    lemma_first_is_one(whole, pat, at);
    let rest = s + post;
    assert(whole.skip(at + pat.len()) =~= rest);
    let n = s.len() as int;
    assert(rest.subrange(n, n + quote.len()) =~= quote);
    assert forall|j: int| 0 <= j < n implies !occurs_at(rest, quote, j) by {
        if occurs_at(rest, quote, j) {
            if j + quote.len() <= n {
                assert(s.subrange(j, j + quote.len()) =~= rest.subrange(j, j + quote.len()));
                assert(occurs_at(s, quote, j));
            } else {
                assert(rest.subrange(j, j + quote.len())[n - j] == rest[n]);
                assert(rest[n] == post[0]);
            }
        }
    }
    lemma_first_is_one(rest, quote, n);
    assert(rest.take(n) =~= s);
}

/// An argument that is opened and never closed is none.
pub proof fn lemma_an_open_argument_is_none(s: Seq<char>, key: Seq<char>)
    requires
        after_first(s, key + ":<|\"|>"@) matches Some(rest) ==> !contains_text(rest, "<|\"|>"@),
    ensures
        tool_arg(s, key) is None,
{
}

/// `pat` stands in `s` at `i`, and nowhere before.
pub open spec fn starts_at(s: Seq<char>, pat: Seq<char>, i: int) -> bool {
    &&& 0 <= i
    &&& i + pat.len() <= s.len()
    &&& s.subrange(i, i + pat.len()) == pat
    &&& forall|j: int| 0 <= j < i ==> #[trigger] s.subrange(j, j + pat.len()) != pat
}

proof fn lemma_starts(s: Seq<char>, pat: Seq<char>, i: int)
    requires
        starts_at(s, pat, i),
    ensures
        after_first(s, pat) == Some(s.skip(i + pat.len())),
        before_first(s, pat) == s.take(i),
{
    assert(first_at(s, pat, i));
    lemma_first_is_one(s, pat, i);
}

proof fn lemma_starts_somewhere(s: Seq<char>, pat: Seq<char>) -> (i: int)
    requires
        contains_text(s, pat),
    ensures
        starts_at(s, pat, i),
{
    let k = choose|k: int| occurs_at(s, pat, k);
    lemma_starts_before(s, pat, k)
}

proof fn lemma_starts_before(s: Seq<char>, pat: Seq<char>, k: int) -> (i: int)
    requires
        occurs_at(s, pat, k),
    ensures
        starts_at(s, pat, i),
    decreases k,
{
    if exists|j: int| 0 <= j < k && #[trigger] s.subrange(j, j + pat.len()) == pat {
        let j = choose|j: int| 0 <= j < k && #[trigger] s.subrange(j, j + pat.len()) == pat;
        lemma_starts_before(s, pat, j)
    } else {
        k
    }
}

/// `value` stands in a call behind the first `opening` and before the first `<|"|>` after it.
pub open spec fn quoted_behind(call: Seq<char>, opening: Seq<char>, value: Seq<char>) -> bool {
    exists|i: int, n: int|
        {
            &&& #[trigger] starts_at(call, opening, i)
            &&& #[trigger] starts_at(
                call.skip(i + opening.len()),
                "<|\"|>"@,
                n,
            )
            &&& value == call.subrange(i + opening.len(), i + opening.len() + n)
        }
}

proof fn lemma_quoted(call: Seq<char>, key: Seq<char>, opening: Seq<char>)
    requires
        opening == key + ":<|\"|>"@,
    ensures
        forall|v: Seq<char>| #[trigger]
            quoted_behind(call, opening, v) <==> tool_arg(call, key) == Some(v),
{
    let close = "<|\"|>"@;
    assert forall|v: Seq<char>| #[trigger] quoted_behind(call, opening, v) <==> tool_arg(call, key)
        == Some(v) by {
        if quoted_behind(call, opening, v) {
            let (i, n) = choose|i: int, n: int|
                {
                    &&& #[trigger] starts_at(call, opening, i)
                    &&& #[trigger] starts_at(
                        call.skip(i + opening.len()),
                        "<|\"|>"@,
                        n,
                    )
                    &&& v == call.subrange(i + opening.len(), i + opening.len() + n)
                };
            lemma_starts(call, opening, i);
            let rest = call.skip(i + opening.len());
            lemma_starts(rest, close, n);
            assert(occurs_at(rest, close, n));
            assert(rest.take(n) =~= v);
        }
        if tool_arg(call, key) == Some(v) {
            let i = lemma_starts_somewhere(call, opening);
            lemma_starts(call, opening, i);
            let rest = call.skip(i + opening.len());
            let n = lemma_starts_somewhere(rest, close);
            lemma_starts(rest, close, n);
            assert(rest.take(n) =~= call.subrange(i + opening.len(), i + opening.len() + n));
            assert(starts_at(call, opening, i) && starts_at(
                call.skip(i + opening.len()),
                "<|\"|>"@,
                n,
            ));
        }
    }
}

/// The three letters r, a and g, in whatever case.
pub open spec fn spells_rag(s: Seq<char>) -> bool {
    s.len() == 3 && (s == seq!['r', 'a', 'g'] || s == seq!['r', 'a', 'G'] || s == seq!['r', 'A', 'g']
        || s == seq!['r', 'A', 'G'] || s == seq!['R', 'a', 'g'] || s == seq!['R', 'a', 'G'] || s
        == seq!['R', 'A', 'g'] || s == seq!['R', 'A', 'G'])
}

proof fn lemma_spelling(s: Seq<char>)
    ensures
        spells_rag(s) == says_rag(s),
{
    if s.len() == 3 {
        assert(s =~= seq![s[0], s[1], s[2]]);
    }
}

/// What is read out of what the model wrote. Where it called nothing, all of it is thought. Else the
/// thought is what stands before the first call; there is a search exactly where the call has a closed
/// `query`, and it asks for what stands in there. It looks into the knowledge base if and only if the
/// call's `source` spells "rag", in whatever case; any other source, and none, is this session.
pub proof fn lemma_a_call_is_read_as_it_stands(raw: &str, o: RagOutcome, i: int)
    requires
        call_ensures(parse_rag_output, (raw,), o),
    ensures
        ({
            let mark = "<|tool_call>"@;
            let call = raw@.skip(i + mark.len());
            &&& starts_at(raw@, mark, i) ==> {
                &&& o.thought@ == trimmed(raw@.take(i))
                &&& o.directive is Some <==> exists|q: Seq<char>| #[trigger]
                    quoted_behind(call, "query:<|\"|>"@, q)
                &&& o.directive matches Some(d) ==> {
                    &&& forall|q: Seq<char>| #[trigger]
                        quoted_behind(call, "query:<|\"|>"@, q) ==> d.query@ == trimmed(q)
                    &&& d.source == Source::Rag <==> exists|s: Seq<char>| #[trigger]
                        quoted_behind(call, "source:<|\"|>"@, s) && spells_rag(trimmed(s))
                }
            }
            &&& (forall|k: int| !#[trigger] starts_at(raw@, mark, k)) ==> o.directive is None
                && o.thought@ == trimmed(raw@)
        }),
{
    let mark = "<|tool_call>"@;
    let call = raw@.skip(i + mark.len());
    reveal_strlit("query");
    reveal_strlit("source");
    reveal_strlit(":<|\"|>");
    reveal_strlit("query:<|\"|>");
    reveal_strlit("source:<|\"|>");
    assert("query:<|\"|>"@ =~= "query"@ + ":<|\"|>"@);
    assert("source:<|\"|>"@ =~= "source"@ + ":<|\"|>"@);
    lemma_quoted(call, "query"@, "query:<|\"|>"@);
    lemma_quoted(call, "source"@, "source:<|\"|>"@);
    if starts_at(raw@, mark, i) {
        lemma_starts(raw@, mark, i);
        assert forall|s: Seq<char>| spells_rag(s) == says_rag(s) by {
            lemma_spelling(s);
        }
        if let Some(q) = tool_arg(call, "query"@) {
            assert(quoted_behind(call, "query:<|\"|>"@, q));
        }
        if let Some(s) = tool_arg(call, "source"@) {
            assert(quoted_behind(call, "source:<|\"|>"@, s));
        }
    }
    if forall|k: int| !#[trigger] starts_at(raw@, mark, k) {
        if contains_text(raw@, mark) {
            let k = lemma_starts_somewhere(raw@, mark);
            assert(starts_at(raw@, mark, k));
        }
    }
}

/// An argument of a call is what stands between the first quotes behind its name; there is none where
/// the name or the closing quote is missing.
pub proof fn lemma_an_argument_stands_between_quotes(s: &str, key: &str, r: Option<&str>)
    requires
        call_ensures(extract_tool_arg, (s, key), r),
    ensures
        r is Some <==> exists|v: Seq<char>| #[trigger]
            quoted_behind(s@, key@ + ":<|\"|>"@, v),
        r matches Some(a) ==> quoted_behind(s@, key@ + ":<|\"|>"@, a@),
{
    lemma_quoted(s@, key@, key@ + ":<|\"|>"@);
    if let Some(v) = tool_arg(s@, key@) {
        assert(quoted_behind(s@, key@ + ":<|\"|>"@, v));
    }
}

/// One pass for each token of a run, at the positions from `start` on, on sequence 1.
pub open spec fn one_by_one(toks: Seq<Token>, start: int) -> Seq<KvCall> {
    Seq::new(
        toks.len(),
        |i: int|
            KvCall::Decode {
                batch: seq![
                    Decode { token: toks[i], pos: (start + i) as i32, seq: 1, logits: true },
                ],
                ok: true,
            },
    )
}

proof fn lemma_feeding_one(tok: Token, pos: int)
    ensures
        feeds(seq![tok], 0, pos, GEN_SEQ) == seq![
            KvCall::Decode {
                batch: seq![Decode { token: tok, pos: pos as i32, seq: 1, logits: true }],
                ok: true,
            },
        ],
{
    reveal_with_fuel(feeds, 2);
    let batch = crate::lobe::model::feed_batch(seq![tok], 0, 1, pos, GEN_SEQ);
    assert(batch =~= seq![Decode { token: tok, pos: pos as i32, seq: 1, logits: true }]);
    assert(feeds(seq![tok], 1, pos, GEN_SEQ) =~= Seq::empty());
    assert(feeds(seq![tok], 0, pos, GEN_SEQ) =~= seq![KvCall::Decode { batch, ok: true }]);
}

proof fn lemma_trickle_is_one_by_one(toks: Seq<Token>, start: int)
    ensures
        trickle(toks, start) == one_by_one(toks, start),
    decreases toks.len(),
{
    if toks.len() > 0 {
        lemma_trickle_is_one_by_one(toks.drop_last(), start);
        lemma_feeding_one(toks.last(), start + toks.len() - 1);
        assert(trickle(toks, start) =~= one_by_one(toks, start));
    } else {
        assert(trickle(toks, start) =~= one_by_one(toks, start));
    }
}

/// The token neither ends the generation nor closes the turn.
pub open spec fn speaks_on<B: Backend>(engine: &B, v: LobeView, tok: Token) -> bool {
    !engine.ends_generation(tok) && Some(tok) != v.eot
}

/// A run of tokens was spoken by choosing the greatest logit each time: `row` gives the rows, one for
/// each token and the one after them. None of the tokens ends the turn, and there are at most `max`.
pub open spec fn greedily<B: Backend>(
    engine: &B,
    v: LobeView,
    toks: Seq<Token>,
    max: nat,
    row: spec_fn(int) -> Seq<F32>,
) -> bool {
    &&& toks.len() <= max
    &&& forall|i: int|
        0 <= i < toks.len() ==> greedy(row(i), (#[trigger] toks[i]).0 as int) && speaks_on(
            engine,
            v,
            toks[i],
        )
}

/// The greatest logit of the row ends the turn.
pub open spec fn would_end<B: Backend>(engine: &B, v: LobeView, row: Seq<F32>) -> bool {
    exists|t: Token| #[trigger] greedy(row, t.0 as int) && !speaks_on(engine, v, t)
}

/// A search pass drops the scratch sequence and feeds the ask from position zero on. The model then
/// speaks greedily, at most `max` tokens, and stops early only where it would end its turn or has closed
/// a call; the first that closes one is its last. What it thought and asked for is read off that text.
/// Nothing is looked up where it asked for nothing. Where nothing is found that is all; else what was
/// found is fed behind it as the answer of the tool, and the model speaks again, at most `max` tokens,
/// and stops early only where it would end its turn; that text, trimmed, is the response. Each token it
/// speaks is fed in a pass of its own, and in the end the scratch sequence is dropped.
pub proof fn lemma_how_a_search_goes<B: Backend, F: Fn(Source, &str) -> Option<String>>(
    engine: &B,
    retrieve: F,
    v: LobeView,
    surprising: Seq<char>,
    max: nat,
    after: LobeView,
    out: RagOutcome,
) -> (said: (Seq<Token>, Seq<Token>, Seq<Token>, Seq<Token>))
    requires
        consulted(engine, retrieve, v, surprising, max, after, out),
        v.answers.len() == v.calls.len(),
    ensures
        ({
            let (ask, first, bridge, second) = said;
            let raw = spoken(engine, first, Detok::Text);
            let n = (v.calls.len() + 1 + feeds(ask, 0, 0, 1).len()) as int;
            let row1 = |i: int|
                if i == 0 {
                    last_row(after.answers.take(n), ask.len() as int)
                } else {
                    after.answers[n + i - 1][0]
                };
            let m = (n + first.len() + feeds(
                bridge,
                0,
                (ask.len() + first.len()) as int,
                1,
            ).len()) as int;
            let row2 = |i: int|
                if i == 0 {
                    last_row(after.answers.take(m), bridge.len() as int)
                } else {
                    after.answers[m + i - 1][0]
                };
            &&& engine.tokens_of(search_ask(trimmed(aligned(concat(v.recent))), surprising), true)
                == Some(ask)
            &&& ask.len() > 0
            &&& greedily(engine, v, first, max, row1)
            &&& forall|i: int|
                0 < i < first.len() ==> !contains_text(
                    #[trigger] spoken(engine, first.take(i), Detok::Text),
                    "<tool_call|>"@,
                )
            &&& first.len() < max ==> would_end(engine, v, row1(first.len() as int)) || contains_text(
                raw,
                "<tool_call|>"@,
            )
            &&& out.thought@ == thought_in(raw)
            &&& directive_view(out.directive) == directive_in(raw)
            &&& out.response is Some <==> out.retrieved is Some
            &&& out.directive is None ==> out.retrieved is None
            &&& out.retrieved is None && out.directive is Some ==> finds(
                retrieve,
                directive_in(raw)->Some_0,
                None,
            )
            &&& out.retrieved is None ==> after.calls == v.calls + seq![
                KvCall::Clear { seq: 1, ok: true },
            ] + feeds(ask, 0, 0, 1) + one_by_one(first, ask.len() as int) + seq![
                KvCall::Clear { seq: 1, ok: true },
            ]
            &&& out.retrieved matches Some(found) ==> {
                &&& finds(retrieve, directive_in(raw)->Some_0, Some(found@))
                &&& engine.tokens_of(search_answer(found@), false) == Some(bridge)
                &&& bridge.len() > 0
                &&& greedily(engine, v, second, max, row2)
                &&& second.len() < max ==> would_end(engine, v, row2(second.len() as int))
                &&& out.response->Some_0@ == trimmed(spoken(engine, second, Detok::Plain))
                &&& after.calls == v.calls + seq![KvCall::Clear { seq: 1, ok: true }] + feeds(
                    ask,
                    0,
                    0,
                    1,
                ) + one_by_one(first, ask.len() as int) + feeds(
                    bridge,
                    0,
                    (ask.len() + first.len()) as int,
                    1,
                ) + one_by_one(second, (ask.len() + first.len() + bridge.len()) as int) + seq![
                    KvCall::Clear { seq: 1, ok: true },
                ]
            }
        }),
{
    let ask = search_tokens(engine, v, surprising)->Some_0;
    let first = choose|first: Seq<Token>|
        {
            let raw = spoken(engine, first, Detok::Text);
            let heard = thought_aloud(v, ask, first, after.answers);
            &&& #[trigger] thinks(engine, v, ask, max, after.answers, first)
            &&& !overran(first.len(), ask.len() as int, max)
            &&& out.thought@ == thought_in(raw)
            &&& directive_view(out.directive) == directive_in(raw)
            &&& match out.retrieved {
                None => {
                    &&& out.response is None
                    &&& after == heard.scratched()
                    &&& directive_in(raw) matches Some(d) ==> finds(retrieve, d, None)
                },
                Some(found) => {
                    &&& directive_in(raw) matches Some(d) && finds(retrieve, d, Some(found@))
                    &&& told(
                        engine,
                        heard,
                        (ask.len() + first.len()) as int,
                        found@,
                        max,
                        after,
                        out.response,
                    )
                },
            }
        };
    let raw = spoken(engine, first, Detok::Text);
    let heard = thought_aloud(v, ask, first, after.answers);
    let pos = (ask.len() + first.len()) as int;
    lemma_trickle_is_one_by_one(first, ask.len() as int);
    let n = (v.calls.len() + 1 + feeds(ask, 0, 0, 1).len()) as int;
    let row1 = |i: int|
        if i == 0 {
            last_row(after.answers.take(n), ask.len() as int)
        } else {
            after.answers[n + i - 1][0]
        };
    let a = asked(v, ask, after.answers);
    assert(a.calls.len() == n);
    assert(a.answers == after.answers.take(n));
    assert(after.calls.len() >= n);
    assert(a.answers.len() == n);
    assert forall|i: int| 0 <= i <= first.len() implies #[trigger] row1(i) == row_at(
        a,
        ask.len() as int,
        after.answers,
        i,
    ) by {}
    if first.len() < max {
        assert(first.len() != cap_at(ask.len() as int, max));
        if !called(raw) {
            let t = choose|t: Token|
                #[trigger] greedy(
                    row_at(a, ask.len() as int, after.answers, first.len() as int),
                    t.0 as int,
                ) && closes(engine, a, t);
            assert(greedy(row1(first.len() as int), t.0 as int));
        }
    }
    assert(greedily(engine, v, first, max, row1)) by {
        assert forall|i: int| 0 <= i < first.len() implies greedy(
            row1(i),
            (#[trigger] first[i]).0 as int,
        ) && speaks_on(engine, v, first[i]) by {
            assert(row1(i) == row_at(a, ask.len() as int, after.answers, i));
        }
    }
    match out.retrieved {
        None => {
            assert(after.calls =~= v.calls + seq![KvCall::Clear { seq: 1, ok: true }] + feeds(
                ask,
                0,
                0,
                1,
            ) + one_by_one(first, ask.len() as int) + seq![KvCall::Clear { seq: 1, ok: true }]);
            (ask, first, Seq::empty(), Seq::empty())
        },
        Some(found) => {
            let bridge = engine.tokens_of(search_answer(found@), false)->Some_0;
            let second = choose|second: Seq<Token>|
                {
                    &&& #[trigger] replies(
                        engine,
                        heard,
                        bridge,
                        pos,
                        max,
                        after.answers,
                        second,
                    )
                    &&& !overran(second.len(), (pos + bridge.len()) as int, max)
                    &&& out.response matches Some(r) && r@ == trimmed(
                        spoken(engine, second, Detok::Plain),
                    )
                    &&& after == replied(
                        heard,
                        bridge,
                        pos,
                        second,
                        after.answers,
                    ).scratched()
                };
            lemma_trickle_is_one_by_one(second, (pos + bridge.len()) as int);
            let m = (n + first.len() + feeds(bridge, 0, pos, 1).len()) as int;
            let row2 = |i: int|
                if i == 0 {
                    last_row(after.answers.take(m), bridge.len() as int)
                } else {
                    after.answers[m + i - 1][0]
                };
            let b = bridged(heard, bridge, pos, after.answers);
            assert(b.calls.len() == m);
            assert(after.calls.len() >= m);
            assert(b.answers == after.answers.take(m));
            assert(greedily(engine, v, second, max, row2)) by {
                assert forall|i: int| 0 <= i < second.len() implies greedy(
                    row2(i),
                    (#[trigger] second[i]).0 as int,
                ) && speaks_on(engine, v, second[i]) by {
                    assert(row2(i) == row_at(b, bridge.len() as int, after.answers, i));
                }
            }
            if second.len() < max {
                assert(second.len() != cap_at((pos + bridge.len()) as int, max));
                let t = choose|t: Token|
                    #[trigger] greedy(
                        row_at(b, bridge.len() as int, after.answers, second.len() as int),
                        t.0 as int,
                    ) && closes(engine, b, t);
                assert(row2(second.len() as int) == row_at(
                    b,
                    bridge.len() as int,
                    after.answers,
                    second.len() as int,
                ));
                assert(greedy(row2(second.len() as int), t.0 as int));
            }
            assert(after.calls =~= v.calls + seq![KvCall::Clear { seq: 1, ok: true }] + feeds(
                ask,
                0,
                0,
                1,
            ) + one_by_one(first, ask.len() as int) + feeds(bridge, 0, pos, 1) + one_by_one(
                second,
                (ask.len() + first.len() + bridge.len()) as int,
            ) + seq![KvCall::Clear { seq: 1, ok: true }]);
            (ask, first, bridge, second)
        },
    }
}

} // verus!
