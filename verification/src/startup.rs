//! Making an observer from the choices of a run, ready for the first stream token.

use crate::backend::{Backend, Session, Token};
use crate::lobe::model::{cut_short, feeds, hint_fits, last_row, LobeView};
use crate::number::F32;
use crate::lobe::types::LobeError;
use crate::lobe::{fresh, opens, room_for, Lobe};
use crate::options::Options;
use crate::present::opt_text;
use crate::prompt::{preamble_of, system_preamble};
use vstd::prelude::*;

verus! {

/// The tokens of the pinned preamble.
pub open spec fn preamble_tokens<B: Backend>(
    engine: &B,
    options: &Options,
    persona: Option<Seq<char>>,
) -> Option<Seq<Token>> {
    engine.tokens_of(preamble_of(options.prompt(persona), options.frames()), true)
}

/// A new observer that has been fed its preamble: the stream part is empty, and the distribution at
/// hand is the one that the preamble leaves behind.
pub open spec fn primed<B: Backend>(
    engine: &B,
    n_ctx: u32,
    options: &Options,
    entropy: u64,
    toks: Seq<Token>,
    after: LobeView,
) -> bool {
    let v = fresh(engine, n_ctx, options.config(entropy));
    &&& after == (LobeView {
        logits: after.logits,
        pos: toks.len() as int,
        window: v.window.primed(toks, room_for(v, toks.len())),
        calls: feeds(toks, 0, 0, 0),
        answers: after.answers,
        ..v
    })
    &&& after.answers.len() == after.calls.len()
    &&& if toks.len() == 0 {
        after.logits == Seq::<F32>::empty()
    } else {
        &&& after.logits == last_row(after.answers, toks.len() as int)
        &&& after.logits.len() == v.width
    }
}

/// Make an observer and pin its preamble. Where the recent window had to be shortened to fit, the
/// length asked for is handed back beside it.
pub fn open_observer<'a, B: Backend>(
    engine: &'a B,
    n_ctx: u32,
    options: &Options,
    persona: Option<&str>,
    entropy: u64,
) -> (r: Result<(Lobe<'a, B>, Option<usize>), LobeError>)
    requires
        3 * n_ctx <= i32::MAX,
        hint_fits(options.interject_max as nat),
        0 < engine.vocab() <= i32::MAX,
    ensures
        match r {
            Ok((lobe, shortened)) => {
                &&& preamble_tokens(engine, options, opt_text(persona)) matches Some(toks)
                &&& primed(engine, n_ctx, options, entropy, toks, lobe@)
                &&& shortened == {
                    let v = fresh(engine, n_ctx, options.config(entropy));
                    if v.window.keep > room_for(v, toks.len()) {
                        Some(v.window.keep)
                    } else {
                        None
                    }
                }
                &&& lobe@.wf()
                &&& lobe.window.wf()
                &&& lobe@.anchored()
                &&& lobe.engine == engine
                &&& lobe.debug == options.config(entropy).debug
            },
            Err(LobeError::Backend(e)) => {
                ||| opens(engine, n_ctx, Err(e))
                ||| match preamble_tokens(engine, options, opt_text(persona)) {
                    Some(toks) => exists|s: B::Session<'a>|
                        cut_short(Seq::empty(), feeds(toks, 0, 0, 0), #[trigger] s.calls()),
                    None => true,
                }
            },
            Err(LobeError::TooLong) => preamble_tokens(
                engine,
                options,
                opt_text(persona),
            ) matches Some(toks) && toks.len() > i32::MAX,
            Err(LobeError::EmptyPrompt) => false,
        },
{
    let mut lobe = match Lobe::new(engine, n_ctx, options.lobe_config(entropy)) {
        Ok(lobe) => lobe,
        Err(e) => {
            return Err(e);
        },
    };
    let prompt = options.system_prompt(persona);
    let text = system_preamble(prompt.as_str(), options.framed());
    let toks = match lobe.tokenize(text.as_str(), true) {
        Ok(toks) => toks,
        Err(e) => {
            return Err(e);
        },
    };
    if toks.len() > i32::MAX as usize {
        return Err(LobeError::TooLong);
    }
    let shortened = match lobe.prime(&toks) {
        Ok(shortened) => shortened,
        Err(e) => {
            return Err(e);
        },
    };
    assert(lobe@.calls =~= feeds(toks@, 0, 0, 0));
    assert(lobe@.window.replay() =~= toks@);
    Ok((lobe, shortened))
}

/// An observer starts with its preamble laid on the observation sequence from position zero on, and
/// nothing observed: the persona, framed as the system turn before an open model turn where the stream is
/// framed, and plain where it is not. Its recent window holds no more than is left beside the preamble and
/// the margin, and never less than one token; where that is less than was asked for, it says so.
pub proof fn lemma_how_an_observer_starts<'a, B: Backend>(
    engine: &'a B,
    n_ctx: u32,
    options: &Options,
    persona: Option<&str>,
    entropy: u64,
    lobe: Lobe<'a, B>,
    shortened: Option<usize>,
)
    requires
        call_ensures(
            open_observer,
            (engine, n_ctx, options, persona, entropy),
            Ok((lobe, shortened)),
        ),
    ensures
        ({
            let prompt = options.prompt(opt_text(persona));
            let framed = options.interject_mode is Context || !options.no_frame;
            let toks = engine.tokens_of(
                if framed {
                    "<|turn>system\n"@ + prompt + "<turn|>\n"@ + "<|turn>model\n"@
                } else {
                    prompt
                },
                true,
            );
            let asked = if options.keep_recent == 0 {
                1
            } else {
                options.keep_recent as int
            };
            let margin = if 256 + 5 * options.interject_max <= (n_ctx as int * 3) / 4 {
                256 + 5 * options.interject_max
            } else {
                (n_ctx as int * 3) / 4
            };
            &&& toks matches Some(ts) && {
                let left = n_ctx - ts.len() - margin;
                let room = if left >= 1 {
                    left
                } else {
                    1
                };
                &&& lobe@.window.preamble == ts
                &&& lobe@.window.context.len() == 0
                &&& lobe@.window.recent.len() == 0
                &&& lobe@.pos == ts.len()
                &&& lobe@.index == 0
                &&& lobe@.calls == feeds(ts, 0, 0, 0)
                &&& ts.len() > 0 ==> lobe@.logits == last_row(lobe@.answers, ts.len() as int)
                &&& room <= usize::MAX ==> {
                    &&& lobe@.window.keep == if asked <= room {
                        asked
                    } else {
                        room
                    }
                    &&& shortened is Some <==> asked > room
                    &&& shortened matches Some(n) ==> n == asked
                }
            }
        }),
{
}

} // verus!
