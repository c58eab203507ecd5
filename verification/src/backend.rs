//! The seam between the observer and an inference engine: a [`Backend`] is a loaded model with its
//! tokenizer, a [`Session`] the key/value cache of one or more sequences and the forward pass.

use crate::number::F32;
use std::marker::PhantomData;
use vstd::prelude::*;

verus! {

/// A vocabulary index.
#[derive(Copy, Clone, Debug, PartialEq, Eq, Hash, Structural)]
pub struct Token(pub i32);

/// One token to feed in a batched forward pass: its position in its sequence, which sequence it
/// belongs to, and whether its next-token distribution is wanted.
#[derive(Copy, Clone, Debug, PartialEq, Eq, Structural)]
pub struct Decode {
    pub token: Token,
    pub pos: i32,
    pub seq: u32,
    pub logits: bool,
}

/// How a token is rendered: special tokens by their literal text, or not at all.
#[derive(Copy, Clone, Debug, PartialEq, Eq, Structural)]
pub enum Detok {
    Text,
    Plain,
}

/// The shape of a session's cache.
#[derive(Copy, Clone, Debug, PartialEq, Eq, Structural)]
pub struct SessionConfig {
    pub n_ctx: u32,
    pub n_batch: u32,
    pub n_seq_max: u32,
    pub kv_unified: bool,
}

/// One call made on a session, with its outcome.
pub enum KvCall {
    /// A forward pass over `batch`.
    Decode { batch: Seq<Decode>, ok: bool },
    /// Sequence `seq` dropped from the cache.
    Clear { seq: u32, ok: bool },
    /// Sequence `src` forked onto sequence `dst`.
    Copy { src: u32, dst: u32, ok: bool },
}

impl KvCall {
    /// Did the call succeed?
    pub open spec fn succeeded(self) -> bool {
        match self {
            KvCall::Decode { ok, .. } => ok,
            KvCall::Clear { ok, .. } => ok,
            KvCall::Copy { ok, .. } => ok,
        }
    }
}

/// The cells of sequence `seq` after feeding `batch` to a cache where it had `cells`: each token of
/// that sequence stands at its position.
pub open spec fn fed(cells: Map<int, Token>, batch: Seq<Decode>, seq: u32) -> Map<int, Token>
    decreases batch.len(),
{
    if batch.len() == 0 {
        cells
    } else {
        let before = fed(cells, batch.drop_last(), seq);
        let d = batch.last();
        if d.seq == seq {
            before.insert(d.pos as int, d.token)
        } else {
            before
        }
    }
}

/// The cells that sequence `seq` holds after `calls`, all of which succeeded: which token stands at
/// which position.
pub open spec fn cells_of(calls: Seq<KvCall>, seq: u32) -> Map<int, Token>
    decreases calls.len(),
{
    if calls.len() == 0 {
        Map::empty()
    } else {
        let earlier = calls.drop_last();
        let before = cells_of(earlier, seq);
        match calls.last() {
            KvCall::Decode { batch, .. } => fed(before, batch, seq),
            KvCall::Clear { seq: s, .. } => if s == seq {
                Map::empty()
            } else {
                before
            },
            KvCall::Copy { src, dst, .. } => if dst == seq {
                before.union_prefer_right(cells_of(earlier, src))
            } else {
                before
            },
        }
    }
}

/// Every one of `calls` succeeded, and they leave sequence `seq` without a cell.
pub open spec fn holds_none(calls: Seq<KvCall>, seq: u32) -> bool {
    &&& all_succeeded(calls)
    &&& cells_of(calls, seq) == Map::<int, Token>::empty()
}

/// Did every one of `calls` succeed?
pub open spec fn all_succeeded(calls: Seq<KvCall>) -> bool {
    forall|i: int| 0 <= i < calls.len() ==> (#[trigger] calls[i]).succeeded()
}

/// What a list of calls answered, in the order of the calls: a forward pass the row of logits of each
/// entry of its batch, any other call nothing.
pub type Answers = Seq<Seq<Seq<F32>>>;

/// One more call was answered.
pub open spec fn answered_once(before: Answers, after: Answers) -> bool {
    after.len() == before.len() + 1 && after.drop_last() == before
}

/// The latest call was a forward pass that succeeded, and its entry `i` wanted its distribution.
pub open spec fn projected(calls: Seq<KvCall>, i: int) -> bool {
    &&& calls.len() > 0
    &&& calls.last() matches KvCall::Decode { batch, ok } && ok && 0 <= i < batch.len()
        && batch[i].logits
}

/// A loaded model with its tokenizer. It owns the weights; its sessions borrow it.
pub trait Backend: Sized {
    /// A session on this backend's model.
    type Session<'a>: Session where Self: 'a;

    /// The tokens of a text, or `None` where the tokenizer refuses it.
    open spec fn tokens_of(&self, text: Seq<char>, add_bos: bool) -> Option<Seq<Token>> {
        arbitrary()
    }

    /// The text that a token is rendered to.
    open spec fn text_of(&self, token: Token, mode: Detok) -> Seq<char> {
        arbitrary()
    }

    /// Does this token end a generation?
    open spec fn ends_generation(&self, token: Token) -> bool {
        arbitrary()
    }

    /// How many tokens the vocabulary has.
    open spec fn vocab(&self) -> nat {
        arbitrary()
    }

    /// The single token with this literal text, if the vocabulary has one.
    open spec fn special(&self, text: Seq<char>) -> Option<Token> {
        arbitrary()
    }

    /// Load the model. `gpu_layers` layers are offloaded; `verbose` lets the engine's own log
    /// through.
    fn load(model_path: &str, gpu_layers: u32, verbose: bool) -> (r: Result<Self, String>);

    /// Vocabulary size, the length of a logit row.
    fn n_vocab(&self) -> (n: usize)
        ensures
            n == self.vocab(),
    ;

    /// Tokenize text. `add_bos` prepends the beginning-of-sequence token: for the pinned preamble or
    /// a standalone prompt, not for a continuation.
    fn tokenize(&self, text: &str, add_bos: bool) -> (r: Result<Vec<Token>, String>)
        ensures
            match r {
                Ok(toks) => self.tokens_of(text@, add_bos) == Some(toks@),
                Err(_) => self.tokens_of(text@, add_bos) is None,
            },
    ;

    /// Render one token to text.
    fn detok(&self, token: Token, mode: Detok) -> (s: String)
        ensures
            s@ == self.text_of(token, mode),
    ;

    /// Is this an end-of-generation token? It need not flag the turn markers.
    fn is_eog(&self, token: Token) -> (r: bool)
        ensures
            r == self.ends_generation(token),
    ;

    /// Look up one special token by its literal text.
    fn special_token(&self, text: &str) -> (r: Option<Token>)
        ensures
            r == self.special(text@),
    ;

    /// Open a session, on which no call has been made yet.
    fn session(&self, cfg: SessionConfig) -> (r: Result<Self::Session<'_>, String>)
        ensures
            r matches Ok(s) ==> s.calls() == Seq::<KvCall>::empty() && s.answers() == Seq::<
                Seq<Seq<F32>>,
            >::empty() && s.width() == self.vocab(),
    ;
}

/// The cache of one or more sequences, and the forward pass over it.
pub trait Session: Sized {
    /// The calls made on this session so far, in order.
    open spec fn calls(&self) -> Seq<KvCall> {
        arbitrary()
    }

    /// What each of those calls answered.
    open spec fn answers(&self) -> Answers {
        arbitrary()
    }

    /// The length of a row of logits.
    open spec fn width(&self) -> nat {
        arbitrary()
    }

    /// The highest position that the engine reports for a sequence.
    open spec fn extent(&self, seq: u32) -> i32 {
        arbitrary()
    }

    /// Feed a batch in one forward pass. Distributions are computed for the entries that want them;
    /// read them with `logits`.
    fn decode(&mut self, batch: &[Decode]) -> (r: Result<(), String>)
        requires
            batch@.len() > 0,
        ensures
            final(self).calls() == old(self).calls().push(
                KvCall::Decode { batch: batch@, ok: r is Ok },
            ),
            answered_once(old(self).answers(), final(self).answers()),
            r is Ok ==> final(self).answers().last().len() == batch@.len(),
            final(self).width() == old(self).width(),
    ;

    /// The logits of entry `i` of the batch that was just fed, which must have wanted them.
    fn logits(&self, i: usize) -> (row: Vec<F32>)
        requires
            projected(self.calls(), i as int),
        ensures
            row@ == self.answers().last()[i as int],
            row@.len() == self.width(),
    ;

    /// Drop sequence `seq` from the cache.
    fn clear_seq(&mut self, seq: u32) -> (r: Result<(), String>)
        ensures
            final(self).calls() == old(self).calls().push(KvCall::Clear { seq, ok: r is Ok }),
            final(self).answers() == old(self).answers().push(Seq::empty()),
            final(self).width() == old(self).width(),
    ;

    /// Fork sequence `src` onto sequence `dst`, which then holds the same cells.
    fn copy_seq(&mut self, src: u32, dst: u32) -> (r: Result<(), String>)
        ensures
            final(self).calls() == old(self).calls().push(KvCall::Copy { src, dst, ok: r is Ok }),
            final(self).answers() == old(self).answers().push(Seq::empty()),
            final(self).width() == old(self).width(),
    ;

    /// The highest position held for sequence `seq`, or -1 where it holds none or the engine cannot
    /// tell.
    fn seq_pos_max(&self, seq: u32) -> (p: i32)
        ensures
            p == self.extent(seq),
            holds_none(self.calls(), seq) ==> p == -1,
    ;
}

/// Why [`CandleBackend`] does nothing.
pub const NO_FORWARD_PASS: &'static str =
    "Candle backend: gemma-4 forward pass not implemented yet (see CANDLE_DESIGN.md)";

/// The backend that is to run the model's forward pass in Rust. It has no forward pass, so it never
/// loads: it has an empty vocabulary, refuses every text, and opens no session.
pub struct CandleBackend {
    weights: (),
}

/// A session of [`CandleBackend`], on which no call succeeds.
pub struct CandleSession<'a> {
    borrow: PhantomData<&'a CandleBackend>,
    log: Ghost<Seq<KvCall>>,
    replies: Ghost<Answers>,
}

impl Backend for CandleBackend {
    type Session<'a> = CandleSession<'a>;

    open spec fn tokens_of(&self, text: Seq<char>, add_bos: bool) -> Option<Seq<Token>> {
        None
    }

    open spec fn text_of(&self, token: Token, mode: Detok) -> Seq<char> {
        Seq::empty()
    }

    open spec fn ends_generation(&self, token: Token) -> bool {
        true
    }

    open spec fn vocab(&self) -> nat {
        0
    }

    open spec fn special(&self, text: Seq<char>) -> Option<Token> {
        None
    }

    /// There is no forward pass to load weights for.
    fn load(_model_path: &str, _gpu_layers: u32, _verbose: bool) -> (r: Result<Self, String>)
        ensures
            r matches Err(e) && e@ == NO_FORWARD_PASS@,
    {
        Err(NO_FORWARD_PASS.to_owned())
    }

    fn n_vocab(&self) -> (n: usize) {
        0
    }

    fn tokenize(&self, _text: &str, _add_bos: bool) -> (r: Result<Vec<Token>, String>)
        ensures
            r matches Err(e) && e@ == NO_FORWARD_PASS@,
    {
        Err(NO_FORWARD_PASS.to_owned())
    }

    fn detok(&self, _token: Token, _mode: Detok) -> (s: String) {
        let s = String::new();
        assert(s@ =~= Seq::empty());
        s
    }

    fn is_eog(&self, _token: Token) -> (r: bool) {
        true
    }

    fn special_token(&self, _text: &str) -> (r: Option<Token>) {
        None
    }

    fn session(&self, _cfg: SessionConfig) -> (r: Result<CandleSession<'_>, String>)
        ensures
            r is Err,
            r matches Err(e) && e@ == NO_FORWARD_PASS@,
    {
        Err(NO_FORWARD_PASS.to_owned())
    }
}

impl<'a> CandleSession<'a> {
    /// No call has succeeded.
    #[verifier::type_invariant]
    spec fn idle(self) -> bool {
        forall|i: int| 0 <= i < self.log@.len() ==> !(#[trigger] self.log@[i]).succeeded()
    }
}

impl<'a> Session for CandleSession<'a> {
    closed spec fn calls(&self) -> Seq<KvCall> {
        self.log@
    }

    closed spec fn answers(&self) -> Answers {
        self.replies@
    }

    open spec fn width(&self) -> nat {
        0
    }

    open spec fn extent(&self, seq: u32) -> i32 {
        -1i32
    }

    fn decode(&mut self, batch: &[Decode]) -> (r: Result<(), String>)
        ensures
            r matches Err(e) && e@ == NO_FORWARD_PASS@,
    {
        proof {
            use_type_invariant(&*self);
        }
        let ghost before = self.replies@;
        self.log = Ghost(self.log@.push(KvCall::Decode { batch: batch@, ok: false }));
        self.replies = Ghost(before.push(Seq::empty()));
        assert(self.replies@.drop_last() =~= before);
        Err(NO_FORWARD_PASS.to_owned())
    }

    fn logits(&self, _i: usize) -> (row: Vec<F32>) {
        proof {
            use_type_invariant(self);
            let k = self.log@.len() - 1;
            assert(!self.log@[k].succeeded());
        }
        Vec::new()
    }

    fn clear_seq(&mut self, seq: u32) -> (r: Result<(), String>)
        ensures
            r matches Err(e) && e@ == NO_FORWARD_PASS@,
    {
        proof {
            use_type_invariant(&*self);
        }
        self.log = Ghost(self.log@.push(KvCall::Clear { seq, ok: false }));
        self.replies = Ghost(self.replies@.push(Seq::empty()));
        Err(NO_FORWARD_PASS.to_owned())
    }

    fn copy_seq(&mut self, src: u32, dst: u32) -> (r: Result<(), String>)
        ensures
            r matches Err(e) && e@ == NO_FORWARD_PASS@,
    {
        proof {
            use_type_invariant(&*self);
        }
        self.log = Ghost(self.log@.push(KvCall::Copy { src, dst, ok: false }));
        self.replies = Ghost(self.replies@.push(Seq::empty()));
        Err(NO_FORWARD_PASS.to_owned())
    }

    /// No cells are ever held.
    fn seq_pos_max(&self, _seq: u32) -> (p: i32) {
        -1
    }
}

} // verus!
