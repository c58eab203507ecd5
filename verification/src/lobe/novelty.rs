//! What keeps the asides from circling: the record of recent asides that the next ask shows, the span
//! of text since the last fire that it is about, and the optional filter for near repeats.

use super::window::last_n;
use super::MAX_SPAN_TOKENS;
use crate::number::{F32, ZERO_BITS};
use crate::numerics::Numerics;
use crate::text::{
    alphanumeric, chars_of, join_range, joined, lowercase, open_run, closed_runs, runs, split_words,
    string_of, texts, trim, trimmed, white, words,
};
use std::collections::VecDeque;
use vstd::hash_set::StringHashSet;
use vstd::prelude::*;
use vstd::string::*;

verus! {

/// How many asides are remembered.
pub const DEDUP_HISTORY: usize = 6;

/// How many words make the opening of an aside.
pub const DEDUP_OPENING_WORDS: usize = 2;

/// How many characters make a shingle.
pub const SHINGLE: usize = 4;

/// The anti-fixation memory.
pub struct InterjectionMemory {
    /// Recent asides, oldest first.
    pub recent_interjections: VecDeque<String>,
    /// The texts of the tokens since the last fire.
    pub since_last_fire: VecDeque<String>,
    /// The span that was taken at the last fire.
    pub last_span: String,
    /// The similarity above which an aside counts as a repeat; zero or below turns the filter off.
    pub dedup_threshold: F32,
}

/// The contents of the memory.
pub struct MemoryView {
    pub asides: Seq<Seq<char>>,
    pub since: Seq<Seq<char>>,
    pub span: Seq<char>,
    pub dedup: F32,
}

impl View for InterjectionMemory {
    type V = MemoryView;

    open spec fn view(&self) -> MemoryView {
        MemoryView {
            asides: texts(self.recent_interjections@),
            since: texts(self.since_last_fire@),
            span: self.last_span@,
            dedup: self.dedup_threshold,
        }
    }
}

/// The texts of a list one after the other.
pub open spec fn concat(parts: Seq<Seq<char>>) -> Seq<char>
    decreases parts.len(),
{
    if parts.len() == 0 {
        Seq::empty()
    } else {
        concat(parts.drop_last()) + parts.last()
    }
}

/// The last `n` items of a list, newest first.
pub open spec fn newest<T>(s: Seq<T>, n: nat) -> Seq<T> {
    Seq::new(
        if n <= s.len() {
            n
        } else {
            s.len()
        },
        |i: int| s[s.len() - 1 - i],
    )
}

impl MemoryView {
    /// The memory never holds more than it may.
    pub open spec fn bounded(self) -> bool {
        self.asides.len() <= DEDUP_HISTORY && self.since.len() <= MAX_SPAN_TOKENS
    }

    /// The memory after a token has been observed.
    pub open spec fn observed(self, text: Seq<char>) -> MemoryView {
        MemoryView { since: last_n(self.since.push(text), MAX_SPAN_TOKENS as nat), ..self }
    }

    /// The memory after a fire: the span is the text since the fire before, and starts anew.
    pub open spec fn fired(self) -> MemoryView {
        MemoryView { span: concat(self.since), since: Seq::empty(), ..self }
    }

    /// The memory after an aside has been emitted. A blank one leaves no trace.
    pub open spec fn recorded(self, text: Seq<char>) -> MemoryView {
        if trimmed(text).len() == 0 {
            self
        } else {
            MemoryView {
                asides: last_n(self.asides.push(trimmed(text)), DEDUP_HISTORY as nat),
                ..self
            }
        }
    }

    /// Is the filter for repeats off?
    pub open spec fn unfiltered(self) -> bool {
        self.dedup.at_most(F32(ZERO_BITS))
    }

    /// Does some recent aside open as `text` does?
    pub open spec fn opens_alike(self, text: Seq<char>) -> bool {
        exists|i: int| 0 <= i < self.asides.len() && stem(#[trigger] self.asides[i]) == stem(text)
    }

    /// Will an aside that starts with `partial` be a repeat? Known once its opening is there.
    pub open spec fn dooms(self, partial: Seq<char>) -> bool {
        !self.unfiltered() && opening_known(partial) && self.opens_alike(partial)
    }

    /// Is there enough of an aside to tell whether it is a repeat?
    pub open spec fn decides(self, partial: Seq<char>) -> bool {
        self.unfiltered() || opening_known(partial)
    }

    /// `prev` and `text` share more shingles than the filter lets pass.
    pub open spec fn too_similar<N: Numerics>(
        self,
        num: &N,
        text: Seq<char>,
        prev: Seq<char>,
        r: bool,
    ) -> bool {
        exists|q: F32, part: usize, whole: usize|
            part == shingles(text).intersect(shingles(prev)).len() && whole == shingles(text).union(
                shingles(prev),
            ).len() && #[trigger] call_ensures(N::ratio, (num, part, whole), q) && r
                == self.dedup.below(q)
    }

    /// The verdict on an aside: novel where the filter is off, or where no recent aside opens alike or
    /// is too similar.
    pub open spec fn judged<N: Numerics>(self, num: &N, text: Seq<char>, novel: bool) -> bool {
        if self.unfiltered() {
            novel
        } else if novel {
            forall|i: int|
                0 <= i < self.asides.len() ==> stem(#[trigger] self.asides[i]) != stem(text)
                    && self.too_similar(num, text, self.asides[i], false)
        } else {
            exists|i: int|
                0 <= i < self.asides.len() && (stem(#[trigger] self.asides[i]) == stem(text)
                    || self.too_similar(num, text, self.asides[i], true))
        }
    }
}

impl Default for InterjectionMemory {
    fn default() -> (m: Self)
        ensures
            m@ == (MemoryView {
                asides: Seq::empty(),
                since: Seq::empty(),
                span: Seq::empty(),
                dedup: F32(ZERO_BITS),
            }),
    {
        let m = InterjectionMemory {
            recent_interjections: VecDeque::new(),
            since_last_fire: VecDeque::new(),
            last_span: String::new(),
            dedup_threshold: F32(ZERO_BITS),
        };
        assert(texts(m.recent_interjections@) =~= Seq::empty());
        assert(texts(m.since_last_fire@) =~= Seq::empty());
        m
    }
}

/// Append a text to a list of at most `cap` texts, dropping the oldest where it is full.
pub fn push_capped(list: &mut VecDeque<String>, text: String, cap: usize)
    requires
        old(list)@.len() <= cap,
    ensures
        texts(final(list)@) == last_n(texts(old(list)@).push(text@), cap as nat),
{
    let ghost before = texts(list@);
    let ghost grown = before.push(text@);
    list.push_back(text);
    assert(texts(list@) =~= grown);
    if list.len() > cap {
        let ghost full = list@;
        list.pop_front();
        assert(list@ =~= full.drop_first());
        assert(texts(list@) =~= grown.skip(1));
    }
    assert(texts(list@) =~= last_n(grown, cap as nat));
}

/// The texts of a list one after the other.
pub fn concat_all(list: &VecDeque<String>) -> (r: String)
    ensures
        r@ == concat(texts(list@)),
{
    let mut r = String::new();
    let mut i: usize = 0;
    assert(texts(list@).take(0) =~= Seq::empty());
    while i < list.len()
        invariant
            i <= list@.len(),
            r@ == concat(texts(list@).take(i as int)),
        decreases list@.len() - i,
    {
        r.append(list[i].as_str());
        assert(texts(list@).take(i + 1).drop_last() =~= texts(list@).take(i as int));
        i = i + 1;
    }
    assert(texts(list@).take(i as int) =~= texts(list@));
    r
}

impl InterjectionMemory {
    /// Set the similarity above which an aside counts as a repeat.
    pub fn set_dedup(&mut self, threshold: F32)
        ensures
            final(self)@ == (MemoryView { dedup: threshold, ..old(self)@ }),
    {
        self.dedup_threshold = threshold;
    }

    /// Take in the text of an observed token.
    pub fn push_span(&mut self, text: &str)
        requires
            old(self)@.bounded(),
        ensures
            final(self)@ == old(self)@.observed(text@),
            final(self)@.bounded(),
    {
        push_capped(&mut self.since_last_fire, text.to_owned(), MAX_SPAN_TOKENS);
    }

    /// Take the span at a fire.
    pub fn snapshot_span(&mut self)
        ensures
            final(self)@ == old(self)@.fired(),
    {
        self.last_span = concat_all(&self.since_last_fire);
        self.since_last_fire.clear();
        assert(texts(self.since_last_fire@) =~= Seq::empty());
    }

    /// Remember an emitted aside, for the next ask to show.
    pub fn record(&mut self, text: &str)
        requires
            old(self)@.bounded(),
        ensures
            final(self)@ == old(self)@.recorded(text@),
            final(self)@.bounded(),
    {
        let text = trim(text);
        if text.is_empty() {
            return;
        }
        push_capped(&mut self.recent_interjections, text.to_owned(), DEDUP_HISTORY);
    }

    /// The last `n` asides, newest first.
    pub fn recent(&self, n: usize) -> (r: Vec<String>)
        ensures
            texts(r@) == newest(self@.asides, n as nat),
    {
        let len: usize = self.recent_interjections.len();
        let mut r: Vec<String> = Vec::new();
        while r.len() < n && r.len() < len
            invariant
                len == self.recent_interjections@.len(),
                r@.len() <= n,
                r@.len() <= len,
                texts(r@) == newest(self@.asides, r@.len()),
            decreases len - r@.len(),
        {
            let ghost k = r@.len();
            let ghost before = texts(r@);
            r.push(self.recent_interjections[len - 1 - r.len()].clone());
            assert(texts(r@) =~= before.push(self@.asides[len - 1 - k]));
            assert(texts(r@) =~= newest(self@.asides, k + 1));
        }
        r
    }

    /// Is this aside none of those said before? It is a repeat where it opens like a recent one or
    /// shares too much with it. Nothing is recorded. Always true where the filter is off.
    pub fn is_novel<N: Numerics>(&self, text: &str, num: &N) -> (novel: bool)
        ensures
            self@.judged(num, text@, novel),
    {
        if self.dedup_threshold.le(F32(ZERO_BITS)) {
            return true;
        }
        let open = opening(text, DEDUP_OPENING_WORDS);
        let sh = shingle_list(text);
        let mut i: usize = 0;
        while i < self.recent_interjections.len()
            invariant
                i <= self.recent_interjections@.len(),
                !self@.unfiltered(),
                open@ == stem(text@),
                texts(sh@).to_set() == shingles(text@),
                sh@.len() > 0,
                forall|j: int|
                    0 <= j < i ==> stem(#[trigger] self@.asides[j]) != stem(text@)
                        && self@.too_similar(num, text@, self@.asides[j], false),
            decreases self.recent_interjections@.len() - i,
        {
            let prev = self.recent_interjections[i].as_str();
            assert(prev@ == self@.asides[i as int]);
            if opening(prev, DEDUP_OPENING_WORDS) == open {
                assert(stem(self@.asides[i as int]) == stem(text@));
                return false;
            }
            let (part, whole) = overlap(&sh, &shingle_list(prev));
            let q: F32 = num.ratio(part, whole);
            assert(call_ensures(N::ratio, (num, part, whole), q));
            assert(stem(self@.asides[i as int]) != stem(text@));
            if self.dedup_threshold.lt(q) {
                assert(self@.too_similar(num, text@, self@.asides[i as int], true));
                return false;
            }
            assert(self@.too_similar(num, text@, self@.asides[i as int], false));
            i = i + 1;
        }
        true
    }

    /// Will an aside that starts with `partial` be a repeat? A frontend drops it then, before it has
    /// shown any of it.
    pub fn doomed(&self, partial: &str) -> (r: bool)
        ensures
            r == self@.dooms(partial@),
    {
        if self.dedup_threshold.le(F32(ZERO_BITS)) || !opening_complete(partial) {
            return false;
        }
        let open = opening(partial, DEDUP_OPENING_WORDS);
        let mut i: usize = 0;
        while i < self.recent_interjections.len()
            invariant
                i <= self.recent_interjections@.len(),
                !self@.unfiltered(),
                opening_known(partial@),
                open@ == stem(partial@),
                forall|j: int| 0 <= j < i ==> stem(#[trigger] self@.asides[j]) != stem(partial@),
            decreases self.recent_interjections@.len() - i,
        {
            let prev = self.recent_interjections[i].as_str();
            assert(prev@ == self@.asides[i as int]);
            if opening(prev, DEDUP_OPENING_WORDS) == open {
                assert(stem(self@.asides[i as int]) == stem(partial@));
                return true;
            }
            assert(stem(self@.asides[i as int]) != stem(partial@));
            i = i + 1;
        }
        false
    }

    /// Is there enough of an aside to tell whether it is a repeat? Always where the filter is off.
    pub fn decidable(&self, partial: &str) -> (r: bool)
        ensures
            r == self@.decides(partial@),
    {
        self.dedup_threshold.le(F32(ZERO_BITS)) || opening_complete(partial)
    }
}

// ---------------------------------------------------------------------------------------------
// Openings
// ---------------------------------------------------------------------------------------------

/// The letters and digits of a word.
pub open spec fn letters(w: Seq<char>) -> Seq<char>
    decreases w.len(),
{
    if w.len() == 0 {
        Seq::empty()
    } else if alphanumeric(w.last()) {
        letters(w.drop_last()).push(w.last())
    } else {
        letters(w.drop_last())
    }
}

/// The words of a list in small letters, without punctuation; words of punctuation alone drop out.
pub open spec fn bare_words(ws: Seq<Seq<char>>) -> Seq<Seq<char>>
    decreases ws.len(),
{
    if ws.len() == 0 {
        Seq::empty()
    } else {
        let bare = lowercase(letters(ws.last()));
        if bare.len() > 0 {
            bare_words(ws.drop_last()).push(bare)
        } else {
            bare_words(ws.drop_last())
        }
    }
}

/// The first `n` items of a list, or all of them where there are fewer.
pub open spec fn first_n<T>(s: Seq<T>, n: nat) -> Seq<T> {
    if s.len() <= n {
        s
    } else {
        s.take(n as int)
    }
}

/// The first `k` bare words of a text.
pub open spec fn opening_of(s: Seq<char>, k: nat) -> Seq<char> {
    joined(first_n(bare_words(words(s)), k), " "@)
}

/// How an aside opens.
pub open spec fn stem(s: Seq<char>) -> Seq<char> {
    opening_of(s, DEDUP_OPENING_WORDS as nat)
}

/// Does the text hold a whole opening?
pub open spec fn opening_known(s: Seq<char>) -> bool {
    runs(stem(s), |c: char| c == ' ').len() >= DEDUP_OPENING_WORDS
}

fn letters_of(w: &str) -> (r: String)
    ensures
        r@ == letters(w@),
{
    let v = chars_of(w);
    let mut r = String::new();
    let mut i: usize = 0;
    while i < v.len()
        invariant
            i <= v@.len(),
            r@ == letters(v@.take(i as int)),
        decreases v@.len() - i,
    {
        assert(v@.take(i + 1).drop_last() =~= v@.take(i as int));
        if v[i].is_alphanumeric() {
            r.push(v[i]);
        }
        i = i + 1;
    }
    assert(v@.take(i as int) =~= v@);
    r
}

/// The first `k` bare words of a text, with blanks between them.
pub fn opening(s: &str, k: usize) -> (r: String)
    ensures
        r@ == opening_of(s@, k as nat),
{
    let ws = split_words(s);
    let mut out: Vec<String> = Vec::new();
    let mut i: usize = 0;
    let ghost all = texts(ws@);
    assert(texts(out@) =~= first_n(bare_words(all.take(0)), k as nat));
    while i < ws.len()
        invariant
            all == texts(ws@),
            i <= ws@.len(),
            out@.len() <= k,
            texts(out@) == first_n(bare_words(all.take(i as int)), k as nat),
        decreases ws@.len() - i,
    {
        let bare = letters_of(ws[i].as_str()).as_str().to_lowercase();
        proof {
            assert(all.take(i + 1).drop_last() =~= all.take(i as int));
            assert(all.take(i + 1).last() == ws@[i as int]@);
        }
        let ghost before = texts(out@);
        if !bare.as_str().is_empty() && out.len() < k {
            let ghost b = bare@;
            out.push(bare);
            assert(texts(out@) =~= before.push(b));
        }
        assert(texts(out@) =~= first_n(bare_words(all.take(i + 1)), k as nat));
        i = i + 1;
    }
    assert(all.take(i as int) =~= all);
    assert(out@.subrange(0, out@.len() as int) =~= out@);
    join_range(&out, 0, out.len(), " ")
}

fn opening_complete(text: &str) -> (r: bool)
    ensures
        r == opening_known(text@),
{
    let open = opening(text, DEDUP_OPENING_WORDS);
    let v = chars_of(open.as_str());
    let ghost sep = |c: char| c == ' ';
    let mut pieces: usize = 0;
    let mut in_piece: bool = false;
    let mut i: usize = 0;
    while i < v.len()
        invariant
            i <= v@.len(),
            sep == (|c: char| c == ' '),
            pieces == closed_runs(v@.take(i as int), sep).len(),
            in_piece == (open_run(v@.take(i as int), sep).len() > 0),
            pieces <= i,
        decreases v@.len() - i,
    {
        assert(v@.take(i + 1).drop_last() =~= v@.take(i as int));
        if v[i] == ' ' {
            if in_piece {
                pieces = pieces + 1;
            }
            in_piece = false;
        } else {
            in_piece = true;
        }
        i = i + 1;
    }
    assert(v@.take(i as int) =~= v@);
    pieces >= DEDUP_OPENING_WORDS || (in_piece && pieces + 1 >= DEDUP_OPENING_WORDS)
}

// ---------------------------------------------------------------------------------------------
// Shingles
// ---------------------------------------------------------------------------------------------

/// The text in small letters with single blanks between its words.
pub open spec fn normal(s: Seq<char>) -> Seq<char> {
    lowercase(joined(words(s), " "@))
}

/// The shingles of a text: every run of four characters of its normal form, or the whole of it where
/// it is shorter.
pub open spec fn shingles(s: Seq<char>) -> Set<Seq<char>> {
    pieces_of(normal(s)).to_set()
}

/// The shingles of a normal form, in order.
pub open spec fn pieces_of(n: Seq<char>) -> Seq<Seq<char>> {
    if n.len() < SHINGLE {
        seq![n]
    } else {
        Seq::new((n.len() - SHINGLE + 1) as nat, |i: int| n.subrange(i, i + SHINGLE))
    }
}

fn shingle_list(s: &str) -> (r: Vec<String>)
    ensures
        texts(r@).to_set() == shingles(s@),
        r@.len() > 0,
{
    let ws = split_words(s);
    assert(ws@.subrange(0, ws@.len() as int) =~= ws@);
    let norm = join_range(&ws, 0, ws.len(), " ").as_str().to_lowercase();
    let ghost n = norm@;
    assert(n == normal(s@));
    let v = chars_of(norm.as_str());
    let mut r: Vec<String> = Vec::new();
    if v.len() < SHINGLE {
        r.push(norm);
        assert(texts(r@) =~= pieces_of(n));
        return r;
    }
    let count: usize = v.len() - SHINGLE + 1;
    let mut i: usize = 0;
    while i < count
        invariant
            v@ == n,
            count + SHINGLE == v.len() + 1,
            i <= count,
            r@.len() == i,
            texts(r@) =~= pieces_of(n).take(i as int),
        decreases count - i,
    {
        let ghost before = texts(r@);
        r.push(string_of(&v, i, i + SHINGLE));
        assert(texts(r@) =~= before.push(n.subrange(i as int, i + SHINGLE)));
        assert(texts(r@) =~= pieces_of(n).take(i + 1));
        i = i + 1;
    }
    assert(pieces_of(n).take(count as int) =~= pieces_of(n));
    r
}

/// How many texts two lists share, and how many they hold between them.
fn overlap(a: &Vec<String>, b: &Vec<String>) -> (r: (usize, usize))
    requires
        a@.len() > 0,
    ensures
        r.0 == texts(a@).to_set().intersect(texts(b@).to_set()).len(),
        r.1 == texts(a@).to_set().union(texts(b@).to_set()).len(),
        r.1 > 0,
{
    let mut second = StringHashSet::new();
    let mut all = StringHashSet::new();
    let mut i: usize = 0;
    while i < b.len()
        invariant
            i <= b@.len(),
            second@ =~= texts(b@.take(i as int)).to_set(),
            all@ =~= second@,
        decreases b@.len() - i,
    {
        second.insert(b[i].clone());
        all.insert(b[i].clone());
        proof {
            lemma_set_of_push(b@, i as int);
        }
        i = i + 1;
    }
    assert(b@.take(i as int) =~= b@);
    let mut common = StringHashSet::new();
    let mut k: usize = 0;
    while k < a.len()
        invariant
            k <= a@.len(),
            second@ == texts(b@).to_set(),
            all@ =~= texts(a@.take(k as int)).to_set().union(second@),
            common@ =~= texts(a@.take(k as int)).to_set().intersect(second@),
        decreases a@.len() - k,
    {
        if second.contains(a[k].as_str()) {
            common.insert(a[k].clone());
        }
        all.insert(a[k].clone());
        proof {
            lemma_set_of_push(a@, k as int);
        }
        k = k + 1;
    }
    assert(a@.take(k as int) =~= a@);
    proof {
        assert(texts(a@)[0] == a@[0]@);
        assert(texts(a@).to_set().contains(a@[0]@));
        assert(all@.contains(a@[0]@));
        assert(all@.finite());
        assert(all@.len() > 0) by {
            if all@.len() == 0 {
                all@.lemma_len0_is_empty();
            }
        }
    }
    (common.len(), all.len())
}

proof fn lemma_set_of_push(v: Seq<String>, i: int)
    requires
        0 <= i < v.len(),
    ensures
        texts(v.take(i + 1)).to_set() =~= texts(v.take(i)).to_set().insert(v[i]@),
{
    let a = texts(v.take(i + 1));
    let b = texts(v.take(i));
    assert(a =~= b.push(v[i]@));
    assert forall|x: Seq<char>| a.to_set().contains(x) == b.to_set().insert(v[i]@).contains(x) by {
        if a.to_set().contains(x) {
            let j = choose|j: int| 0 <= j < a.len() && a[j] == x;
            if j < i {
                assert(b[j] == x);
            }
        }
        if b.to_set().contains(x) {
            let j = choose|j: int| 0 <= j < b.len() && b[j] == x;
            assert(a[j] == x);
        }
        assert(a[i] == v[i]@);
    }
}

// ---------------------------------------------------------------------------------------------
// Laws
// ---------------------------------------------------------------------------------------------

/// With the filter off every aside is novel, none is doomed, and each is decidable at once.
pub proof fn lemma_unfiltered_lets_everything_pass<N: Numerics>(
    m: MemoryView,
    num: &N,
    text: Seq<char>,
    novel: bool,
)
    requires
        m.unfiltered(),
        m.judged(num, text, novel),
    ensures
        novel,
        !m.dooms(text),
        m.decides(text),
{
}

/// A doomed aside is a repeat: whatever is judged novel was never doomed.
pub proof fn lemma_doomed_is_not_novel<N: Numerics>(
    m: MemoryView,
    num: &N,
    text: Seq<char>,
    novel: bool,
)
    requires
        m.dooms(text),
        m.judged(num, text, novel),
    ensures
        !novel,
        m.decides(text),
{
    let i = choose|i: int| 0 <= i < m.asides.len() && stem(#[trigger] m.asides[i]) == stem(text);
    if novel {
        assert(stem(m.asides[i]) != stem(text));
    }
}

/// What has just been recorded is what the next ask shows first, and saying it again is a repeat
/// while the filter is on.
pub proof fn lemma_recorded_is_remembered<N: Numerics>(
    m: MemoryView,
    num: &N,
    text: Seq<char>,
    novel: bool,
)
    requires
        m.bounded(),
        !m.unfiltered(),
        trimmed(text).len() > 0,
        m.recorded(text).judged(num, trimmed(text), novel),
    ensures
        m.recorded(text).bounded(),
        m.recorded(text).asides.last() == trimmed(text),
        newest(m.recorded(text).asides, 1) == seq![trimmed(text)],
        !novel,
{
    let n = m.recorded(text);
    let i = n.asides.len() - 1;
    assert(n.asides[i] == trimmed(text));
    assert(newest(n.asides, 1) =~= seq![trimmed(text)]);
    if novel {
        assert(stem(n.asides[i]) != stem(trimmed(text)));
    }
}

/// The span is exactly the text of the tokens observed since the fire before, and a fire leaves none
/// of it for the next.
pub proof fn lemma_span_is_the_text_since_the_last_fire(
    m: MemoryView,
    observed: Seq<Seq<char>>,
    after: MemoryView,
)
    requires
        m.since.len() == 0,
        observed.len() <= MAX_SPAN_TOKENS,
        after == observed.fold_left(m, |a: MemoryView, t: Seq<char>| a.observed(t)),
    ensures
        after.fired().span == concat(observed),
        after.fired().since.len() == 0,
        after.fired().asides == m.asides,
{
    lemma_observed_all(m, observed);
}

proof fn lemma_observed_all(m: MemoryView, observed: Seq<Seq<char>>)
    requires
        m.since.len() == 0,
        observed.len() <= MAX_SPAN_TOKENS,
    ensures
        observed.fold_left(m, |a: MemoryView, t: Seq<char>| a.observed(t)) == (MemoryView {
            since: observed,
            ..m
        }),
    decreases observed.len(),
{
    if observed.len() == 0 {
        assert(m.since =~= observed);
    } else {
        lemma_observed_all(m, observed.drop_last());
        assert(observed.drop_last().push(observed.last()) =~= observed);
    }
}

/// The blank between the words of an opening.
pub open spec fn blank() -> spec_fn(char) -> bool {
    |c: char| c == ' '
}

/// No word of the list has a blank among its small letters.
pub open spec fn unbroken(ws: Seq<Seq<char>>) -> bool {
    forall|i: int| 0 <= i < ws.len() ==> !lowercase(letters(#[trigger] ws[i])).contains(' ')
}

/// The words of the list that have letters are those that have small letters.
pub open spec fn unmuted(ws: Seq<Seq<char>>) -> bool {
    forall|i: int|
        0 <= i < ws.len() ==> (lowercase(letters(#[trigger] ws[i])).len() > 0 <==> letters(
            ws[i],
        ).len() > 0)
}

/// Each is a word: not empty, and without a blank.
pub open spec fn whole_words(ws: Seq<Seq<char>>) -> bool {
    forall|i: int| 0 <= i < ws.len() ==> (#[trigger] ws[i]).len() > 0 && !ws[i].contains(' ')
}

proof fn lemma_bare_words_are_whole(ws: Seq<Seq<char>>)
    requires
        unbroken(ws),
    ensures
        whole_words(bare_words(ws)),
    decreases ws.len(),
{
    if ws.len() > 0 {
        let head = ws.drop_last();
        assert forall|i: int| 0 <= i < head.len() implies !lowercase(
            letters(#[trigger] head[i]),
        ).contains(' ') by {
            assert(head[i] == ws[i]);
        }
        lemma_bare_words_are_whole(head);
        let bare = lowercase(letters(ws[ws.len() - 1]));
        assert(!bare.contains(' '));
        let before = bare_words(ws.drop_last());
        assert forall|i: int| 0 <= i < bare_words(ws).len() implies (#[trigger] bare_words(
            ws,
        )[i]).len() > 0 && !bare_words(ws)[i].contains(' ') by {
            if i < before.len() {
                assert(bare_words(ws)[i] == before[i]);
            }
        }
    }
}

/// A word behind a text and a blank closes the runs of the text and is the run that stays open.
proof fn lemma_runs_before_a_word(a: Seq<char>, w: Seq<char>)
    requires
        !w.contains(' '),
    ensures
        open_run(a.push(' ') + w, blank()) == w,
        closed_runs(a.push(' ') + w, blank()) == runs(a, blank()),
    decreases w.len(),
{
    let s = a.push(' ') + w;
    if w.len() == 0 {
        assert(s =~= a.push(' '));
        assert(s.drop_last() =~= a);
        assert(w =~= Seq::empty());
    } else {
        let v = w.drop_last();
        assert forall|i: int| 0 <= i < v.len() implies v[i] != ' ' by {
            assert(w.contains(w[i]));
            assert(v[i] == w[i]);
        }
        assert(w.contains(w[w.len() - 1]));
        lemma_runs_before_a_word(a, v);
        assert(s.drop_last() =~= a.push(' ') + v);
        assert(s.last() == w.last());
        assert(v.push(w.last()) =~= w);
    }
}

/// A word alone is one run.
proof fn lemma_runs_of_a_word(w: Seq<char>)
    requires
        !w.contains(' '),
    ensures
        open_run(w, blank()) == w,
        closed_runs(w, blank()).len() == 0,
    decreases w.len(),
{
    if w.len() > 0 {
        let v = w.drop_last();
        assert forall|i: int| 0 <= i < v.len() implies v[i] != ' ' by {
            assert(w.contains(w[i]));
            assert(v[i] == w[i]);
        }
        assert(w.contains(w[w.len() - 1]));
        lemma_runs_of_a_word(v);
        assert(v.push(w.last()) =~= w);
    } else {
        assert(w =~= Seq::empty());
    }
}

/// Words joined by blanks fall apart into the same words.
proof fn lemma_joined_falls_apart(ws: Seq<Seq<char>>)
    requires
        whole_words(ws),
    ensures
        runs(joined(ws, " "@), blank()) == ws,
    decreases ws.len(),
{
    reveal_strlit(" ");
    let s = joined(ws, " "@);
    if ws.len() == 0 {
        assert(runs(s, blank()) =~= ws);
    } else if ws.len() == 1 {
        lemma_runs_of_a_word(ws[0]);
        assert(runs(s, blank()) =~= ws);
    } else {
        let head = ws.drop_last();
        assert forall|i: int| 0 <= i < head.len() implies (#[trigger] head[i]).len() > 0
            && !head[i].contains(' ') by {
            assert(head[i] == ws[i]);
        }
        lemma_joined_falls_apart(head);
        let last = ws[ws.len() - 1];
        let a = joined(head, " "@);
        assert(s == a.push(' ') + last) by {
            assert(a + " "@ =~= a.push(' '));
        }
        assert(runs(s, blank()) == head.push(last)) by {
            lemma_runs_before_a_word(a, last);
        }
        assert(head.push(last) =~= ws);
    }
}

/// Openings nest: the words of a shorter opening are the first words of a longer one, no opening has
/// more words than asked for, its words stand with single blanks between them and none around, and an
/// opening of no words is empty.
pub proof fn lemma_openings_nest(s: Seq<char>, k: nat, m: nat)
    requires
        unbroken(words(s)),
        k <= m,
    ensures
        runs(opening_of(s, k), blank()) == first_n(runs(opening_of(s, m), blank()), k),
        runs(opening_of(s, k), blank()).len() <= k,
        opening_of(s, k) == joined(runs(opening_of(s, k), blank()), " "@),
        opening_of(s, 0) == Seq::<char>::empty(),
{
    let all = bare_words(words(s));
    lemma_bare_words_are_whole(words(s));
    let a = first_n(all, k);
    let b = first_n(all, m);
    assert(whole_words(a));
    assert(whole_words(b));
    lemma_joined_falls_apart(a);
    lemma_joined_falls_apart(b);
    assert(a =~= first_n(b, k));
}

/// How many words of a list have letters.
spec fn lettered(ws: Seq<Seq<char>>) -> nat
    decreases ws.len(),
{
    if ws.len() == 0 {
        0
    } else {
        lettered(ws.drop_last()) + if letters(ws.last()).len() > 0 {
            1nat
        } else {
            0
        }
    }
}

proof fn lemma_lettered_words_are_bare(ws: Seq<Seq<char>>)
    requires
        unmuted(ws),
    ensures
        bare_words(ws).len() == lettered(ws),
    decreases ws.len(),
{
    if ws.len() > 0 {
        let head = ws.drop_last();
        assert forall|i: int| 0 <= i < head.len() implies (lowercase(
            letters(#[trigger] head[i]),
        ).len() > 0 <==> letters(head[i]).len() > 0) by {
            assert(head[i] == ws[i]);
        }
        lemma_lettered_words_are_bare(head);
        assert(ws[ws.len() - 1] == ws.last());
    }
}

/// One more character never takes a word with letters away.
proof fn lemma_lettered_words_grow(s: Seq<char>, c: char)
    ensures
        lettered(words(s.push(c))) >= lettered(words(s)),
{
    let sep = |x: char| white(x);
    let t = s.push(c);
    assert(t.drop_last() =~= s);
    let closed = closed_runs(s, sep);
    let run = open_run(s, sep);
    if white(c) {
        assert(words(t) =~= words(s));
    } else {
        let more = run.push(c);
        assert(words(t) =~= closed.push(more));
        assert(closed.push(more).drop_last() =~= closed);
        assert(closed.push(run).drop_last() =~= closed);
        assert(more.drop_last() =~= run);
    }
}

proof fn lemma_lettered_words_stay(s: Seq<char>, more: Seq<char>)
    ensures
        lettered(words(s + more)) >= lettered(words(s)),
    decreases more.len(),
{
    if more.len() == 0 {
        assert(s + more =~= s);
    } else {
        lemma_lettered_words_stay(s, more.drop_last());
        assert(s + more =~= (s + more.drop_last()).push(more.last()));
        lemma_lettered_words_grow(s + more.drop_last(), more.last());
    }
}

proof fn lemma_opening_known(s: Seq<char>)
    requires
        unbroken(words(s)),
        unmuted(words(s)),
    ensures
        opening_known(s) == (lettered(words(s)) >= DEDUP_OPENING_WORDS),
{
    let all = bare_words(words(s));
    lemma_bare_words_are_whole(words(s));
    lemma_lettered_words_are_bare(words(s));
    let a = first_n(all, DEDUP_OPENING_WORDS as nat);
    assert(whole_words(a));
    lemma_joined_falls_apart(a);
    assert(blank() =~= |c: char| c == ' ');
}

/// Once there is enough of an aside to tell whether it is a repeat, there stays enough: whatever is
/// said after it does not make it undecidable again.
pub proof fn lemma_decidable_stays_decidable(m: MemoryView, partial: Seq<char>, more: Seq<char>)
    requires
        unbroken(words(partial)),
        unmuted(words(partial)),
        unbroken(words(partial + more)),
        unmuted(words(partial + more)),
        m.decides(partial),
    ensures
        m.decides(partial + more),
{
    lemma_opening_known(partial);
    lemma_opening_known(partial + more);
    lemma_lettered_words_stay(partial, more);
}

/// A word in small letters without what is neither a letter nor a digit.
pub open spec fn bared(w: Seq<char>) -> Seq<char> {
    lowercase(w.filter(|c: char| alphanumeric(c)))
}

/// The words of a text in small letters, without punctuation; words of punctuation alone drop out.
pub open spec fn plain_words(s: Seq<char>) -> Seq<Seq<char>> {
    words(s).map_values(|w: Seq<char>| bared(w)).filter(|w: Seq<char>| w.len() > 0)
}

/// The first two plain words of a text, or all of them where there are fewer.
pub open spec fn two_words(s: Seq<char>) -> Seq<char> {
    let all = plain_words(s);
    joined(
        if all.len() <= 2 {
            all
        } else {
            all.take(2)
        },
        " "@,
    )
}

/// Every four neighbouring characters of the text in small letters and with single blanks, or the
/// whole of it where it has not so many.
pub open spec fn fours(s: Seq<char>) -> Set<Seq<char>> {
    let n = lowercase(joined(words(s), " "@));
    Set::new(
        |x: Seq<char>|
            (n.len() < 4 && x == n) || exists|i: int|
                0 <= i && i + 4 <= n.len() && x == #[trigger] n.subrange(i, i + 4),
    )
}

proof fn lemma_letters_filter(w: Seq<char>)
    ensures
        letters(w) == w.filter(|c: char| alphanumeric(c)),
    decreases w.len(),
{
    reveal(Seq::filter);
    if w.len() > 0 {
        lemma_letters_filter(w.drop_last());
    } else {
        assert(letters(w) =~= w.filter(|c: char| alphanumeric(c)));
    }
}

proof fn lemma_bare_words_filter(ws: Seq<Seq<char>>)
    ensures
        bare_words(ws) == ws.map_values(|w: Seq<char>| bared(w)).filter(
            |w: Seq<char>| w.len() > 0,
        ),
    decreases ws.len(),
{
    reveal(Seq::filter);
    let m = ws.map_values(|w: Seq<char>| bared(w));
    if ws.len() > 0 {
        lemma_bare_words_filter(ws.drop_last());
        lemma_letters_filter(ws.last());
        assert(m.drop_last() =~= ws.drop_last().map_values(|w: Seq<char>| bared(w)));
        assert(m.last() == bared(ws.last()));
    } else {
        assert(m =~= Seq::empty());
        assert(bare_words(ws) =~= m.filter(|w: Seq<char>| w.len() > 0));
    }
}

proof fn lemma_stem_is_two_words(s: Seq<char>)
    ensures
        bare_words(words(s)) == plain_words(s),
        stem(s) == two_words(s),
{
    lemma_bare_words_filter(words(s));
}

proof fn lemma_shingles_are_fours(s: Seq<char>)
    ensures
        shingles(s) == fours(s),
{
    let n = normal(s);
    let p = pieces_of(n);
    assert forall|x: Seq<char>| shingles(s).contains(x) == fours(s).contains(x) by {
        if shingles(s).contains(x) {
            let i = choose|i: int| 0 <= i < p.len() && p[i] == x;
            if n.len() >= 4 {
                assert(x == n.subrange(i, i + 4));
            }
        }
        if fours(s).contains(x) {
            if n.len() < 4 {
                assert(p[0] == x);
            } else {
                let i = choose|i: int|
                    0 <= i && i + 4 <= n.len() && x == #[trigger] n.subrange(i, i + 4);
                assert(p[i] == x);
            }
        }
    }
    assert(shingles(s) =~= fours(s));
}

/// An opening of `k` words is the first `k` plain words of the text with blanks between them.
pub proof fn lemma_an_opening_is_the_first_plain_words(s: &str, k: usize, r: String)
    requires
        call_ensures(opening, (s, k), r),
    ensures
        r@ == joined(
            if plain_words(s@).len() <= k {
                plain_words(s@)
            } else {
                plain_words(s@).take(k as int)
            },
            " "@,
        ),
{
    lemma_stem_is_two_words(s@);
}

/// The filter is on above a threshold of zero. It drops an aside in flight as soon as two plain words
/// of it are there and some remembered aside starts with the same two; until then it waits.
pub proof fn lemma_what_is_doomed(m: InterjectionMemory, partial: &str, doomed: bool, told: bool)
    requires
        call_ensures(InterjectionMemory::doomed, (&m, partial), doomed),
        call_ensures(InterjectionMemory::decidable, (&m, partial), told),
        forall|i: int|
            0 <= i < plain_words(partial@).len() ==> !(#[trigger] plain_words(
                partial@,
            )[i]).contains(' '),
    ensures
        told == (m.dedup_threshold.at_most(F32(0)) || plain_words(partial@).len() >= 2),
        doomed == (!m.dedup_threshold.at_most(F32(0)) && plain_words(partial@).len() >= 2
            && exists|i: int|
            0 <= i < m.recent_interjections@.len() && two_words(
                (#[trigger] m.recent_interjections@[i])@,
            ) == two_words(partial@)),
{
    lemma_stem_is_two_words(partial@);
    lemma_bare_words_filter(words(partial@));
    let all = plain_words(partial@);
    let a = first_n(all, 2);
    assert forall|i: int| 0 <= i < a.len() implies (#[trigger] a[i]).len() > 0 && !a[i].contains(
        ' ',
    ) by {
        assert(a[i] == all[i]);
        let mapped = words(partial@).map_values(|w: Seq<char>| bared(w));
        broadcast use vstd::seq_lib::group_filter_ensures;

        assert(mapped.filter(|w: Seq<char>| w.len() > 0) == all);
        assert(all[i].len() > 0);
    }
    lemma_joined_falls_apart(a);
    assert(blank() =~= |c: char| c == ' ');
    let kept = m@.asides;
    assert forall|i: int| 0 <= i < kept.len() implies stem(#[trigger] kept[i]) == two_words(
        m.recent_interjections@[i]@,
    ) by {
        lemma_stem_is_two_words(kept[i]);
    }
    if m@.opens_alike(partial@) {
        let i = choose|i: int| 0 <= i < kept.len() && stem(#[trigger] kept[i]) == stem(partial@);
        assert(two_words(m.recent_interjections@[i]@) == two_words(partial@));
    }
    if exists|i: int|
        0 <= i < m.recent_interjections@.len() && two_words(
            (#[trigger] m.recent_interjections@[i])@,
        ) == two_words(partial@) {
        let i = choose|i: int|
            0 <= i < m.recent_interjections@.len() && two_words(
                (#[trigger] m.recent_interjections@[i])@,
            ) == two_words(partial@);
        assert(stem(kept[i]) == stem(partial@));
    }
}

/// The share of the fours of two texts that they have in common, as the arithmetic rounds it, is `q`.
pub open spec fn alike<N: Numerics>(num: &N, a: Seq<char>, b: Seq<char>, q: F32) -> bool {
    exists|part: usize, whole: usize|
        part == fours(a).intersect(fours(b)).len() && whole == fours(a).union(fours(b)).len()
            && #[trigger] call_ensures(N::ratio, (num, part, whole), q)
}

/// Where the filter is on, an aside is a repeat if some remembered one starts with the same two plain
/// words; whatever passes shares no more of its fours with any of them than the threshold allows; and
/// what is refused starts like one of them or shares more.
pub proof fn lemma_what_is_novel<N: Numerics>(
    m: InterjectionMemory,
    text: &str,
    num: &N,
    novel: bool,
)
    requires
        call_ensures(InterjectionMemory::is_novel, (&m, text, num), novel),
    ensures
        m.dedup_threshold.at_most(F32(0)) ==> novel,
        m.recent_interjections@.len() == 0 ==> novel,
        !m.dedup_threshold.at_most(F32(0)) && novel ==> forall|i: int|
            0 <= i < m.recent_interjections@.len() ==> two_words(
                (#[trigger] m.recent_interjections@[i])@,
            ) != two_words(text@) && exists|q: F32|
                #[trigger] alike(num, text@, m.recent_interjections@[i]@, q)
                    && !m.dedup_threshold.below(q),
        !novel ==> exists|i: int|
            0 <= i < m.recent_interjections@.len() && (two_words(
                (#[trigger] m.recent_interjections@[i])@,
            ) == two_words(text@) || exists|q: F32|
                #[trigger] alike(num, text@, m.recent_interjections@[i]@, q)
                    && m.dedup_threshold.below(q)),
{
    let kept = m@.asides;
    lemma_stem_is_two_words(text@);
    lemma_shingles_are_fours(text@);
    assert forall|i: int, r: bool|
        0 <= i < kept.len() && #[trigger] m@.too_similar(num, text@, kept[i], r) implies exists|
        q: F32,
    | #[trigger] alike(num, text@, m.recent_interjections@[i]@, q) && r == m.dedup_threshold.below(
        q,
    ) by {
        lemma_shingles_are_fours(kept[i]);
        let (q, part, whole) = choose|q: F32, part: usize, whole: usize|
            part == shingles(text@).intersect(shingles(kept[i])).len() && whole == shingles(
                text@,
            ).union(shingles(kept[i])).len() && #[trigger] call_ensures(
                N::ratio,
                (num, part, whole),
                q,
            ) && r == m@.dedup.below(q);
        assert(alike(num, text@, m.recent_interjections@[i]@, q));
    }
    if !m.dedup_threshold.at_most(F32(0)) && novel {
        assert forall|i: int| 0 <= i < m.recent_interjections@.len() implies two_words(
            (#[trigger] m.recent_interjections@[i])@,
        ) != two_words(text@) && exists|q: F32|
            #[trigger] alike(num, text@, m.recent_interjections@[i]@, q)
                && !m.dedup_threshold.below(q) by {
            lemma_stem_is_two_words(kept[i]);
            assert(stem(kept[i]) != stem(text@));
            assert(m@.too_similar(num, text@, kept[i], false));
        }
    }
    if !novel {
        let i = choose|i: int|
            0 <= i < kept.len() && (stem(#[trigger] kept[i]) == stem(text@) || m@.too_similar(
                num,
                text@,
                kept[i],
                true,
            ));
        lemma_stem_is_two_words(kept[i]);
        assert(two_words(m.recent_interjections@[i]@) == two_words(text@) || exists|q: F32|
            #[trigger] alike(num, text@, m.recent_interjections@[i]@, q)
                && m.dedup_threshold.below(q));
    }
}

/// A blank aside leaves no trace. Any other is kept, trimmed, behind those remembered, and only the
/// last six stay.
pub proof fn lemma_six_asides_are_kept(m: MemoryView, text: Seq<char>)
    ensures
        trimmed(text).len() == 0 ==> m.recorded(text) == m,
        trimmed(text).len() > 0 ==> {
            let all = m.asides.push(trimmed(text));
            let kept = m.recorded(text).asides;
            &&& kept.len() == if all.len() <= 6 {
                all.len()
            } else {
                6
            }
            &&& kept == all.skip(all.len() - kept.len())
        },
        m.recorded(text).since == m.since,
        m.recorded(text).span == m.span,
        m.recorded(text).dedup == m.dedup,
{
}

/// The asides shown are the newest, the newest first, as many as asked for or all there are.
pub proof fn lemma_the_newest_come_first(m: InterjectionMemory, n: usize, r: Vec<String>)
    requires
        call_ensures(InterjectionMemory::recent, (&m, n), r),
    ensures
        r@.len() == if n <= m.recent_interjections@.len() {
            n as int
        } else {
            m.recent_interjections@.len() as int
        },
        forall|i: int|
            0 <= i < r@.len() ==> (#[trigger] r@[i])@
                == m.recent_interjections@[m.recent_interjections@.len() - 1 - i]@,
{
    assert(texts(r@).len() == r@.len());
    assert forall|i: int| 0 <= i < r@.len() implies (#[trigger] r@[i])@
        == m.recent_interjections@[m.recent_interjections@.len() - 1 - i]@ by {
        assert(texts(r@)[i] == r@[i]@);
    }
}

} // verus!
