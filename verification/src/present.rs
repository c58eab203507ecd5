//! The showcase stage: the streamed text as a teleprompter, and under it the asides, oldest to newest,
//! with the one in flight forming at the bottom edge. What is laid out where is decided here; painting
//! it is the frontend's.

use crate::text::{
    char_lists, chars_of, closed_pieces, lemma_pieces_weigh_the_text, open_piece, pieces, split_on,
    texts, weight,
};
use vstd::prelude::*;
use vstd::string::*;

verus! {

/// How many blank lines stand between two asides.
pub const ASIDE_GAP: usize = 2;

/// How long one dot of the musing label lasts, in milliseconds.
pub const MUSING_MS: u64 = 400;

// ---------------------------------------------------------------------------------------------
// Wrapping
// ---------------------------------------------------------------------------------------------

/// Where greedy wrapping stands: lines that are full, characters on the current line, and whether a
/// word has been placed on this hard line yet.
pub struct Flow {
    pub lines: nat,
    pub cur: nat,
    pub started: bool,
}

/// Placing one more word on lines of `w` characters. An empty word is one of several blanks in a row.
/// A word that does not fit goes to the next line; one longer than a line spills over.
pub open spec fn placed(f: Flow, len: nat, w: nat) -> Flow {
    if len == 0 {
        if f.cur + 1 > w {
            Flow { lines: f.lines + 1, cur: 0, started: f.started }
        } else {
            Flow { cur: f.cur + 1, ..f }
        }
    } else {
        let need = if f.started {
            f.cur + 1 + len
        } else {
            len
        };
        let fits = !f.started || need <= w;
        let cur = if fits {
            need
        } else {
            len
        };
        let lines = if fits {
            f.lines
        } else {
            f.lines + 1
        };
        if cur > w {
            Flow { lines: lines + cur / w, cur: cur % w, started: true }
        } else {
            Flow { lines, cur, started: true }
        }
    }
}

/// Wrapping the first `n` words of a hard line.
pub open spec fn flowed(words: Seq<Seq<char>>, w: nat, n: int) -> Flow
    decreases n,
{
    if n <= 0 {
        Flow { lines: 0, cur: 0, started: false }
    } else {
        placed(flowed(words, w, n - 1), words[n - 1].len(), w)
    }
}

/// How many lines a hard line takes.
pub open spec fn hard_lines(hard: Seq<char>, w: nat) -> nat {
    flowed(pieces(hard, ' '), w, pieces(hard, ' ').len() as int).lines + 1
}

/// How many lines the first `n` hard lines take.
pub open spec fn lines_upto(hards: Seq<Seq<char>>, w: nat, n: int) -> nat
    decreases n,
{
    if n <= 0 {
        0
    } else {
        lines_upto(hards, w, n - 1) + hard_lines(hards[n - 1], w)
    }
}

/// How many lines a text takes on lines of `w` characters.
pub open spec fn wrapped(s: Seq<char>, w: nat) -> nat {
    if w == 0 {
        1
    } else {
        lines_upto(pieces(s, '\n'), w, pieces(s, '\n').len() as int)
    }
}

proof fn lemma_flow_bound(words: Seq<Seq<char>>, w: nat, n: int)
    requires
        w >= 1,
        0 <= n <= words.len(),
    ensures
        flowed(words, w, n).lines + flowed(words, w, n).cur <= weight(words, n),
        flowed(words, w, n).cur <= w,
    decreases n,
{
    if n > 0 {
        lemma_flow_bound(words, w, n - 1);
        let f = flowed(words, w, n - 1);
        let len = words[n - 1].len();
        if len > 0 {
            let need = if f.started {
                f.cur + 1 + len
            } else {
                len
            };
            let cur = if !f.started || need <= w {
                need
            } else {
                len
            };
            lemma_spill(cur, w);
        }
    }
}

proof fn lemma_spill(cur: nat, w: nat)
    requires
        w >= 1,
    ensures
        cur / w + cur % w <= cur,
        cur % w < w,
{
    assert(cur == w * (cur / w) + cur % w) by (nonlinear_arith)
        requires
            w >= 1,
    ;
    assert(w * (cur / w) >= cur / w) by (nonlinear_arith)
        requires
            w >= 1,
            cur / w >= 0,
    ;
    assert(cur % w < w) by (nonlinear_arith)
        requires
            w >= 1,
    ;
}

/// A hard line takes at least one line, and at most two more than it has characters.
pub proof fn lemma_hard_lines_bound(hard: Seq<char>, w: nat)
    requires
        w >= 1,
    ensures
        1 <= hard_lines(hard, w) <= hard.len() + 2,
{
    let ws = pieces(hard, ' ');
    lemma_flow_bound(ws, w, ws.len() as int);
    lemma_pieces_weigh_the_text(hard, ' ');
}

proof fn lemma_lines_bound(hards: Seq<Seq<char>>, w: nat, n: int)
    requires
        w >= 1,
        0 <= n <= hards.len(),
    ensures
        n <= lines_upto(hards, w, n) <= weight(hards, n) + n,
        n <= weight(hards, n),
    decreases n,
{
    if n > 0 {
        lemma_lines_bound(hards, w, n - 1);
        lemma_hard_lines_bound(hards[n - 1], w);
    }
}

/// A text takes at least one line, and at most two lines a character and two more.
pub proof fn lemma_wrapped_bound(s: Seq<char>, w: nat)
    ensures
        1 <= wrapped(s, w) <= 2 * s.len() + 2,
{
    if w >= 1 {
        let hs = pieces(s, '\n');
        lemma_lines_bound(hs, w, hs.len() as int);
        lemma_pieces_weigh_the_text(s, '\n');
    }
}

/// How many lines a hard line takes.
fn count_hard(hard: &Vec<char>, w: usize) -> (r: usize)
    requires
        w >= 1,
        hard@.len() + 2 <= usize::MAX,
    ensures
        r == hard_lines(hard@, w as nat),
{
    let words = split_on(hard, ' ');
    let ghost ws = pieces(hard@, ' ');
    let mut lines: usize = 0;
    let mut cur: usize = 0;
    let mut started: bool = false;
    let mut i: usize = 0;
    proof {
        lemma_pieces_weigh_the_text(hard@, ' ');
    }
    while i < words.len()
        invariant
            w >= 1,
            ws == pieces(hard@, ' '),
            ws == char_lists(words@),
            weight(ws, ws.len() as int) == hard@.len() + 1,
            hard@.len() + 2 <= usize::MAX,
            i <= words@.len(),
            lines == flowed(ws, w as nat, i as int).lines,
            cur == flowed(ws, w as nat, i as int).cur,
            started == flowed(ws, w as nat, i as int).started,
        decreases words@.len() - i,
    {
        let len: usize = words[i].len();
        proof {
            assert(ws[i as int] == words@[i as int]@);
            lemma_flow_bound(ws, w as nat, i as int);
            lemma_flow_bound(ws, w as nat, i + 1);
            lemma_weight_grows(ws, i + 1, ws.len() as int);
        }
        if len == 0 {
            cur = cur + 1;
            if cur > w {
                lines = lines + 1;
                cur = 0;
            }
        } else {
            let need: usize = if started {
                cur + 1 + len
            } else {
                len
            };
            if !started || need <= w {
                cur = need;
                started = true;
            } else {
                lines = lines + 1;
                cur = len;
            }
            if cur > w {
                proof {
                    lemma_spill(cur as nat, w as nat);
                }
                lines = lines + cur / w;
                cur = cur % w;
            }
        }
        i = i + 1;
    }
    proof {
        lemma_hard_lines_bound(hard@, w as nat);
    }
    lines + 1
}

proof fn lemma_weight_grows(ps: Seq<Seq<char>>, a: int, b: int)
    requires
        0 <= a <= b <= ps.len(),
    ensures
        weight(ps, a) <= weight(ps, b),
    decreases b,
{
    if a < b {
        lemma_weight_grows(ps, a, b - 1);
    }
}

/// Count the lines that a text takes when it is wrapped at word boundaries, so that a pane can be
/// anchored at its bottom without clipping.
pub fn wrap_count(s: &str, w: usize) -> (r: usize)
    requires
        2 * s@.len() + 2 <= usize::MAX,
    ensures
        r == wrapped(s@, w as nat),
        r >= 1,
{
    if w == 0 {
        return 1;
    }
    let hards = split_on(&chars_of(s), '\n');
    let ghost hs = pieces(s@, '\n');
    let mut lines: usize = 0;
    let mut i: usize = 0;
    proof {
        lemma_pieces_weigh_the_text(s@, '\n');
        lemma_wrapped_bound(s@, w as nat);
    }
    while i < hards.len()
        invariant
            w >= 1,
            hs == pieces(s@, '\n'),
            hs == char_lists(hards@),
            weight(hs, hs.len() as int) == s@.len() + 1,
            2 * s@.len() + 2 <= usize::MAX,
            i <= hards@.len(),
            lines == lines_upto(hs, w as nat, i as int),
        decreases hards@.len() - i,
    {
        proof {
            assert(hs[i as int] == hards@[i as int]@);
            lemma_lines_bound(hs, w as nat, i + 1);
            lemma_weight_grows(hs, i + 1, hs.len() as int);
        }
        lines = lines + count_hard(&hards[i], w);
        i = i + 1;
    }
    lines
}

// ---------------------------------------------------------------------------------------------
// The feed
// ---------------------------------------------------------------------------------------------

/// How a line of the feed looks.
#[derive(Copy, Clone, Debug, PartialEq, Eq, Structural)]
pub enum FeedStyle {
    /// A blank line.
    Blank,
    /// A settled aside.
    Settled,
    /// The latest settled aside, while none is forming.
    Latest,
    /// The aside that forms.
    Forming,
    /// An aside that has not begun to form.
    Musing,
    /// The mark of a feed without any aside.
    Waiting,
}

/// One line of the feed, before wrapping.
pub struct FeedLine {
    pub text: String,
    pub style: FeedStyle,
}

/// A line of the feed, as a value.
pub struct LineView {
    pub text: Seq<char>,
    pub style: FeedStyle,
}

/// The lines of a feed, as values.
pub open spec fn line_views(v: Seq<FeedLine>) -> Seq<LineView> {
    v.map_values(|l: FeedLine| LineView { text: l.text@, style: l.style })
}

/// A blank line.
pub open spec fn blank() -> LineView {
    LineView { text: Seq::empty(), style: FeedStyle::Blank }
}

/// The feed pane: its lines, and how far they are scrolled.
pub struct Feed {
    pub lines: Vec<FeedLine>,
    pub scroll: u16,
}

/// The lines of the first `n` asides, with blank lines between them.
pub open spec fn aside_lines(asides: Seq<Seq<char>>, forming: bool, n: int) -> Seq<LineView>
    decreases n,
{
    if n <= 0 {
        Seq::empty()
    } else {
        let before = aside_lines(asides, forming, n - 1);
        let spaced = if n > 1 {
            before.push(blank()).push(blank())
        } else {
            before
        };
        let style = if n == asides.len() && !forming {
            FeedStyle::Latest
        } else {
            FeedStyle::Settled
        };
        spaced.push(LineView { text: asides[n - 1], style })
    }
}

/// How many lines of the pane the first `n` asides take.
pub open spec fn aside_total(asides: Seq<Seq<char>>, w: nat, n: int) -> nat
    decreases n,
{
    if n <= 0 {
        0
    } else {
        aside_total(asides, w, n - 1) + (if n > 1 {
            ASIDE_GAP as nat
        } else {
            0
        }) + wrapped(asides[n - 1], w)
    }
}

/// The line of the aside in flight.
pub open spec fn pending_line(p: Seq<char>) -> LineView {
    if p.len() == 0 {
        LineView { text: "musing…"@, style: FeedStyle::Musing }
    } else {
        LineView { text: p + "▍"@, style: FeedStyle::Forming }
    }
}

/// The lines of the feed.
pub open spec fn feed_lines(asides: Seq<Seq<char>>, pending: Option<Seq<char>>) -> Seq<LineView> {
    let n = asides.len() as int;
    let settled = aside_lines(asides, pending is Some, n);
    match pending {
        Some(p) => if n > 0 {
            settled.push(blank()).push(blank()).push(pending_line(p))
        } else {
            settled.push(pending_line(p))
        },
        None => if n == 0 {
            settled.push(LineView { text: "…"@, style: FeedStyle::Waiting })
        } else {
            settled
        },
    }
}

/// How many lines of the pane the feed takes. The aside in flight is given one more than it needs, so
/// that its last line is never clipped.
pub open spec fn feed_total(asides: Seq<Seq<char>>, pending: Option<Seq<char>>, w: nat) -> nat {
    let n = asides.len() as int;
    let settled = aside_total(asides, w, n);
    match pending {
        Some(p) => settled + (if n > 0 {
            ASIDE_GAP as nat
        } else {
            0
        }) + wrapped(pending_line(p).text, w) + 1,
        None => if n == 0 {
            settled + 1
        } else {
            settled
        },
    }
}

/// The text of an optional string.
pub open spec fn opt_text(s: Option<&str>) -> Option<Seq<char>> {
    match s {
        Some(t) => Some(t@),
        None => None,
    }
}

fn push_line(lines: &mut Vec<FeedLine>, text: String, style: FeedStyle)
    ensures
        line_views(final(lines)@) == line_views(old(lines)@).push(
            LineView { text: text@, style },
        ),
{
    let ghost before = line_views(lines@);
    let ghost t = text@;
    lines.push(FeedLine { text, style });
    assert(line_views(lines@) =~= before.push(LineView { text: t, style }));
}

fn push_gap(lines: &mut Vec<FeedLine>)
    ensures
        line_views(final(lines)@) == line_views(old(lines)@).push(blank()).push(blank()),
{
    let a = String::new();
    let b = String::new();
    assert(a@ =~= Seq::empty());
    assert(b@ =~= Seq::empty());
    push_line(lines, a, FeedStyle::Blank);
    push_line(lines, b, FeedStyle::Blank);
}

/// Every text of the feed can be counted when it is wrapped.
pub open spec fn countable_texts(asides: Seq<Seq<char>>, pending: Option<Seq<char>>) -> bool {
    &&& forall|i: int|
        0 <= i < asides.len() ==> 2 * (#[trigger] asides[i]).len() + 2 <= usize::MAX
    &&& pending matches Some(p) ==> 2 * p.len() + 4 <= usize::MAX
}

/// A count of lines to scroll by: none where there is nothing to scroll, and never more than can be
/// counted.
pub open spec fn clamped(over: int) -> u16 {
    if over <= 0 {
        0
    } else if over <= u16::MAX {
        over as u16
    } else {
        u16::MAX
    }
}

fn clamp_scroll(over: usize) -> (r: u16)
    ensures
        r == clamped(over as int),
{
    if over <= u16::MAX as usize {
        over as u16
    } else {
        u16::MAX
    }
}

/// Lay out the feed in a pane of `w` by `h` characters. While the asides do not fill the pane it is
/// padded from above, so that the newest sits at its bottom edge; once they do, it is scrolled so that
/// the newest stays there and the older ones slide off the top.
pub fn draw_feed(asides: &Vec<String>, pending: Option<&str>, w: usize, h: usize) -> (feed: Feed)
    requires
        countable_texts(texts(asides@), opt_text(pending)),
        feed_total(texts(asides@), opt_text(pending), w as nat) <= usize::MAX,
    ensures
        ({
            let lines = feed_lines(texts(asides@), opt_text(pending));
            let total = feed_total(texts(asides@), opt_text(pending), w as nat);
            if total < h {
                &&& line_views(feed.lines@) == Seq::new((h - total) as nat, |i: int| blank()) + lines
                &&& feed.scroll == 0
            } else {
                &&& line_views(feed.lines@) == lines
                &&& feed.scroll == clamped(total - h)
            }
        }),
{
    let ghost all = texts(asides@);
    let n: usize = asides.len();
    let forming: bool = pending.is_some();
    let mut lines: Vec<FeedLine> = Vec::new();
    let mut total: usize = 0;
    let mut i: usize = 0;
    assert(line_views(lines@) =~= Seq::empty());
    proof {
        reveal_strlit("musing…");
        reveal_strlit("▍");
    }
    while i < n
        invariant
            n == asides@.len(),
            all == texts(asides@),
            i <= n,
            forming == (pending is Some),
            countable_texts(all, opt_text(pending)),
            feed_total(all, opt_text(pending), w as nat) <= usize::MAX,
            total == aside_total(all, w as nat, i as int),
            line_views(lines@) == aside_lines(all, forming, i as int),
        decreases n - i,
    {
        proof {
            assert(all[i as int] == asides@[i as int]@);
            lemma_aside_total_grows(all, w as nat, i + 1, n as int);
        }
        if i > 0 {
            push_gap(&mut lines);
            total = total + ASIDE_GAP;
        }
        let style = if i + 1 == n && !forming {
            FeedStyle::Latest
        } else {
            FeedStyle::Settled
        };
        total = total + wrap_count(asides[i].as_str(), w);
        push_line(&mut lines, asides[i].clone(), style);
        i = i + 1;
    }
    match pending {
        Some(p) => {
            if n > 0 {
                push_gap(&mut lines);
                total = total + ASIDE_GAP;
            }
            if p.is_empty() {
                let body = "musing…".to_owned();
                total = total + wrap_count(body.as_str(), w) + 1;
                push_line(&mut lines, body, FeedStyle::Musing);
            } else {
                let mut body = p.to_owned();
                body.append("▍");
                total = total + wrap_count(body.as_str(), w) + 1;
                push_line(&mut lines, body, FeedStyle::Forming);
            }
        },
        None => {
            if n == 0 {
                push_line(&mut lines, "…".to_owned(), FeedStyle::Waiting);
                total = total + 1;
            }
        },
    }
    assert(line_views(lines@) == feed_lines(all, opt_text(pending)));
    if total < h {
        let pad: usize = h - total;
        let mut padded: Vec<FeedLine> = Vec::new();
        let mut k: usize = 0;
        assert(line_views(padded@) =~= Seq::new(0, |i: int| blank()));
        while k < pad
            invariant
                k <= pad,
                line_views(padded@) == Seq::new(k as nat, |i: int| blank()),
            decreases pad - k,
        {
            let s = String::new();
            assert(s@ =~= Seq::empty());
            push_line(&mut padded, s, FeedStyle::Blank);
            k = k + 1;
            assert(line_views(padded@) =~= Seq::new(k as nat, |i: int| blank()));
        }
        let ghost above = padded@;
        let ghost below = lines@;
        padded.append(&mut lines);
        assert(line_views(padded@) =~= line_views(above) + line_views(below));
        Feed { lines: padded, scroll: 0 }
    } else {
        let over: usize = total - h;
        Feed { lines, scroll: clamp_scroll(over) }
    }
}

proof fn lemma_aside_total_grows(asides: Seq<Seq<char>>, w: nat, a: int, b: int)
    requires
        0 <= a <= b <= asides.len(),
    ensures
        aside_total(asides, w, a) <= aside_total(asides, w, b),
    decreases b,
{
    if a < b {
        lemma_aside_total_grows(asides, w, a, b - 1);
    }
}

/// How far the teleprompter is scrolled so that its newest line sits at the bottom of a pane of `w` by
/// `h` characters.
pub fn prose_scroll(prose: &str, w: usize, h: usize) -> (r: u16)
    requires
        2 * prose@.len() + 2 <= usize::MAX,
    ensures
        r == clamped(wrapped(prose@, w as nat) - h),
{
    let total: usize = wrap_count(prose, w);
    let over: usize = if total > h {
        total - h
    } else {
        0
    };
    clamp_scroll(over)
}

/// What the footer says of the stream.
#[derive(Copy, Clone, Debug, PartialEq, Eq, Structural)]
pub enum Standing {
    Finished,
    Paused,
    Reading,
}

/// What the footer says: that the stream is over goes before that it is paused.
pub fn standing(paused: bool, done: bool) -> (s: Standing)
    ensures
        s == if done {
            Standing::Finished
        } else if paused {
            Standing::Paused
        } else {
            Standing::Reading
        },
{
    if done {
        Standing::Finished
    } else if paused {
        Standing::Paused
    } else {
        Standing::Reading
    }
}

impl Standing {
    /// The word for it in the footer of the showcase.
    pub fn label(&self) -> (r: &'static str)
        ensures
            r@ == match *self {
                Standing::Finished => "finished"@,
                Standing::Paused => "paused"@,
                Standing::Reading => "reading"@,
            },
    {
        match self {
            Standing::Finished => "finished",
            Standing::Paused => "paused",
            Standing::Reading => "reading",
        }
    }

    /// The word for it in the status line of the calibration instrument.
    pub fn banner(&self) -> (r: &'static str)
        ensures
            r@ == match *self {
                Standing::Finished => "DONE"@,
                Standing::Paused => "PAUSED"@,
                Standing::Reading => "OBSERVING"@,
            },
    {
        match self {
            Standing::Finished => "DONE",
            Standing::Paused => "PAUSED",
            Standing::Reading => "OBSERVING",
        }
    }
}

/// What is shown while an aside has not begun to form: one, two or three dots in turn.
pub open spec fn musing(ms: u64) -> Seq<char> {
    if (ms / MUSING_MS) % 3 == 0 {
        "musing."@
    } else if (ms / MUSING_MS) % 3 == 1 {
        "musing.."@
    } else {
        "musing..."@
    }
}

/// What is shown while an aside has not begun to form.
pub fn musing_label(anim_ms: u64) -> (r: String)
    ensures
        r@ == musing(anim_ms),
{
    let beat: u64 = (anim_ms / MUSING_MS) % 3;
    if beat == 0 {
        "musing.".to_owned()
    } else if beat == 1 {
        "musing..".to_owned()
    } else {
        "musing...".to_owned()
    }
}

// ---------------------------------------------------------------------------------------------
// Laws
// ---------------------------------------------------------------------------------------------

/// The aside in flight is always the last line of the feed, and everything settled stands above it in
/// the order in which it came.
pub proof fn lemma_feed_ends_in_the_aside_in_flight(asides: Seq<Seq<char>>, p: Seq<char>)
    ensures
        feed_lines(asides, Some(p)).len() > 0,
        feed_lines(asides, Some(p)).last() == pending_line(p),
{
}

/// A single word takes one line as soon as it fits one.
pub proof fn lemma_word_takes_one_line(word: Seq<char>, w: nat)
    requires
        word.len() <= w,
        word.len() > 0,
        forall|i: int| 0 <= i < word.len() ==> #[trigger] word[i] != ' ' && word[i] != '\n',
    ensures
        wrapped(word, w) == 1,
{
    lemma_one_piece(word, ' ');
    lemma_one_piece(word, '\n');
    let ws = pieces(word, ' ');
    let hs = pieces(word, '\n');
    assert(flowed(ws, w, 0).lines == 0);
    assert(flowed(ws, w, 1) == placed(flowed(ws, w, 0), word.len(), w));
    assert(lines_upto(hs, w, 0) == 0);
    assert(lines_upto(hs, w, 1) == hard_lines(word, w));
}

proof fn lemma_one_piece(s: Seq<char>, c: char)
    requires
        forall|i: int| 0 <= i < s.len() ==> #[trigger] s[i] != c,
    ensures
        pieces(s, c) == seq![s],
        crate::text::open_piece(s, c) == s,
        crate::text::closed_pieces(s, c).len() == 0,
    decreases s.len(),
{
    if s.len() > 0 {
        assert forall|i: int| 0 <= i < s.drop_last().len() implies #[trigger] s.drop_last()[i]
            != c by {
            assert(s.drop_last()[i] == s[i]);
        }
        lemma_one_piece(s.drop_last(), c);
        assert(s[s.len() - 1] != c);
        assert(s.drop_last().push(s.last()) =~= s);
    }
    assert(crate::text::open_piece(s, c) =~= s);
    assert(pieces(s, c) =~= seq![s]);
}

/// A text with a line break takes the lines of what stands before it and of what stands behind it.
pub proof fn lemma_a_line_break_adds_up(a: Seq<char>, b: Seq<char>, w: nat)
    requires
        w >= 1,
    ensures
        wrapped(a + seq!['\n'] + b, w) == wrapped(a, w) + wrapped(b, w),
{
    let hs = pieces(a + seq!['\n'] + b, '\n');
    let x = pieces(a, '\n');
    let y = pieces(b, '\n');
    lemma_pieces_of_both(a, b, '\n');
    lemma_lines_of_both(x, y, w, y.len() as int);
    assert(hs == x + y);
}

proof fn lemma_pieces_of_both(a: Seq<char>, b: Seq<char>, c: char)
    ensures
        pieces(a + seq![c] + b, c) == pieces(a, c) + pieces(b, c),
        closed_pieces(a + seq![c] + b, c) == pieces(a, c) + closed_pieces(b, c),
        open_piece(a + seq![c] + b, c) == open_piece(b, c),
    decreases b.len(),
{
    let s = a + seq![c] + b;
    if b.len() == 0 {
        assert(s.drop_last() =~= a);
        assert(s.last() == c);
        assert(closed_pieces(s, c) =~= pieces(a, c) + closed_pieces(b, c));
        assert(open_piece(s, c) =~= open_piece(b, c));
    } else {
        lemma_pieces_of_both(a, b.drop_last(), c);
        assert(s.drop_last() =~= a + seq![c] + b.drop_last());
        assert(s.last() == b.last());
        assert(closed_pieces(s, c) =~= pieces(a, c) + closed_pieces(b, c));
    }
    assert(pieces(s, c) =~= pieces(a, c) + pieces(b, c));
}

proof fn lemma_lines_upto_prefix(x: Seq<Seq<char>>, y: Seq<Seq<char>>, w: nat, n: int)
    requires
        0 <= n <= x.len(),
    ensures
        lines_upto(x + y, w, n) == lines_upto(x, w, n),
    decreases n,
{
    if n > 0 {
        lemma_lines_upto_prefix(x, y, w, n - 1);
        assert((x + y)[n - 1] == x[n - 1]);
    }
}

proof fn lemma_lines_of_both(x: Seq<Seq<char>>, y: Seq<Seq<char>>, w: nat, n: int)
    requires
        0 <= n <= y.len(),
    ensures
        lines_upto(x + y, w, x.len() + n) == lines_upto(x, w, x.len() as int) + lines_upto(y, w, n),
    decreases n,
{
    if n == 0 {
        lemma_lines_upto_prefix(x, y, w, x.len() as int);
    } else {
        lemma_lines_of_both(x, y, w, n - 1);
        assert((x + y)[x.len() + n - 1] == y[n - 1]);
    }
}

proof fn lemma_flowed_prefix(x: Seq<Seq<char>>, y: Seq<Seq<char>>, w: nat, n: int)
    requires
        0 <= n <= x.len(),
    ensures
        flowed(x + y, w, n) == flowed(x, w, n),
    decreases n,
{
    if n > 0 {
        lemma_flowed_prefix(x, y, w, n - 1);
        assert((x + y)[n - 1] == x[n - 1]);
    }
}

/// A line of words with single blanks between them: it neither starts nor ends with a blank, and no two
/// stand together.
pub open spec fn evenly_spaced(s: Seq<char>) -> bool {
    &&& s.len() > 0
    &&& s[0] != ' '
    &&& s.last() != ' '
    &&& forall|i: int| 0 <= i < s.len() - 1 ==> !(#[trigger] s[i] == ' ' && s[i + 1] == ' ')
}

proof fn lemma_pieces_are_words(s: Seq<char>)
    requires
        s.len() > 0,
        s[0] != ' ',
        forall|i: int| 0 <= i < s.len() - 1 ==> !(#[trigger] s[i] == ' ' && s[i + 1] == ' '),
    ensures
        open_piece(s, ' ').len() == 0 <==> s.last() == ' ',
        forall|i: int|
            0 <= i < closed_pieces(s, ' ').len() ==> (#[trigger] closed_pieces(s, ' ')[i]).len() > 0,
    decreases s.len(),
{
    let t = s.drop_last();
    if s.len() == 1 {
        assert(t =~= Seq::empty());
    } else {
        assert forall|i: int| 0 <= i < t.len() - 1 implies !(#[trigger] t[i] == ' ' && t[i + 1]
            == ' ') by {
            assert(s[i] == t[i]);
        }
        lemma_pieces_are_words(t);
        assert(t.last() == s[s.len() - 2]);
        if s.last() == ' ' {
            let was = closed_pieces(t, ' ');
            assert(t.last() != ' ');
            assert(closed_pieces(s, ' ') == was.push(open_piece(t, ' ')));
        }
    }
}

proof fn lemma_short_line_flows(words: Seq<Seq<char>>, w: nat, n: int)
    requires
        0 < n <= words.len(),
        forall|i: int| 0 <= i < words.len() ==> (#[trigger] words[i]).len() > 0,
        weight(words, words.len() as int) <= w + 1,
    ensures
        flowed(words, w, n).lines == 0,
        flowed(words, w, n).started,
        flowed(words, w, n).cur + 1 == weight(words, n),
    decreases n,
{
    lemma_weight_grows(words, n, words.len() as int);
    if n > 1 {
        lemma_short_line_flows(words, w, n - 1);
        assert(words[n - 1].len() > 0);
    } else {
        assert(flowed(words, w, 0).lines == 0);
        assert(weight(words, 0) == 0);
        assert(words[0].len() > 0);
    }
}

/// A line that fits takes one line, also where it fills it.
pub proof fn lemma_what_fits_takes_one_line(s: Seq<char>, w: nat)
    requires
        evenly_spaced(s),
        s.len() <= w,
        forall|i: int| 0 <= i < s.len() ==> #[trigger] s[i] != '\n',
    ensures
        wrapped(s, w) == 1,
{
    lemma_pieces_are_words(s);
    let ws = pieces(s, ' ');
    assert forall|i: int| 0 <= i < ws.len() implies (#[trigger] ws[i]).len() > 0 by {
        if i < ws.len() - 1 {
            assert(ws[i] == closed_pieces(s, ' ')[i]);
        }
    }
    lemma_pieces_weigh_the_text(s, ' ');
    lemma_short_line_flows(ws, w, ws.len() as int);
    lemma_one_piece(s, '\n');
    let hs = pieces(s, '\n');
    assert(lines_upto(hs, w, 0) == 0);
    assert(lines_upto(hs, w, 1) == hard_lines(s, w));
}

proof fn lemma_flow_holds(words: Seq<Seq<char>>, w: nat, n: int)
    requires
        w >= 1,
        0 < n <= words.len(),
        words[0].len() > 0,
    ensures
        flowed(words, w, n).started,
        flowed(words, w, n).cur <= w,
        weight(words, n) <= flowed(words, w, n).lines * (w + 1) + flowed(words, w, n).cur + 1,
    decreases n,
{
    let g = flowed(words, w, n);
    let len = words[n - 1].len();
    lemma_flow_bound(words, w, n);
    if n == 1 {
        assert(flowed(words, w, 0) == (Flow { lines: 0, cur: 0, started: false }));
        assert(weight(words, 0) == 0);
        assert(weight(words, 1) == len + 1);
        lemma_spilled_lines(0, len, w);
    } else {
        lemma_flow_holds(words, w, n - 1);
        let f = flowed(words, w, n - 1);
        lemma_spilled_lines(f.lines, f.cur + 1 + len, w);
        lemma_spilled_lines(f.lines + 1, len, w);
        assert((f.lines + 1) * (w + 1) == f.lines * (w + 1) + w + 1) by (nonlinear_arith);
    }
}

proof fn lemma_spilled_lines(lines: nat, cur: nat, w: nat)
    requires
        w >= 1,
    ensures
        (lines + cur / w) * (w + 1) + cur % w >= lines * (w + 1) + cur,
{
    assert(cur == w * (cur / w) + cur % w) by (nonlinear_arith)
        requires
            w >= 1,
    ;
    assert((lines + cur / w) * (w + 1) == lines * (w + 1) + w * (cur / w) + cur / w)
        by (nonlinear_arith);
}

/// A line that does not start with a blank never gets fewer lines than its characters need: each line
/// holds `w` of them, and one blank is lost where it breaks.
pub proof fn lemma_no_character_is_clipped(s: Seq<char>, w: nat)
    requires
        w >= 1,
        s.len() > 0,
        s[0] != ' ',
        forall|i: int| 0 <= i < s.len() ==> #[trigger] s[i] != '\n',
    ensures
        s.len() + 1 <= wrapped(s, w) * (w + 1),
{
    let ws = pieces(s, ' ');
    lemma_first_piece(s);
    lemma_pieces_weigh_the_text(s, ' ');
    lemma_flow_holds(ws, w, ws.len() as int);
    lemma_one_piece(s, '\n');
    let hs = pieces(s, '\n');
    assert(lines_upto(hs, w, 0) == 0);
    assert(lines_upto(hs, w, 1) == hard_lines(s, w));
    let l = flowed(ws, w, ws.len() as int).lines;
    assert((l + 1) * (w + 1) == l * (w + 1) + w + 1) by (nonlinear_arith);
}

proof fn lemma_first_piece(s: Seq<char>)
    requires
        s.len() > 0,
        s[0] != ' ',
    ensures
        pieces(s, ' ')[0].len() > 0,
        closed_pieces(s, ' ').len() > 0 ==> closed_pieces(s, ' ')[0].len() > 0,
        closed_pieces(s, ' ').len() == 0 ==> open_piece(s, ' ').len() > 0,
    decreases s.len(),
{
    let t = s.drop_last();
    if s.len() == 1 {
        assert(t =~= Seq::empty());
    } else {
        lemma_first_piece(t);
    }
}

/// One more word on a line takes at most one line more, where the word itself fits a line; and none where
/// the whole still fits.
pub proof fn lemma_a_word_takes_at_most_a_line_more(s: Seq<char>, word: Seq<char>, w: nat)
    requires
        0 < word.len() <= w,
        forall|i: int| 0 <= i < word.len() ==> #[trigger] word[i] != ' ',
    ensures
        hard_lines(s, w) <= hard_lines(s + seq![' '] + word, w) <= hard_lines(s, w) + 1,
{
    let x = pieces(s, ' ');
    let y = pieces(word, ' ');
    lemma_pieces_of_both(s, word, ' ');
    lemma_one_piece(word, ' ');
    let n = x.len() as int;
    lemma_flowed_prefix(x, y, w, n);
    assert((x + y)[n] == word);
    assert(flowed(x + y, w, n + 1) == placed(flowed(x, w, n), word.len(), w));
    lemma_flow_bound(x, w, n);
    let f = flowed(x, w, n);
    if f.started {
        assert(f.cur + 1 + word.len() <= w || word.len() <= w);
    }
}

/// A word longer than a line goes on over as many lines as it fills, and one more.
pub proof fn lemma_a_long_word_spills_over(word: Seq<char>, w: nat)
    requires
        0 < w < word.len(),
        forall|i: int| 0 <= i < word.len() ==> #[trigger] word[i] != ' ' && word[i] != '\n',
    ensures
        wrapped(word, w) == word.len() / w + 1,
{
    lemma_one_piece(word, ' ');
    lemma_one_piece(word, '\n');
    let ws = pieces(word, ' ');
    let hs = pieces(word, '\n');
    assert(flowed(ws, w, 0) == (Flow { lines: 0, cur: 0, started: false }));
    assert(flowed(ws, w, 1) == placed(flowed(ws, w, 0), word.len(), w));
    assert(lines_upto(hs, w, 0) == 0);
    assert(lines_upto(hs, w, 1) == hard_lines(word, w));
}

/// The feed shows every settled aside in the order in which it came, each two lines below the one before
/// it. The latest stands out while none is forming. The aside in flight comes two lines below them with a
/// cursor behind it, or as a note that one is coming; a feed without any aside shows that it waits.
pub proof fn lemma_the_feed_is_spaced(asides: Seq<Seq<char>>, pending: Option<Seq<char>>)
    ensures
        ({
            let lines = feed_lines(asides, pending);
            let n = asides.len() as int;
            &&& lines.len() == if n == 0 {
                1
            } else if pending is Some {
                3 * n + 1
            } else {
                3 * n - 2
            }
            &&& forall|i: int|
                0 <= i < lines.len() && i % 3 != 0 ==> (#[trigger] lines[i]).text.len() == 0
                    && lines[i].style == FeedStyle::Blank
            &&& forall|i: int|
                0 <= i < n ==> (#[trigger] lines[3 * i]).text == asides[i] && lines[3 * i].style
                    == if i == n - 1 && pending is None {
                    FeedStyle::Latest
                } else {
                    FeedStyle::Settled
                }
            &&& pending matches Some(p) ==> {
                &&& p.len() == 0 ==> lines.last() == (LineView {
                    text: "musing…"@,
                    style: FeedStyle::Musing,
                })
                &&& p.len() > 0 ==> lines.last() == (LineView {
                    text: p + "▍"@,
                    style: FeedStyle::Forming,
                })
            }
            &&& n == 0 && pending is None ==> lines.last() == (LineView {
                text: "…"@,
                style: FeedStyle::Waiting,
            })
        }),
{
    lemma_asides_are_spaced(asides, pending is Some, asides.len() as int);
    let lines = feed_lines(asides, pending);
    let settled = aside_lines(asides, pending is Some, asides.len() as int);
    assert forall|i: int| 0 <= i < asides.len() implies #[trigger] lines[3 * i] == settled[3
        * i] by {}
    assert forall|i: int| 0 <= i < lines.len() && i % 3 != 0 implies (#[trigger] lines[i]).text.len()
        == 0 && lines[i].style == FeedStyle::Blank by {
        if i < settled.len() {
            assert(lines[i] == settled[i]);
        }
    }
}

proof fn lemma_asides_are_spaced(asides: Seq<Seq<char>>, forming: bool, n: int)
    requires
        0 <= n <= asides.len(),
    ensures
        ({
            let lines = aside_lines(asides, forming, n);
            &&& lines.len() == if n == 0 {
                0
            } else {
                3 * n - 2
            }
            &&& forall|i: int|
                0 <= i < lines.len() && i % 3 != 0 ==> (#[trigger] lines[i]) == blank()
            &&& forall|i: int|
                0 <= i < n ==> (#[trigger] lines[3 * i]).text == asides[i] && lines[3 * i].style
                    == if i == asides.len() - 1 && !forming {
                    FeedStyle::Latest
                } else {
                    FeedStyle::Settled
                }
        }),
    decreases n,
{
    if n > 0 {
        lemma_asides_are_spaced(asides, forming, n - 1);
        let before = aside_lines(asides, forming, n - 1);
        let lines = aside_lines(asides, forming, n);
        assert forall|i: int| 0 <= i < n implies (#[trigger] lines[3 * i]).text == asides[i]
            && lines[3 * i].style == if i == asides.len() - 1 && !forming {
            FeedStyle::Latest
        } else {
            FeedStyle::Settled
        } by {
            if i < n - 1 {
                assert(lines[3 * i] == before[3 * i]);
            }
        }
        assert forall|i: int| 0 <= i < lines.len() && i % 3 != 0 implies (#[trigger] lines[i])
            == blank() by {
            if i < before.len() {
                assert(lines[i] == before[i]);
            }
        }
    }
}

/// How many lines of the pane the feed takes: those of each aside, two between any two of them, one line
/// more than it needs for the one in flight, and one where there is none at all.
pub proof fn lemma_the_feed_adds_up(asides: Seq<Seq<char>>, a: Seq<char>, p: Seq<char>, w: nat)
    ensures
        feed_total(Seq::empty(), None, w) == 1,
        feed_total(seq![a], None, w) == wrapped(a, w),
        asides.len() > 0 ==> feed_total(asides.push(a), None, w) == feed_total(asides, None, w) + 2
            + wrapped(a, w),
        feed_total(Seq::empty(), Some(p), w) == wrapped(
            if p.len() == 0 {
                "musing…"@
            } else {
                p + "▍"@
            },
            w,
        ) + 1,
        asides.len() > 0 ==> feed_total(asides, Some(p), w) == feed_total(asides, None, w) + 2
            + feed_total(Seq::empty(), Some(p), w),
{
    assert(aside_total(seq![a], w, 0) == 0);
    assert(aside_total(seq![a], w, 1) == wrapped(a, w));
    lemma_aside_total_prefix(asides, a, w, asides.len() as int);
    let n = (asides.len() + 1) as int;
    assert(asides.push(a)[n - 1] == a);
    assert(aside_total(asides.push(a), w, n) == aside_total(asides.push(a), w, n - 1) + (if n > 1 {
        2nat
    } else {
        0
    }) + wrapped(a, w));
}

proof fn lemma_aside_total_prefix(asides: Seq<Seq<char>>, a: Seq<char>, w: nat, n: int)
    requires
        0 <= n <= asides.len(),
    ensures
        aside_total(asides.push(a), w, n) == aside_total(asides, w, n),
    decreases n,
{
    if n > 0 {
        lemma_aside_total_prefix(asides, a, w, n - 1);
        assert(asides.push(a)[n - 1] == asides[n - 1]);
    }
}

/// The newest line sits at the bottom edge of the pane: a feed that does not fill it is padded from above
/// to its height and not scrolled, one that does is scrolled by what is too much, as far as can be
/// counted. The teleprompter is scrolled in the same way.
pub proof fn lemma_the_newest_sits_at_the_bottom(
    asides: &Vec<String>,
    pending: Option<&str>,
    w: usize,
    h: usize,
    feed: Feed,
    prose: &str,
    scroll: u16,
)
    requires
        call_ensures(draw_feed, (asides, pending, w, h), feed),
        call_ensures(prose_scroll, (prose, w, h), scroll),
    ensures
        ({
            let lines = feed_lines(texts(asides@), opt_text(pending));
            let total = feed_total(texts(asides@), opt_text(pending), w as nat);
            &&& total < h ==> {
                &&& feed.scroll == 0
                &&& line_views(feed.lines@).len() == (h - total) + lines.len()
                &&& line_views(feed.lines@).skip(h - total) == lines
                &&& forall|i: int|
                    0 <= i < h - total ==> (#[trigger] line_views(feed.lines@)[i]).text.len() == 0
            }
            &&& total >= h ==> {
                &&& line_views(feed.lines@) == lines
                &&& total - h <= 65535 ==> feed.scroll == total - h
                &&& total - h > 65535 ==> feed.scroll == 65535
            }
        }),
        wrapped(prose@, w as nat) <= h ==> scroll == 0,
        h < wrapped(prose@, w as nat) <= h + 65535 ==> scroll == wrapped(prose@, w as nat) - h,
        wrapped(prose@, w as nat) > h + 65535 ==> scroll == 65535,
{
    let lines = feed_lines(texts(asides@), opt_text(pending));
    let total = feed_total(texts(asides@), opt_text(pending), w as nat);
    if total < h {
        assert(line_views(feed.lines@).skip(h - total) =~= lines);
    }
}

/// The musing label gains a dot every 400 milliseconds, from one to three and then from one again.
pub proof fn lemma_the_label_gains_a_dot(ms: u64, r: String)
    requires
        call_ensures(musing_label, (ms,), r),
    ensures
        r@.len() == 7 + (ms / 400) % 3,
        r@.take(6) == "musing"@,
        forall|i: int| 6 <= i < r@.len() ==> #[trigger] r@[i] == '.',
{
    reveal_strlit("musing");
    reveal_strlit("musing.");
    reveal_strlit("musing..");
    reveal_strlit("musing...");
    assert(r@.take(6) =~= "musing"@);
}

/// Blanks count: one more behind a line that fits takes no line more while there is a place left for it,
/// and one more where the line is full. A pane without any width counts as one line.
pub proof fn lemma_a_blank_takes_a_place(s: Seq<char>, w: nat)
    requires
        evenly_spaced(s),
        s.len() <= w,
        forall|i: int| 0 <= i < s.len() ==> #[trigger] s[i] != '\n',
    ensures
        s.len() < w ==> wrapped(s + seq![' '], w) == 1,
        s.len() == w ==> wrapped(s + seq![' '], w) == 2,
        wrapped(s, 0) == 1,
{
    lemma_pieces_are_words(s);
    let none = Seq::<char>::empty();
    let ws = pieces(s, ' ');
    assert forall|i: int| 0 <= i < ws.len() implies (#[trigger] ws[i]).len() > 0 by {
        if i < ws.len() - 1 {
            assert(ws[i] == closed_pieces(s, ' ')[i]);
        }
    }
    lemma_pieces_weigh_the_text(s, ' ');
    lemma_short_line_flows(ws, w, ws.len() as int);
    lemma_pieces_of_both(s, none, ' ');
    let t = s + seq![' '];
    assert(s + seq![' '] + none =~= t);
    let more = pieces(none, ' ');
    lemma_one_piece(none, ' ');
    let n = ws.len() as int;
    lemma_flowed_prefix(ws, more, w, n);
    assert((ws + more)[n] == none);
    assert(flowed(ws + more, w, n + 1) == placed(flowed(ws, w, n), 0, w));
    assert forall|i: int| 0 <= i < t.len() implies #[trigger] t[i] != '\n' by {
        if i < s.len() {
            assert(t[i] == s[i]);
        }
    }
    lemma_one_piece(t, '\n');
    let hs = pieces(t, '\n');
    assert(lines_upto(hs, w, 0) == 0);
    assert(lines_upto(hs, w, 1) == hard_lines(t, w));
}

/// What the footer says of the stream: that it is over goes before that it is paused.
pub proof fn lemma_what_the_footer_says(
    paused: bool,
    done: bool,
    s: Standing,
    label: &'static str,
    banner: &'static str,
)
    requires
        call_ensures(standing, (paused, done), s),
        call_ensures(Standing::label, (&s,), label),
        call_ensures(Standing::banner, (&s,), banner),
    ensures
        done ==> label@ == "finished"@ && banner@ == "DONE"@,
        !done && paused ==> label@ == "paused"@ && banner@ == "PAUSED"@,
        !done && !paused ==> label@ == "reading"@ && banner@ == "OBSERVING"@,
{
}

} // verus!
