//! Text as sequences of characters: the character classes, splitting, trimming and searching that
//! the prompts, the novelty memory, the retriever and the layouts are built from.

use vstd::prelude::*;
use vstd::string::*;

verus! {

// ---------------------------------------------------------------------------------------------
// Character classes
// ---------------------------------------------------------------------------------------------

/// The characters with Unicode's `White_Space` property.
pub open spec fn white(c: char) -> bool {
    let u = c as u32;
    ||| 0x09 <= u <= 0x0d
    ||| u == 0x20
    ||| u == 0x85
    ||| u == 0xa0
    ||| u == 0x1680
    ||| 0x2000 <= u <= 0x200a
    ||| u == 0x2028
    ||| u == 0x2029
    ||| u == 0x202f
    ||| u == 0x205f
    ||| u == 0x3000
}

/// `char::is_whitespace`: true exactly of the characters with the `White_Space` property.
pub assume_specification[ char::is_whitespace ](c: char) -> (r: bool)
    ensures
        r == white(c),
;

/// What `char::is_alphanumeric` says of a character.
pub uninterp spec fn alphanumeric(c: char) -> bool;

/// `char::is_alphanumeric`: the Unicode classes of letters and numbers, under the name
/// [`alphanumeric`]. On ASCII it is the letters and the digits.
pub assume_specification[ char::is_alphanumeric ](c: char) -> (r: bool)
    ensures
        r == alphanumeric(c),
        (c as u32) < 0x80 ==> r == (ascii_digit(c) || ascii_upper(c) || ascii_lower(c)),
;

/// What `char::is_uppercase` says of a character.
pub uninterp spec fn uppercase(c: char) -> bool;

/// `char::is_uppercase`: Unicode's `Uppercase` property, under the name [`uppercase`]. On ASCII it
/// is the capital letters.
pub assume_specification[ char::is_uppercase ](c: char) -> (r: bool)
    ensures
        r == uppercase(c),
        (c as u32) < 0x80 ==> r == ascii_upper(c),
;

/// What `str::to_lowercase` makes of a text.
pub uninterp spec fn lowercase(s: Seq<char>) -> Seq<char>;

/// `str::to_lowercase`: Unicode lowercasing, under the name [`lowercase`]. A text that is all ASCII
/// has its capital letters replaced one by one.
pub assume_specification[ str::to_lowercase ](s: &str) -> (r: String)
    ensures
        r@ == lowercase(s@),
        (forall|i: int| 0 <= i < s@.len() ==> (#[trigger] s@[i] as u32) < 0x80) ==> r@
            == ascii_lowered(s@),
;

/// `String::push`: appends one character.
pub assume_specification[ String::push ](s: &mut String, c: char)
    ensures
        final(s)@ == old(s)@.push(c),
;

pub open spec fn ascii_digit(c: char) -> bool {
    '0' <= c <= '9'
}

pub open spec fn ascii_upper(c: char) -> bool {
    'A' <= c <= 'Z'
}

pub open spec fn ascii_lower(c: char) -> bool {
    'a' <= c <= 'z'
}

/// The small letter of an ASCII capital; any other character is itself.
pub open spec fn small(c: char) -> char {
    if ascii_upper(c) {
        (c as u32 + 32) as char
    } else {
        c
    }
}

pub open spec fn ascii_lowered(s: Seq<char>) -> Seq<char> {
    s.map_values(|c: char| small(c))
}

// ---------------------------------------------------------------------------------------------
// Moving between strings and characters
// ---------------------------------------------------------------------------------------------

/// The characters of a text.
pub fn chars_of(s: &str) -> (v: Vec<char>)
    ensures
        v@ == s@,
{
    let mut v: Vec<char> = Vec::new();
    for c in it: s.chars()
        invariant
            it.seq() == s@,
            v@ == s@.take(it.index()),
    {
        v.push(c);
        assert(s@.take(it.index() + 1) =~= s@.take(it.index()).push(c));
    }
    assert(s@.take(s@.len() as int) =~= s@);
    v
}

/// The text made of the characters `from..to`.
pub fn string_of(v: &Vec<char>, from: usize, to: usize) -> (r: String)
    requires
        from <= to <= v@.len(),
    ensures
        r@ == v@.subrange(from as int, to as int),
{
    let mut r = String::new();
    let mut i: usize = from;
    while i < to
        invariant
            from <= i <= to <= v@.len(),
            r@ == v@.subrange(from as int, i as int),
        decreases to - i,
    {
        r.push(v[i]);
        i = i + 1;
        assert(v@.subrange(from as int, i as int) =~= v@.subrange(from as int, i - 1).push(
            v@[i - 1],
        ));
    }
    r
}

// ---------------------------------------------------------------------------------------------
// Bytes
// ---------------------------------------------------------------------------------------------

/// How many bytes a character takes in UTF-8.
pub open spec fn width(c: char) -> nat {
    let u = c as u32;
    if u < 0x80 {
        1
    } else if u < 0x800 {
        2
    } else if u < 0x1_0000 {
        3
    } else {
        4
    }
}

/// How many bytes a text takes in UTF-8.
pub open spec fn byte_len(s: Seq<char>) -> nat
    decreases s.len(),
{
    if s.len() == 0 {
        0
    } else {
        byte_len(s.drop_last()) + width(s.last())
    }
}

/// The bytes of two texts in a row add up.
pub proof fn lemma_byte_len_add(a: Seq<char>, b: Seq<char>)
    ensures
        byte_len(a + b) == byte_len(a) + byte_len(b),
    decreases b.len(),
{
    if b.len() == 0 {
        assert(a + b =~= a);
    } else {
        assert((a + b).drop_last() =~= a + b.drop_last());
        lemma_byte_len_add(a, b.drop_last());
    }
}

/// A text takes between one and four bytes a character.
pub proof fn lemma_byte_len_bounds(s: Seq<char>)
    ensures
        s.len() <= byte_len(s) <= 4 * s.len(),
    decreases s.len(),
{
    if s.len() > 0 {
        lemma_byte_len_bounds(s.drop_last());
    }
}

/// A longer prefix takes more bytes.
pub proof fn lemma_byte_len_prefix(s: Seq<char>, i: int, j: int)
    requires
        0 <= i <= j <= s.len(),
    ensures
        byte_len(s.take(i)) + (j - i) <= byte_len(s.take(j)),
{
    lemma_byte_len_add(s.take(i), s.subrange(i, j));
    assert(s.take(j) =~= s.take(i) + s.subrange(i, j));
    lemma_byte_len_bounds(s.subrange(i, j));
}

/// `byte_len` counts the bytes of the UTF-8 encoding.
pub proof fn lemma_byte_len_is_utf8_len(s: Seq<char>)
    ensures
        byte_len(s) == vstd::utf8::encode_utf8(s).len(),
    decreases s.len(),
{
    if s.len() > 0 {
        let head = s.take(1);
        let tail = s.skip(1);
        assert(s =~= head + tail);
        lemma_byte_len_add(head, tail);
        lemma_byte_len_is_utf8_len(tail);
        assert(s.drop_first() =~= tail);
        assert(head.drop_last() =~= Seq::<char>::empty());
        assert(byte_len(head.drop_last()) == 0);
        assert(byte_len(head) == width(s[0]));
        vstd::utf8::char_is_scalar(s[0]);
    }
}

/// The width of a character in UTF-8.
pub fn width_of(c: char) -> (w: usize)
    ensures
        w == width(c),
        1 <= w <= 4,
{
    let u: u32 = c as u32;
    if u < 0x80 {
        1
    } else if u < 0x800 {
        2
    } else if u < 0x1_0000 {
        3
    } else {
        4
    }
}

/// Does the text take at least `n` bytes?
pub fn bytes_at_least(v: &Vec<char>, n: usize) -> (r: bool)
    ensures
        r == (byte_len(v@) >= n),
{
    let mut i: usize = 0;
    let mut left: usize = n;
    while i < v.len() && left > 0
        invariant
            i <= v@.len(),
            left <= n,
            left > 0 ==> byte_len(v@.take(i as int)) + left == n,
            left == 0 ==> byte_len(v@.take(i as int)) >= n,
        decreases v@.len() - i,
    {
        let w: usize = width_of(v[i]);
        assert(v@.take(i + 1).drop_last() =~= v@.take(i as int));
        if w < left {
            left = left - w;
        } else {
            left = 0;
        }
        i = i + 1;
    }
    assert(v@.take(v@.len() as int) =~= v@);
    proof {
        lemma_byte_len_prefix(v@, i as int, v@.len() as int);
    }
    left == 0
}

/// The longest end of a text that takes at most `n` bytes.
pub open spec fn tail_within(s: Seq<char>, n: nat) -> Seq<char>
    decreases s.len(),
{
    if s.len() == 0 || byte_len(s) <= n {
        s
    } else {
        tail_within(s.skip(1), n)
    }
}

proof fn lemma_byte_len_suffix(s: Seq<char>, i: int, j: int)
    requires
        0 <= i <= j <= s.len(),
    ensures
        byte_len(s.skip(j)) <= byte_len(s.skip(i)),
{
    assert(s.skip(i) =~= s.subrange(i, j) + s.skip(j));
    lemma_byte_len_add(s.subrange(i, j), s.skip(j));
}

proof fn lemma_tail_starts(s: Seq<char>, n: nat, k: int, start: int)
    requires
        0 <= k <= start <= s.len(),
        byte_len(s.skip(start)) <= n,
        start > 0 ==> byte_len(s.skip(start - 1)) > n,
    ensures
        tail_within(s.skip(k), n) == s.skip(start),
    decreases start - k,
{
    if k < start {
        lemma_byte_len_suffix(s, k, start - 1);
        assert(s.skip(k).skip(1) =~= s.skip(k + 1));
        lemma_tail_starts(s, n, k + 1, start);
    }
}

/// The tail of a text stays within its limit, and is the end of it.
pub proof fn lemma_tail_within(s: Seq<char>, n: nat)
    ensures
        byte_len(tail_within(s, n)) <= n,
        tail_within(s, n).len() <= s.len(),
        tail_within(s, n) == s.skip(s.len() - tail_within(s, n).len()),
    decreases s.len(),
{
    if s.len() > 0 && byte_len(s) > n {
        lemma_tail_within(s.skip(1), n);
        let t = tail_within(s, n);
        assert(s.skip(1).skip(s.len() - 1 - t.len()) =~= s.skip(s.len() - t.len()));
    } else {
        assert(s.skip(0) =~= s);
    }
}

/// Where the longest end of a text that takes at most `n` bytes starts.
pub fn tail_start(v: &Vec<char>, n: usize) -> (start: usize)
    ensures
        start <= v@.len(),
        v@.skip(start as int) == tail_within(v@, n as nat),
{
    let mut start: usize = v.len();
    let mut left: usize = n;
    assert(v@.skip(start as int) =~= Seq::empty());
    while start > 0 && width_of(v[start - 1]) <= left
        invariant
            start <= v@.len(),
            byte_len(v@.skip(start as int)) + left == n,
        decreases start,
    {
        proof {
            lemma_byte_len_grows(v@, start as int);
        }
        left = left - width_of(v[start - 1]);
        start = start - 1;
    }
    proof {
        if start > 0 {
            lemma_byte_len_grows(v@, start as int);
        }
        lemma_tail_starts(v@, n as nat, 0, start as int);
        assert(v@.skip(0) =~= v@);
    }
    start
}

proof fn lemma_byte_len_grows(s: Seq<char>, i: int)
    requires
        0 < i <= s.len(),
    ensures
        byte_len(s.skip(i - 1)) == width(s[i - 1]) + byte_len(s.skip(i)),
{
    let one = seq![s[i - 1]];
    assert(s.skip(i - 1) =~= one + s.skip(i));
    lemma_byte_len_add(one, s.skip(i));
    assert(one.drop_last() =~= Seq::empty());
    assert(byte_len(one.drop_last()) == 0);
}

// ---------------------------------------------------------------------------------------------
// Splitting
// ---------------------------------------------------------------------------------------------

/// The characters after the last separator.
pub open spec fn open_run(s: Seq<char>, sep: spec_fn(char) -> bool) -> Seq<char>
    decreases s.len(),
{
    if s.len() == 0 || sep(s.last()) {
        Seq::empty()
    } else {
        open_run(s.drop_last(), sep).push(s.last())
    }
}

/// The non-empty runs between separators that a separator has closed, in order.
pub open spec fn closed_runs(s: Seq<char>, sep: spec_fn(char) -> bool) -> Seq<Seq<char>>
    decreases s.len(),
{
    if s.len() == 0 {
        Seq::empty()
    } else {
        let before = closed_runs(s.drop_last(), sep);
        let run = open_run(s.drop_last(), sep);
        if sep(s.last()) && run.len() > 0 {
            before.push(run)
        } else {
            before
        }
    }
}

/// The non-empty runs of characters between separators, in order.
pub open spec fn runs(s: Seq<char>, sep: spec_fn(char) -> bool) -> Seq<Seq<char>> {
    let run = open_run(s, sep);
    if run.len() > 0 {
        closed_runs(s, sep).push(run)
    } else {
        closed_runs(s, sep)
    }
}

/// The words of a text: its runs between whitespace.
pub open spec fn words(s: Seq<char>) -> Seq<Seq<char>> {
    runs(s, |c: char| white(c))
}

/// The texts of a list of strings.
pub open spec fn texts(v: Seq<String>) -> Seq<Seq<char>> {
    v.map_values(|s: String| s@)
}

/// The words of a text (`split_whitespace`).
pub fn split_words(s: &str) -> (r: Vec<String>)
    ensures
        texts(r@) == words(s@),
{
    let v = chars_of(s);
    let ghost sep = |c: char| white(c);
    let mut out: Vec<String> = Vec::new();
    let mut run = String::new();
    let mut i: usize = 0;
    let mut run_len: usize = 0;
    while i < v.len()
        invariant
            v@ == s@,
            i <= v@.len(),
            sep == (|c: char| white(c)),
            texts(out@) == closed_runs(v@.take(i as int), sep),
            run@ == open_run(v@.take(i as int), sep),
            run_len == run@.len(),
            run_len <= i,
        decreases v@.len() - i,
    {
        let c: char = v[i];
        assert(v@.take(i + 1).drop_last() =~= v@.take(i as int));
        assert(v@.take(i + 1).last() == c);
        if c.is_whitespace() {
            if run_len > 0 {
                let ghost before = texts(out@);
                let ghost r = run@;
                out.push(run);
                assert(texts(out@) =~= before.push(r));
                run = String::new();
                run_len = 0;
            }
            assert(run@ =~= Seq::<char>::empty());
        } else {
            run.push(c);
            run_len = run_len + 1;
        }
        i = i + 1;
    }
    assert(v@.take(v@.len() as int) =~= v@);
    if run_len > 0 {
        let ghost before = texts(out@);
        let ghost r = run@;
        out.push(run);
        assert(texts(out@) =~= before.push(r));
    }
    out
}

/// The characters after the last `c`.
pub open spec fn open_piece(s: Seq<char>, c: char) -> Seq<char>
    decreases s.len(),
{
    if s.len() == 0 || s.last() == c {
        Seq::empty()
    } else {
        open_piece(s.drop_last(), c).push(s.last())
    }
}

/// The pieces that a `c` has closed, empty ones too.
pub open spec fn closed_pieces(s: Seq<char>, c: char) -> Seq<Seq<char>>
    decreases s.len(),
{
    if s.len() == 0 {
        Seq::empty()
    } else if s.last() == c {
        closed_pieces(s.drop_last(), c).push(open_piece(s.drop_last(), c))
    } else {
        closed_pieces(s.drop_last(), c)
    }
}

/// The pieces of a text between the occurrences of `c`, empty ones too (`split`).
pub open spec fn pieces(s: Seq<char>, c: char) -> Seq<Seq<char>> {
    closed_pieces(s, c).push(open_piece(s, c))
}

/// The characters of a list of pieces.
pub open spec fn char_lists(v: Seq<Vec<char>>) -> Seq<Seq<char>> {
    v.map_values(|p: Vec<char>| p@)
}

/// The pieces of a text between the occurrences of `c`, empty ones too (`split`).
pub fn split_on(v: &Vec<char>, c: char) -> (r: Vec<Vec<char>>)
    ensures
        char_lists(r@) == pieces(v@, c),
{
    let mut out: Vec<Vec<char>> = Vec::new();
    let mut piece: Vec<char> = Vec::new();
    let mut i: usize = 0;
    assert(char_lists(out@) =~= Seq::empty());
    while i < v.len()
        invariant
            i <= v@.len(),
            char_lists(out@) == closed_pieces(v@.take(i as int), c),
            piece@ == open_piece(v@.take(i as int), c),
        decreases v@.len() - i,
    {
        assert(v@.take(i + 1).drop_last() =~= v@.take(i as int));
        assert(v@.take(i + 1).last() == v@[i as int]);
        if v[i] == c {
            let ghost before = char_lists(out@);
            let ghost p = piece@;
            out.push(piece);
            assert(char_lists(out@) =~= before.push(p));
            piece = Vec::new();
            assert(piece@ =~= Seq::empty());
        } else {
            piece.push(v[i]);
        }
        i = i + 1;
    }
    assert(v@.take(i as int) =~= v@);
    let ghost before = char_lists(out@);
    let ghost p = piece@;
    out.push(piece);
    assert(char_lists(out@) =~= before.push(p));
    out
}

/// The characters of the first `n` pieces, and one more for each.
pub open spec fn weight(ps: Seq<Seq<char>>, n: int) -> nat
    decreases n,
{
    if n <= 0 {
        0
    } else {
        weight(ps, n - 1) + ps[n - 1].len() + 1
    }
}

/// The pieces of a text and what stood between them make up the text.
pub proof fn lemma_pieces_weigh_the_text(s: Seq<char>, c: char)
    ensures
        weight(pieces(s, c), pieces(s, c).len() as int) == s.len() + 1,
    decreases s.len(),
{
    let ps = pieces(s, c);
    if s.len() == 0 {
        assert(weight(ps, 0) == 0);
        assert(ps.len() == 1);
        assert(weight(ps, 1) == 1);
    } else {
        let t = s.drop_last();
        let qs = pieces(t, c);
        lemma_pieces_weigh_the_text(t, c);
        if s.last() == c {
            assert(ps =~= qs.push(Seq::empty()));
            lemma_weight_prefix(qs, Seq::empty(), qs.len() as int);
        } else {
            let n = qs.len() - 1;
            assert(qs.take(n) =~= closed_pieces(t, c));
            assert(ps =~= qs.take(n).push(qs[n].push(s.last())));
            lemma_weight_prefix(qs.take(n), qs[n].push(s.last()), n);
            lemma_weight_prefix(qs.take(n), qs[n], n);
            assert(qs.take(n).push(qs[n]) =~= qs);
        }
    }
}

proof fn lemma_weight_prefix(ps: Seq<Seq<char>>, p: Seq<char>, n: int)
    requires
        0 <= n <= ps.len(),
    ensures
        weight(ps.push(p), n) == weight(ps, n),
    decreases n,
{
    if n > 0 {
        lemma_weight_prefix(ps, p, n - 1);
    }
}

/// `parts` one after the other, with `sep` between neighbours.
pub open spec fn joined(parts: Seq<Seq<char>>, sep: Seq<char>) -> Seq<char>
    decreases parts.len(),
{
    if parts.len() == 0 {
        Seq::empty()
    } else if parts.len() == 1 {
        parts[0]
    } else {
        joined(parts.drop_last(), sep) + sep + parts.last()
    }
}

/// The strings `from..to` of a list, with `sep` between neighbours.
pub fn join_range(v: &Vec<String>, from: usize, to: usize, sep: &str) -> (r: String)
    requires
        from <= to <= v@.len(),
    ensures
        r@ == joined(texts(v@.subrange(from as int, to as int)), sep@),
{
    let mut r = String::new();
    let mut i: usize = from;
    while i < to
        invariant
            from <= i <= to <= v@.len(),
            r@ == joined(texts(v@.subrange(from as int, i as int)), sep@),
        decreases to - i,
    {
        let ghost done = texts(v@.subrange(from as int, i as int));
        let ghost next = texts(v@.subrange(from as int, i + 1));
        assert(next.drop_last() =~= done);
        assert(next.last() == v@[i as int]@);
        if i > from {
            r.append(sep);
        }
        r.append(v[i].as_str());
        assert(i == from ==> r@ =~= v@[i as int]@);
        i = i + 1;
    }
    r
}

// ---------------------------------------------------------------------------------------------
// Trimming
// ---------------------------------------------------------------------------------------------

/// The text without its leading whitespace.
pub open spec fn trim_start(s: Seq<char>) -> Seq<char>
    decreases s.len(),
{
    if s.len() > 0 && white(s[0]) {
        trim_start(s.drop_first())
    } else {
        s
    }
}

/// The text without its trailing whitespace.
pub open spec fn trim_end(s: Seq<char>) -> Seq<char>
    decreases s.len(),
{
    if s.len() > 0 && white(s.last()) {
        trim_end(s.drop_last())
    } else {
        s
    }
}

/// The text without whitespace at either end.
pub open spec fn trimmed(s: Seq<char>) -> Seq<char> {
    trim_end(trim_start(s))
}

/// Where the trimmed text starts and ends.
pub fn trim_bounds(v: &Vec<char>) -> (r: (usize, usize))
    ensures
        r.0 <= r.1 <= v@.len(),
        v@.subrange(r.0 as int, r.1 as int) == trimmed(v@),
{
    let mut a: usize = 0;
    assert(v@.skip(0) =~= v@);
    while a < v.len() && v[a].is_whitespace()
        invariant
            a <= v@.len(),
            trim_start(v@) == trim_start(v@.skip(a as int)),
        decreases v@.len() - a,
    {
        assert(v@.skip(a as int).drop_first() =~= v@.skip(a + 1));
        a = a + 1;
    }
    let ghost rest = v@.skip(a as int);
    assert(trim_start(v@) == rest);
    let mut b: usize = v.len();
    assert(v@.subrange(a as int, b as int) =~= rest);
    while b > a && v[b - 1].is_whitespace()
        invariant
            a <= b <= v@.len(),
            trim_end(rest) == trim_end(v@.subrange(a as int, b as int)),
        decreases b,
    {
        assert(v@.subrange(a as int, b as int).drop_last() =~= v@.subrange(a as int, b - 1));
        b = b - 1;
    }
    (a, b)
}

/// The text without whitespace at either end (`trim`).
pub fn trim(s: &str) -> (r: &str)
    ensures
        r@ == trimmed(s@),
{
    let v = chars_of(s);
    let (a, b) = trim_bounds(&v);
    s.substring_char(a, b)
}

// ---------------------------------------------------------------------------------------------
// Searching
// ---------------------------------------------------------------------------------------------

/// Does `pat` stand in `s` at character `i`?
pub open spec fn occurs_at(s: Seq<char>, pat: Seq<char>, i: int) -> bool {
    0 <= i && i + pat.len() <= s.len() && s.subrange(i, i + pat.len()) == pat
}

/// Does `pat` stand anywhere in `s`?
pub open spec fn contains_text(s: Seq<char>, pat: Seq<char>) -> bool {
    exists|i: int| occurs_at(s, pat, i)
}

/// `i` is the first place of `pat` in `s`.
pub open spec fn first_at(s: Seq<char>, pat: Seq<char>, i: int) -> bool {
    occurs_at(s, pat, i) && forall|j: int| 0 <= j < i ==> !occurs_at(s, pat, j)
}

/// A text has only one first place.
pub proof fn lemma_first_is_one(s: Seq<char>, pat: Seq<char>, i: int)
    requires
        first_at(s, pat, i),
    ensures
        contains_text(s, pat),
        i == choose|j: int| first_at(s, pat, j),
{
    let j = choose|j: int| first_at(s, pat, j);
    assert(first_at(s, pat, j));
    if i < j {
        assert(!occurs_at(s, pat, i));
    } else if j < i {
        assert(!occurs_at(s, pat, j));
    }
}

fn matches_at(v: &Vec<char>, pat: &Vec<char>, i: usize) -> (r: bool)
    requires
        i + pat@.len() <= v@.len(),
    ensures
        r == occurs_at(v@, pat@, i as int),
{
    let mut k: usize = 0;
    while k < pat.len()
        invariant
            k <= pat@.len(),
            i + pat.len() <= v.len(),
            forall|j: int| 0 <= j < k ==> v@[i + j] == pat@[j],
        decreases pat@.len() - k,
    {
        if v[i + k] != pat[k] {
            assert(v@.subrange(i as int, i + pat@.len())[k as int] != pat@[k as int]);
            return false;
        }
        k = k + 1;
    }
    assert(v@.subrange(i as int, i + pat@.len()) =~= pat@);
    true
}

/// The first place of `pat` in `v` (`find`).
pub fn find_chars(v: &Vec<char>, pat: &Vec<char>) -> (r: Option<usize>)
    ensures
        match r {
            Some(i) => first_at(v@, pat@, i as int),
            None => !contains_text(v@, pat@),
        },
{
    if pat.len() > v.len() {
        return None;
    }
    let last: usize = v.len() - pat.len();
    let mut i: usize = 0;
    while i <= last
        invariant
            last + pat@.len() == v@.len(),
            i <= last + 1,
            forall|j: int| 0 <= j < i ==> !occurs_at(v@, pat@, j),
        decreases last + 1 - i,
    {
        if matches_at(v, pat, i) {
            return Some(i);
        }
        if i == last {
            assert(!contains_text(v@, pat@));
            return None;
        }
        i = i + 1;
    }
    None
}

/// Does `pat` stand anywhere in `s` (`contains`)?
pub fn contains(s: &str, pat: &str) -> (r: bool)
    ensures
        r == contains_text(s@, pat@),
{
    let v = chars_of(s);
    let p = chars_of(pat);
    find_chars(&v, &p).is_some()
}

// ---------------------------------------------------------------------------------------------
// Laws
// ---------------------------------------------------------------------------------------------

/// The characters `a..b` of a text are a maximal run without a separator.
pub open spec fn maximal_run(s: Seq<char>, sep: spec_fn(char) -> bool, a: int, b: int) -> bool {
    &&& 0 <= a < b <= s.len()
    &&& forall|i: int| a <= i < b ==> !sep(#[trigger] s[i])
    &&& a == 0 || sep(s[a - 1])
    &&& b == s.len() || sep(s[b])
}

/// Every place without a separator lies in one of the runs, which stand in their order.
pub open spec fn all_runs(s: Seq<char>, sep: spec_fn(char) -> bool, spans: Seq<(int, int)>) -> bool {
    &&& forall|k: int|
        0 <= k < spans.len() ==> maximal_run(s, sep, (#[trigger] spans[k]).0, spans[k].1)
    &&& forall|j: int, k: int|
        0 <= j < k < spans.len() ==> (#[trigger] spans[j]).1 < (#[trigger] spans[k]).0
    &&& forall|i: int|
        0 <= i < s.len() && !sep(#[trigger] s[i]) ==> exists|k: int|
            0 <= k < spans.len() && (#[trigger] spans[k]).0 <= i < spans[k].1
}

/// A text falls apart into its maximal runs without a separator, each of them once and in the order in
/// which they stand: nothing between two separators is lost, cut or glued together.
pub proof fn lemma_runs_are_the_maximal_ones(s: Seq<char>, sep: spec_fn(char) -> bool) -> (spans: Seq<
    (int, int),
>)
    ensures
        all_runs(s, sep, spans),
        runs(s, sep).len() == spans.len(),
        forall|k: int|
            0 <= k < spans.len() ==> runs(s, sep)[k] == s.subrange(
                (#[trigger] spans[k]).0,
                spans[k].1,
            ),
        open_run(s, sep).len() > 0 <==> s.len() > 0 && !sep(s.last()),
    decreases s.len(),
{
    if s.len() == 0 {
        Seq::empty()
    } else {
        let t = s.drop_last();
        let n = t.len() as int;
        let c = s.last();
        let before = lemma_runs_are_the_maximal_ones(t, sep);
        assert forall|i: int| 0 <= i < n implies t[i] == s[i] by {}
        if sep(c) {
            assert forall|k: int| 0 <= k < before.len() implies maximal_run(
                s,
                sep,
                (#[trigger] before[k]).0,
                before[k].1,
            ) && s.subrange(before[k].0, before[k].1) =~= t.subrange(before[k].0, before[k].1) by {
                assert(maximal_run(t, sep, before[k].0, before[k].1));
            }
            assert forall|i: int| 0 <= i < s.len() && !sep(#[trigger] s[i]) implies exists|k: int|
                0 <= k < before.len() && (#[trigger] before[k]).0 <= i < before[k].1 by {
                assert(!sep(t[i]));
            }
            assert(runs(s, sep) =~= runs(t, sep));
            before
        } else if n > 0 && !sep(t.last()) {
            assert(!sep(t[n - 1]));
            let k = choose|k: int|
                0 <= k < before.len() && (#[trigger] before[k]).0 <= n - 1 < before[k].1;
            assert(maximal_run(t, sep, before[k].0, before[k].1));
            if k < before.len() - 1 {
                assert(maximal_run(t, sep, before[k + 1].0, before[k + 1].1));
                assert(before[k].1 < before[k + 1].0);
            }
            let l = before.len() - 1;
            let spans = before.update(l, (before[l].0, n + 1));
            assert forall|j: int| 0 <= j < spans.len() implies maximal_run(
                s,
                sep,
                (#[trigger] spans[j]).0,
                spans[j].1,
            ) by {
                assert(maximal_run(t, sep, before[j].0, before[j].1));
                if j < l {
                    assert(before[j].1 < before[l].0);
                } else {
                    assert forall|i: int| spans[j].0 <= i < spans[j].1 implies !sep(
                        #[trigger] s[i],
                    ) by {
                        if i < n {
                            assert(!sep(t[i]));
                        }
                    }
                }
            }
            assert forall|i: int| 0 <= i < s.len() && !sep(#[trigger] s[i]) implies exists|j: int|
                0 <= j < spans.len() && (#[trigger] spans[j]).0 <= i < spans[j].1 by {
                if i < n {
                    assert(!sep(t[i]));
                    let j = choose|j: int|
                        0 <= j < before.len() && (#[trigger] before[j]).0 <= i < before[j].1;
                    assert(spans[j].0 <= i < spans[j].1);
                } else {
                    assert(spans[l].0 <= i < spans[l].1);
                }
            }
            assert(runs(t, sep)[l] == t.subrange(before[l].0, before[l].1));
            assert(open_run(t, sep) == runs(t, sep)[l]);
            assert forall|j: int| 0 <= j < spans.len() implies runs(s, sep)[j] == s.subrange(
                (#[trigger] spans[j]).0,
                spans[j].1,
            ) by {
                if j < l {
                    assert(runs(t, sep)[j] == t.subrange(before[j].0, before[j].1));
                    assert(maximal_run(t, sep, before[j].0, before[j].1));
                    assert(s.subrange(spans[j].0, spans[j].1) =~= t.subrange(
                        before[j].0,
                        before[j].1,
                    ));
                } else {
                    assert(s.subrange(spans[l].0, n + 1) =~= t.subrange(before[l].0, n).push(c));
                }
            }
            spans
        } else {
            let spans = before.push((n, n + 1));
            assert forall|j: int| 0 <= j < spans.len() implies maximal_run(
                s,
                sep,
                (#[trigger] spans[j]).0,
                spans[j].1,
            ) by {
                if j < before.len() {
                    assert(maximal_run(t, sep, before[j].0, before[j].1));
                    if before[j].1 == n {
                        assert(!sep(t[n - 1]));
                    }
                }
            }
            assert forall|j: int, k: int| 0 <= j < k < spans.len() implies (#[trigger] spans[j]).1 < (
            #[trigger] spans[k]).0 by {
                assert(maximal_run(t, sep, before[j].0, before[j].1));
                if k == before.len() && before[j].1 == n {
                    assert(!sep(t[n - 1]));
                }
            }
            assert forall|i: int| 0 <= i < s.len() && !sep(#[trigger] s[i]) implies exists|j: int|
                0 <= j < spans.len() && (#[trigger] spans[j]).0 <= i < spans[j].1 by {
                if i < n {
                    assert(!sep(t[i]));
                    let j = choose|j: int|
                        0 <= j < before.len() && (#[trigger] before[j]).0 <= i < before[j].1;
                    assert(spans[j].0 <= i < spans[j].1);
                } else {
                    assert(spans[before.len() as int].0 <= i < spans[before.len() as int].1);
                }
            }
            assert(open_run(t, sep).len() == 0);
            assert(open_run(s, sep) =~= seq![c]);
            assert forall|j: int| 0 <= j < spans.len() implies runs(s, sep)[j] == s.subrange(
                (#[trigger] spans[j]).0,
                spans[j].1,
            ) by {
                if j < before.len() {
                    assert(runs(t, sep)[j] == t.subrange(before[j].0, before[j].1));
                    assert(maximal_run(t, sep, before[j].0, before[j].1));
                    assert(s.subrange(spans[j].0, spans[j].1) =~= t.subrange(
                        before[j].0,
                        before[j].1,
                    ));
                } else {
                    assert(s.subrange(n, n + 1) =~= seq![c]);
                }
            }
            spans
        }
    }
}

/// A maximal run is one of the runs.
pub proof fn lemma_a_maximal_run_is_found(s: Seq<char>, sep: spec_fn(char) -> bool, a: int, b: int)
    requires
        maximal_run(s, sep, a, b),
    ensures
        runs(s, sep).contains(s.subrange(a, b)),
{
    let spans = lemma_runs_are_the_maximal_ones(s, sep);
    assert(!sep(s[a]));
    let k = choose|k: int| 0 <= k < spans.len() && (#[trigger] spans[k]).0 <= a < spans[k].1;
    let (x, y) = spans[k];
    assert(maximal_run(s, sep, x, y));
    if x < a {
        assert(!sep(s[a - 1]));
    }
    if b < y {
        assert(!sep(s[b]));
    }
    if y < b {
        assert(!sep(s[y]));
    }
    assert(runs(s, sep)[k] == s.subrange(a, b));
}

/// What `split_words` hands out are the stretches of a text between whitespace, whole and in their
/// order.
pub proof fn lemma_words_stand_between_whitespace(s: &str, r: Vec<String>) -> (spans: Seq<(int, int)>)
    requires
        call_ensures(split_words, (s,), r),
    ensures
        all_runs(s@, |c: char| white(c), spans),
        r@.len() == spans.len(),
        forall|k: int|
            0 <= k < spans.len() ==> r@[k]@ == s@.subrange((#[trigger] spans[k]).0, spans[k].1),
{
    let spans = lemma_runs_are_the_maximal_ones(s@, |c: char| white(c));
    assert(texts(r@).len() == r@.len());
    assert forall|k: int| 0 <= k < spans.len() implies r@[k]@ == s@.subrange(
        (#[trigger] spans[k]).0,
        spans[k].1,
    ) by {
        assert(texts(r@)[k] == r@[k]@);
    }
    spans
}

/// Trimming takes away whitespace and nothing else: what is left is one stretch of the text, all
/// around it is whitespace, and it neither starts nor ends in any.
pub proof fn lemma_trimming_takes_whitespace_only(s: Seq<char>) -> (at: (int, int))
    ensures
        0 <= at.0 <= at.1 <= s.len(),
        trimmed(s) == s.subrange(at.0, at.1),
        forall|i: int| 0 <= i < at.0 ==> white(#[trigger] s[i]),
        forall|i: int| at.1 <= i < s.len() ==> white(#[trigger] s[i]),
        at.0 < at.1 ==> !white(s[at.0]) && !white(s[at.1 - 1]),
{
    let a = lemma_trim_start(s);
    let rest = s.skip(a);
    let n = lemma_trim_end(rest);
    assert(s.skip(a).take(n) =~= s.subrange(a, a + n));
    assert forall|i: int| a + n <= i < s.len() implies white(#[trigger] s[i]) by {
        assert(white(rest[i - a]));
    }
    if n > 0 {
        assert(rest[n - 1] == s[a + n - 1]);
        assert(rest[0] == s[a]);
    }
    (a, a + n)
}

proof fn lemma_trim_start(s: Seq<char>) -> (a: int)
    ensures
        0 <= a <= s.len(),
        trim_start(s) == s.skip(a),
        forall|i: int| 0 <= i < a ==> white(#[trigger] s[i]),
        a < s.len() ==> !white(s[a]),
    decreases s.len(),
{
    if s.len() > 0 && white(s[0]) {
        let t = s.drop_first();
        let b = lemma_trim_start(t);
        assert(t.skip(b) =~= s.skip(b + 1));
        assert forall|i: int| 0 <= i < b + 1 implies white(#[trigger] s[i]) by {
            if i > 0 {
                assert(t[i - 1] == s[i]);
            }
        }
        b + 1
    } else {
        assert(s.skip(0) =~= s);
        0
    }
}

proof fn lemma_trim_end(s: Seq<char>) -> (n: int)
    ensures
        0 <= n <= s.len(),
        trim_end(s) == s.take(n),
        forall|i: int| n <= i < s.len() ==> white(#[trigger] s[i]),
        n > 0 ==> !white(s[n - 1]),
    decreases s.len(),
{
    if s.len() > 0 && white(s.last()) {
        let t = s.drop_last();
        let n = lemma_trim_end(t);
        assert(t.take(n) =~= s.take(n));
        assert forall|i: int| n <= i < s.len() implies white(#[trigger] s[i]) by {
            if i < t.len() {
                assert(white(t[i]));
            }
        }
        n
    } else {
        assert(s.take(s.len() as int) =~= s);
        s.len() as int
    }
}

/// Trimming twice is trimming once, and blanks around a text make no difference.
pub proof fn lemma_trimming_is_done_once(s: Seq<char>)
    ensures
        trimmed(trimmed(s)) == trimmed(s),
{
    let (a, b) = lemma_trimming_takes_whitespace_only(s);
    let t = trimmed(s);
    let (c, d) = lemma_trimming_takes_whitespace_only(t);
    if a < b {
        assert(t[0] == s[a]);
        assert(t[t.len() - 1] == s[b - 1]);
        if c > 0 {
            assert(white(t[0]));
        }
        if d < t.len() {
            assert(white(t[t.len() - 1]));
        }
    }
    assert(t.subrange(c, d) =~= t);
}

/// What is kept of a text that is too long is its end, and as much of it as the limit lets through:
/// with the character before it, it would be too long.
pub proof fn lemma_the_tail_is_the_longest(s: Seq<char>, n: nat)
    ensures
        ({
            let t = tail_within(s, n);
            &&& t.len() <= s.len()
            &&& t == s.skip(s.len() - t.len())
            &&& vstd::utf8::encode_utf8(t).len() <= n
            &&& t.len() < s.len() ==> vstd::utf8::encode_utf8(
                s.skip(s.len() - t.len() - 1),
            ).len() > n
        }),
    decreases s.len(),
{
    lemma_tail_within(s, n);
    let t = tail_within(s, n);
    lemma_byte_len_is_utf8_len(t);
    lemma_byte_len_is_utf8_len(s);
    if s.len() > 0 && byte_len(s) > n {
        lemma_the_tail_is_the_longest(s.skip(1), n);
        if t.len() < s.len() - 1 {
            assert(s.skip(1).skip(s.len() - 1 - t.len() - 1) =~= s.skip(s.len() - t.len() - 1));
        } else {
            assert(s.skip(s.len() - t.len() - 1) =~= s);
        }
    }
}

/// The places where a text is cut at `c`: the pieces lie between them, first to last, without a `c`.
pub open spec fn cut_at(s: Seq<char>, c: char, cuts: Seq<int>) -> bool {
    &&& forall|k: int| 0 <= k < cuts.len() ==> 0 <= #[trigger] cuts[k] < s.len() && s[cuts[k]] == c
    &&& forall|j: int, k: int| 0 <= j < k < cuts.len() ==> #[trigger] cuts[j] < #[trigger] cuts[k]
    &&& forall|i: int|
        0 <= i < s.len() && #[trigger] s[i] == c ==> exists|k: int|
            0 <= k < cuts.len() && #[trigger] cuts[k] == i
}

/// A text is cut at every `c` and nowhere else, and nothing of it but those is lost.
pub proof fn lemma_pieces_lie_between_the_cuts(s: Seq<char>, c: char) -> (cuts: Seq<int>)
    ensures
        cut_at(s, c, cuts),
        pieces(s, c).len() == cuts.len() + 1,
        forall|k: int|
            0 <= k <= cuts.len() ==> #[trigger] pieces(s, c)[k] == s.subrange(
                if k == 0 {
                    0
                } else {
                    cuts[k - 1] + 1
                },
                if k == cuts.len() {
                    s.len() as int
                } else {
                    cuts[k]
                },
            ),
    decreases s.len(),
{
    if s.len() == 0 {
        assert(s.subrange(0, 0) =~= Seq::empty());
        Seq::empty()
    } else {
        let t = s.drop_last();
        let n = t.len() as int;
        let before = lemma_pieces_lie_between_the_cuts(t, c);
        assert forall|i: int| 0 <= i < n implies t[i] == s[i] by {}
        let cuts = if s.last() == c {
            before.push(n)
        } else {
            before
        };
        assert forall|i: int| 0 <= i < s.len() && #[trigger] s[i] == c implies exists|k: int|
            0 <= k < cuts.len() && #[trigger] cuts[k] == i by {
            if i < n {
                assert(t[i] == c);
                let k = choose|k: int| 0 <= k < before.len() && #[trigger] before[k] == i;
                assert(cuts[k] == i);
            } else {
                assert(cuts[before.len() as int] == i);
            }
        }
        let m = before.len() as int;
        let low = |k: int| {
            if k == 0 {
                0
            } else {
                before[k - 1] + 1
            }
        };
        assert(pieces(t, c)[m] == t.subrange(low(m), n));
        assert(pieces(t, c)[m] == open_piece(t, c));
        assert forall|k: int| 0 <= k <= cuts.len() implies #[trigger] pieces(s, c)[k] == s.subrange(
            if k == 0 {
                0
            } else {
                cuts[k - 1] + 1
            },
            if k == cuts.len() {
                s.len() as int
            } else {
                cuts[k]
            },
        ) by {
            if k < m {
                assert(pieces(t, c)[k] == t.subrange(low(k), before[k]));
                assert(pieces(s, c)[k] == pieces(t, c)[k]);
                assert(s.subrange(low(k), before[k]) =~= t.subrange(low(k), before[k]));
            } else if k == m {
                if s.last() == c {
                    assert(pieces(s, c)[k] == open_piece(t, c));
                    assert(s.subrange(low(m), n) =~= t.subrange(low(m), n));
                } else {
                    assert(s.subrange(low(m), n + 1) =~= t.subrange(low(m), n).push(s.last()));
                }
            } else {
                assert(s.subrange(n + 1, n + 1) =~= Seq::empty());
            }
        }
        cuts
    }
}

/// Joining puts the separator between neighbours and nowhere else: the text is the parts one after the
/// other, each but the first behind a separator.
pub proof fn lemma_joining_separates_neighbours(parts: Seq<Seq<char>>, sep: Seq<char>)
    ensures
        parts.len() == 0 ==> joined(parts, sep) == Seq::<char>::empty(),
        parts.len() > 0 ==> joined(parts, sep) == parts[0] + Seq::new(
            (parts.len() - 1) as nat,
            |i: int| sep + parts[i + 1],
        ).flatten(),
    decreases parts.len(),
{
    if parts.len() == 1 {
        assert(Seq::new(0, |i: int| sep + parts[i + 1]).flatten() =~= Seq::empty());
        assert(parts[0] + Seq::<char>::empty() =~= parts[0]);
    } else if parts.len() > 1 {
        let head = parts.drop_last();
        lemma_joining_separates_neighbours(head, sep);
        let a = Seq::new((head.len() - 1) as nat, |i: int| sep + head[i + 1]);
        let b = Seq::new((parts.len() - 1) as nat, |i: int| sep + parts[i + 1]);
        assert(b =~= a.push(sep + parts.last()));
        lemma_flatten_push(a, sep + parts.last());
        assert(joined(parts, sep) =~= parts[0] + b.flatten());
    }
}

/// One part more is put behind the others.
pub proof fn lemma_flatten_push<T>(parts: Seq<Seq<T>>, last: Seq<T>)
    ensures
        parts.push(last).flatten() == parts.flatten() + last,
    decreases parts.len(),
{
    if parts.len() == 0 {
        let one = parts.push(last);
        assert(one.drop_first() =~= Seq::empty());
        assert(Seq::<Seq<T>>::empty().flatten() =~= Seq::empty());
        assert(one.flatten() =~= last);
        assert(parts.flatten() =~= Seq::empty());
    } else {
        assert(parts.push(last).drop_first() =~= parts.drop_first().push(last));
        lemma_flatten_push(parts.drop_first(), last);
        assert(parts.push(last).flatten() =~= parts.flatten() + last);
    }
}

} // verus!
