//! Cutting what is read into what is fed.

use crate::text::{
    chars_of, contains_text, find_chars, first_at, lemma_first_is_one, occurs_at, split_words,
    string_of, texts, words,
};
use vstd::prelude::*;
use vstd::string::*;

verus! {

/// How a line of input is cut into chunks.
#[derive(Copy, Clone, Debug, PartialEq, Eq, Structural)]
pub enum Granularity {
    /// The whole line.
    Line,
    /// Each word of it.
    Word,
}

/// A text from the first `marker` on; all of it where the marker is empty or does not occur.
pub open spec fn from_marker(raw: Seq<char>, marker: Seq<char>) -> Seq<char> {
    if marker.len() > 0 && contains_text(raw, marker) {
        raw.skip(choose|i: int| first_at(raw, marker, i))
    } else {
        raw
    }
}

/// Skip to the first occurrence of a marker, such as the first sentence of a book behind its front
/// matter. Where it does not occur the text is taken from the top.
pub fn skip_to(raw: &str, marker: &str) -> (r: String)
    ensures
        r@ == from_marker(raw@, marker@),
{
    if !marker.is_empty() {
        let v = chars_of(raw);
        let p = chars_of(marker);
        if let Some(i) = find_chars(&v, &p) {
            proof {
                lemma_first_is_one(raw@, marker@, i as int);
                assert(v@.subrange(i as int, v@.len() as int) =~= v@.skip(i as int));
            }
            return string_of(&v, i, v.len());
        }
    }
    raw.to_owned()
}

/// The chunks of a line: the line with its end put back, or each of its words with a blank behind it.
pub open spec fn chunks(line: Seq<char>, granularity: Granularity) -> Seq<Seq<char>> {
    match granularity {
        Granularity::Line => seq![line.push('\n')],
        Granularity::Word => words(line).map_values(|w: Seq<char>| w.push(' ')),
    }
}

/// Cut a line of input into the chunks that are tokenized on their own.
pub fn line_chunks(line: &str, granularity: Granularity) -> (r: Vec<String>)
    ensures
        texts(r@) == chunks(line@, granularity),
{
    let mut r: Vec<String> = Vec::new();
    match granularity {
        Granularity::Line => {
            let mut chunk = line.to_owned();
            chunk.push('\n');
            r.push(chunk);
            assert(texts(r@) =~= chunks(line@, granularity));
        },
        Granularity::Word => {
            let ws = split_words(line);
            let mut i: usize = 0;
            while i < ws.len()
                invariant
                    texts(ws@) == words(line@),
                    i <= ws@.len(),
                    texts(r@) =~= chunks(line@, Granularity::Word).take(i as int),
                decreases ws@.len() - i,
            {
                let ghost before = texts(r@);
                let mut chunk = ws[i].clone();
                assert(texts(ws@)[i as int] == ws@[i as int]@);
                chunk.push(' ');
                r.push(chunk);
                assert(texts(r@) =~= before.push(chunk@));
                i = i + 1;
            }
            assert(texts(ws@).len() == ws@.len());
            assert(chunks(line@, Granularity::Word).take(i as int) =~= chunks(
                line@,
                Granularity::Word,
            ));
        },
    }
    r
}

/// A marker that is found stands at the very start of what is left, and nothing of the text behind it
/// is lost.
pub proof fn lemma_skipping_keeps_the_rest(raw: Seq<char>, marker: Seq<char>)
    requires
        marker.len() > 0,
        contains_text(raw, marker),
    ensures
        ({
            let left = from_marker(raw, marker);
            &&& left.len() >= marker.len()
            &&& left.take(marker.len() as int) == marker
            &&& left == raw.skip(raw.len() - left.len())
        }),
{
    let k = choose|i: int| occurs_at(raw, marker, i);
    lemma_some_first(raw, marker, k);
    let i = choose|i: int| first_at(raw, marker, i);
    assert(first_at(raw, marker, i));
    assert(raw.skip(i).take(marker.len() as int) =~= raw.subrange(i, i + marker.len()));
}

proof fn lemma_some_first(s: Seq<char>, pat: Seq<char>, k: int)
    requires
        occurs_at(s, pat, k),
    ensures
        exists|i: int| first_at(s, pat, i),
    decreases k,
{
    if forall|j: int| 0 <= j < k ==> !occurs_at(s, pat, j) {
        assert(first_at(s, pat, k));
    } else {
        let j = choose|j: int| 0 <= j < k && occurs_at(s, pat, j);
        lemma_some_first(s, pat, j);
    }
}

/// Skipping leaves the end of the text: from the first occurrence of the marker on, or all of it where
/// the marker is empty or does not occur.
pub proof fn lemma_what_is_skipped(raw: &str, marker: &str, r: String)
    requires
        call_ensures(skip_to, (raw, marker), r),
    ensures
        ({
            let n = raw@.len() - r@.len();
            let m = marker@.len() as int;
            &&& n >= 0
            &&& r@ == raw@.skip(n)
            &&& forall|j: int|
                0 <= j < n && j + m <= raw@.len() ==> #[trigger] raw@.subrange(j, j + m) != marker@
            &&& n > 0 ==> m > 0 && m <= r@.len() && r@.take(m) == marker@
            &&& n == 0 ==> m == 0 || (m <= r@.len() && r@.take(m) == marker@) || forall|j: int|
                0 <= j && j + m <= raw@.len() ==> #[trigger] raw@.subrange(j, j + m) != marker@
        }),
{
    let s = raw@;
    let m = marker@.len() as int;
    if m > 0 && contains_text(s, marker@) {
        let k = choose|i: int| occurs_at(s, marker@, i);
        lemma_some_first(s, marker@, k);
        let i = choose|i: int| first_at(s, marker@, i);
        assert(first_at(s, marker@, i));
        assert(r@ == s.skip(i));
        assert(r@.take(m) =~= s.subrange(i, i + m));
        assert forall|j: int| 0 <= j < i && j + m <= s.len() implies #[trigger] s.subrange(j, j + m)
            != marker@ by {
            assert(!occurs_at(s, marker@, j));
        }
    } else {
        assert(s.skip(0) =~= s);
        if m > 0 {
            assert forall|j: int| 0 <= j && j + m <= s.len() implies #[trigger] s.subrange(j, j + m)
                != marker@ by {
                assert(!occurs_at(s, marker@, j));
            }
        }
    }
}

/// A line is fed whole, with its end put back; or word by word, each with one blank behind it.
pub proof fn lemma_how_a_line_is_cut(line: &str, granularity: Granularity, r: Vec<String>)
    requires
        call_ensures(line_chunks, (line, granularity), r),
    ensures
        granularity is Line ==> r@.len() == 1 && r@[0]@ == line@ + seq!['\n'],
        granularity is Word ==> r@.len() == words(line@).len() && forall|i: int|
            0 <= i < r@.len() ==> (#[trigger] r@[i])@ == words(line@)[i] + seq![' '],
{
    assert(texts(r@).len() == r@.len());
    assert forall|i: int| 0 <= i < r@.len() implies (#[trigger] r@[i])@ == texts(r@)[i] by {}
    if granularity is Line {
        assert(r@[0]@ =~= line@ + seq!['\n']);
    } else {
        assert forall|i: int| 0 <= i < r@.len() implies (#[trigger] r@[i])@ == words(line@)[i] + seq![
            ' ',
        ] by {
            assert(r@[i]@ =~= words(line@)[i] + seq![' ']);
        }
    }
}

} // verus!
