//! JSON values that the library can look into, and how they are read from a text.

use vstd::prelude::*;

verus! {

/// A JSON value. The fields of an object stand in the order in which they are walked.
pub enum Json {
    Null,
    Bool(bool),
    /// A number: its value where it is an integer that fits, and the pattern of its value in double
    /// precision.
    Number { whole: Option<i64>, bits: Option<u64> },
    Text(String),
    List(Vec<Json>),
    Object(Vec<(String, Json)>),
}

/// A JSON value, as a value.
pub enum JsonView {
    Null,
    Bool(bool),
    Number { whole: Option<i64>, bits: Option<u64> },
    Text(Seq<char>),
    List(Seq<JsonView>),
    Object(Seq<(Seq<char>, JsonView)>),
}

impl Json {
    /// The value that this is.
    pub open spec fn tree(self) -> JsonView
        decreases self,
    {
        match self {
            Json::Null => JsonView::Null,
            Json::Bool(b) => JsonView::Bool(b),
            Json::Number { whole, bits } => JsonView::Number { whole, bits },
            Json::Text(s) => JsonView::Text(s@),
            Json::List(v) => JsonView::List(
                Seq::new(
                    v@.len(),
                    |i: int|
                        if 0 <= i < v@.len() {
                            v@[i].tree()
                        } else {
                            JsonView::Null
                        },
                ),
            ),
            Json::Object(v) => JsonView::Object(
                Seq::new(
                    v@.len(),
                    |i: int|
                        if 0 <= i < v@.len() {
                            (v@[i].0@, v@[i].1.tree())
                        } else {
                            (Seq::empty(), JsonView::Null)
                        },
                ),
            ),
        }
    }
}

/// The JSON value of the `serde_json` crate.
#[verifier::external_type_specification]
#[verifier::external_body]
pub struct ExValue(serde_json::Value);

/// One level of a JSON value of the `serde_json` crate.
pub enum Layer {
    Null,
    Bool(bool),
    Number { whole: Option<i64>, bits: Option<u64> },
    Text(String),
    List(Vec<serde_json::Value>),
    Object(Vec<(String, serde_json::Value)>),
}

/// What a JSON value of the `serde_json` crate holds.
pub uninterp spec fn held(v: serde_json::Value) -> JsonView;

/// What `serde_json::from_str` reads from a text; `None` where it is not JSON.
pub uninterp spec fn read(text: Seq<char>) -> Option<JsonView>;

/// The values that a list of values holds.
pub open spec fn all_held(v: Seq<serde_json::Value>) -> Seq<JsonView> {
    v.map_values(|x: serde_json::Value| held(x))
}

/// The fields that a list of fields holds.
pub open spec fn fields_held(v: Seq<(String, serde_json::Value)>) -> Seq<(Seq<char>, JsonView)> {
    v.map_values(|x: (String, serde_json::Value)| (x.0@, held(x.1)))
}

impl Layer {
    /// The value that this is the outermost level of.
    pub open spec fn top(self) -> JsonView {
        match self {
            Layer::Null => JsonView::Null,
            Layer::Bool(b) => JsonView::Bool(b),
            Layer::Number { whole, bits } => JsonView::Number { whole, bits },
            Layer::Text(s) => JsonView::Text(s@),
            Layer::List(v) => JsonView::List(all_held(v@)),
            Layer::Object(v) => JsonView::Object(fields_held(v@)),
        }
    }
}

/// `serde_json::from_str` into a `serde_json::Value`: what the text reads as, under the name [`read`].
/// The position and the wording of an error are left out.
#[verifier::external_body]
fn from_str(text: &str) -> (r: Option<serde_json::Value>)
    ensures
        match r {
            Some(v) => read(text@) == Some(held(v)),
            None => read(text@) is None,
        },
{
    serde_json::from_str(text).ok()
}

/// The variants of `serde_json::Value` told apart, with their contents moved out. A number is given by
/// `Number::as_i64` and `Number::as_f64`; the fields of an object come in the order of its map.
#[verifier::external_body]
fn peel(v: serde_json::Value) -> (l: Layer)
    ensures
        l.top() == held(v),
{
    match v {
        serde_json::Value::Null => Layer::Null,
        serde_json::Value::Bool(b) => Layer::Bool(b),
        serde_json::Value::Number(n) => Layer::Number {
            whole: n.as_i64(),
            bits: n.as_f64().map(|x| x.to_bits()),
        },
        serde_json::Value::String(s) => Layer::Text(s),
        serde_json::Value::Array(a) => Layer::List(a),
        serde_json::Value::Object(m) => Layer::Object(m.into_iter().collect()),
    }
}

/// An item of a list, or the value of a field of an object, is smaller than the whole.
proof fn lemma_items_are_smaller(j: JsonView, i: int)
    ensures
        j matches JsonView::List(s) ==> (0 <= i < s.len() ==> decreases_to!(j => s[i])),
        j matches JsonView::Object(s) ==> (0 <= i < s.len() ==> decreases_to!(j => s[i].1)),
{
    match j {
        JsonView::List(s) => {
            if 0 <= i < s.len() {
                assert(decreases_to!(j => j->List_0));
                assert(decreases_to!(s => s[i]));
            }
        },
        JsonView::Object(s) => {
            if 0 <= i < s.len() {
                let f = s[i];
                assert(decreases_to!(j => j->Object_0));
                assert(decreases_to!(s => s[i]));
                assert(decreases_to!(f => f.1));
            }
        },
        _ => {},
    }
}

/// The library's own form of a value.
fn convert(v: serde_json::Value) -> (j: Json)
    ensures
        j.tree() == held(v),
    decreases held(v),
{
    let ghost all_of_it = held(v);
    match peel(v) {
        Layer::Null => Json::Null,
        Layer::Bool(b) => Json::Bool(b),
        Layer::Number { whole, bits } => Json::Number { whole, bits },
        Layer::Text(s) => Json::Text(s),
        Layer::List(mut items) => {
            let ghost all = items@;
            let mut out: Vec<Json> = Vec::new();
            let n: usize = items.len();
            let mut i: usize = 0;
            while i < n
                invariant
                    all_of_it == held(v),
                    all_of_it == JsonView::List(all_held(all)),
                    n == all.len(),
                    i <= n,
                    items@ == all.take(n - i),
                    out@.len() == i,
                    forall|k: int|
                        0 <= k < i ==> (#[trigger] out@[k]).tree() == held(all[n - 1 - k]),
                decreases n - i,
            {
                match items.pop() {
                    None => {},
                    Some(x) => {
                        assert(x == all[n - 1 - i]);
                        assert(all_held(all)[n - 1 - i] == held(x));
                        proof {
                            lemma_items_are_smaller(all_of_it, n - 1 - i);
                        }
                        let j = convert(x);
                        out.push(j);
                        assert(items@ =~= all.take(n - i - 1));
                    },
                }
                i = i + 1;
            }
            let items = reversed(out);
            let j = Json::List(items);
            proof {
                let w = j.tree();
                assert(w matches JsonView::List(s) && s =~= all_held(all));
            }
            j
        },
        Layer::Object(mut items) => {
            let ghost all = items@;
            let mut out: Vec<(String, Json)> = Vec::new();
            let n: usize = items.len();
            let mut i: usize = 0;
            while i < n
                invariant
                    all_of_it == held(v),
                    all_of_it == JsonView::Object(fields_held(all)),
                    n == all.len(),
                    i <= n,
                    items@ == all.take(n - i),
                    out@.len() == i,
                    forall|k: int|
                        0 <= k < i ==> (#[trigger] out@[k]).1.tree() == held(all[n - 1 - k].1)
                            && out@[k].0 == all[n - 1 - k].0,
                decreases n - i,
            {
                match items.pop() {
                    None => {},
                    Some(x) => {
                        assert(x == all[n - 1 - i]);
                        assert(fields_held(all)[n - 1 - i] == (x.0@, held(x.1)));
                        proof {
                            lemma_items_are_smaller(all_of_it, n - 1 - i);
                        }
                        let (key, value) = x;
                        let j = convert(value);
                        out.push((key, j));
                        assert(items@ =~= all.take(n - i - 1));
                    },
                }
                i = i + 1;
            }
            let items = reversed(out);
            let j = Json::Object(items);
            proof {
                let w = j.tree();
                assert(w matches JsonView::Object(s) && s =~= fields_held(all));
            }
            j
        },
    }
}

/// A list back to front.
fn reversed<T>(v: Vec<T>) -> (r: Vec<T>)
    ensures
        r@ == v@.reverse(),
{
    let mut v = v;
    let ghost all = v@;
    let mut r: Vec<T> = Vec::new();
    let n: usize = v.len();
    let mut i: usize = 0;
    while i < n
        invariant
            n == all.len(),
            i <= n,
            v@ == all.take(n - i),
            r@ == all.reverse().take(i as int),
        decreases n - i,
    {
        match v.pop() {
            None => {},
            Some(x) => {
                assert(x == all.reverse()[i as int]);
                r.push(x);
                assert(r@ =~= all.reverse().take(i + 1));
                assert(v@ =~= all.take(n - i - 1));
            },
        }
        i = i + 1;
    }
    assert(all.reverse().take(n as int) =~= all.reverse());
    r
}

/// Read a JSON text.
pub fn parse(text: &str) -> (r: Option<Json>)
    ensures
        match r {
            Some(j) => read(text@) == Some(j.tree()),
            None => read(text@) is None,
        },
{
    match from_str(text) {
        Some(v) => Some(convert(v)),
        None => None,
    }
}

} // verus!
