//! One line of a document: its model, how raw text is classified into it,
//! and how it is rendered back.
use vstd::prelude::*;
use crate::text::{string_of, trim, trim_bounds};

verus! {

/// What a line holds, as sequences of characters.
pub enum LineView {
    Blank,
    Pair { key: Seq<char>, value: Seq<char> },
    Comment(Seq<char>),
}

/// A key and its value, as written on one `key=value` line.
#[derive(Debug, Clone)]
pub struct Pair {
    pub key: String,
    pub value: String,
}

/// One line of a document.
#[derive(Debug, Clone)]
pub enum Line {
    /// An empty or whitespace-only line.
    Blank,
    /// A `key=value` line.
    Pair(Pair),
    /// A line starting with `#`, trimmed, with its `#`.
    Comment(String),
}

impl View for Line {
    type V = LineView;

    open spec fn view(&self) -> LineView {
        match self {
            Line::Blank => LineView::Blank,
            Line::Pair(p) => LineView::Pair { key: p.key@, value: p.value@ },
            Line::Comment(c) => LineView::Comment(c@),
        }
    }
}

impl Pair {
    /// A pair of the given key and value.
    pub fn new(key: &str, value: &str) -> (r: Pair)
        ensures
            r.key@ == key@,
            r.value@ == value@,
    {
        Pair { key: String::from_str(key), value: String::from_str(value) }
    }
}

impl Line {
    /// A copy of this line.
    pub fn copy(&self) -> (r: Line)
        ensures
            r@ == self@,
    {
        match self {
            Line::Blank => Line::Blank,
            Line::Pair(p) => Line::Pair(Pair { key: p.key.clone(), value: p.value.clone() }),
            Line::Comment(c) => Line::Comment(c.clone()),
        }
    }
}

/// `i` is the position of the first `=` in `t`.
pub open spec fn is_first_eq(t: Seq<char>, i: int) -> bool {
    &&& 0 <= i < t.len()
    &&& t[i] == '='
    &&& forall|j: int| 0 <= j < i ==> t[j] != '='
}

/// The position of the first `=` in `t`, where there is one.
pub open spec fn first_eq(t: Seq<char>) -> int {
    choose|i: int| is_first_eq(t, i)
}

/// The line that trimmed text `t` stands for: a comment when it starts with
/// `#`, blank when empty, else a pair split at its first `=`; none when it
/// holds no `=`.
pub open spec fn classify(t: Seq<char>) -> Option<LineView> {
    if t.len() > 0 && t[0] == '#' {
        Some(LineView::Comment(t))
    } else if t.len() == 0 {
        Some(LineView::Blank)
    } else if exists|i: int| is_first_eq(t, i) {
        let i = first_eq(t);
        Some(LineView::Pair { key: t.subrange(0, i), value: t.subrange(i + 1, t.len() as int) })
    } else {
        None
    }
}

/// The line that raw text `raw` stands for, once trimmed.
pub open spec fn line_of(raw: Seq<char>) -> Option<LineView> {
    classify(trim(raw))
}

/// The text of a line.
pub open spec fn render_line(l: LineView) -> Seq<char> {
    match l {
        LineView::Blank => Seq::empty(),
        LineView::Pair { key, value } => key + seq!['='] + value,
        LineView::Comment(c) => c,
    }
}

/// Rendering a classified line gives back the trimmed text.
pub proof fn lemma_render_classify(t: Seq<char>)
    requires
        classify(t) is Some,
    ensures
        render_line(classify(t)->0) == t,
{
    if !(t.len() > 0 && t[0] == '#') && t.len() != 0 {
        let i = first_eq(t);
        assert(t.subrange(0, i) + seq!['='] + t.subrange(i + 1, t.len() as int) =~= t);
    }
}

/// Classifies the raw text `cs[lo..hi]`: `None` where, once trimmed, it is
/// neither blank nor a comment and holds no `=`.
pub fn parse_line(cs: &Vec<char>, lo: usize, hi: usize) -> (r: Option<Line>)
    requires
        lo <= hi <= cs@.len(),
    ensures
        match r {
            Some(l) => line_of(cs@.subrange(lo as int, hi as int)) == Some(l@),
            None => line_of(cs@.subrange(lo as int, hi as int)) is None,
        },
{
    let (a, b) = trim_bounds(cs, lo, hi);
    let ghost t = cs@.subrange(a as int, b as int);
    if a < b && cs[a] == '#' {
        return Some(Line::Comment(string_of(cs, a, b)));
    }
    if a == b {
        return Some(Line::Blank);
    }
    let mut i = a;
    while i < b && cs[i] != '='
        invariant
            a <= i <= b <= cs@.len(),
            t == cs@.subrange(a as int, b as int),
            forall|j: int| 0 <= j < i - a ==> t[j] != '=',
        decreases b - i,
    {
        i = i + 1;
    }
    if i == b {
        assert(!exists|k: int| is_first_eq(t, k));
        return None;
    }
    proof {
        let k = (i - a) as int;
        assert(is_first_eq(t, k));
        let c = first_eq(t);
        assert(is_first_eq(t, c));
        assert(c == k);
        assert(t.subrange(0, k) =~= cs@.subrange(a as int, i as int));
        assert(t.subrange(k + 1, t.len() as int) =~= cs@.subrange(i + 1, b as int));
    }
    let key = string_of(cs, a, i);
    let value = string_of(cs, i + 1, b);
    Some(Line::Pair(Pair { key, value }))
}

} // verus!
