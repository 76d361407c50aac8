//! Characters and lines: the whitespace rule, trimming, splitting text into
//! lines and joining lines back into text.
use vstd::prelude::*;
use vstd::std_specs::iter::IteratorSpec;

verus! {

/// The characters with the Unicode `White_Space` property.
pub open spec fn is_white_space(c: char) -> bool {
    let u = c as u32;
    ||| 0x9 <= u <= 0xd
    ||| u == 0x20
    ||| u == 0x85
    ||| u == 0xa0
    ||| u == 0x1680
    ||| 0x2000 <= u <= 0x200a
    ||| u == 0x2028
    ||| u == 0x2029
    ||| u == 0x202f
    ||| u == 0x205f
    ||| u == 0x3000
}

/// `s` without its leading whitespace.
pub open spec fn trim_start(s: Seq<char>) -> Seq<char>
    decreases s.len(),
{
    if s.len() > 0 && is_white_space(s[0]) {
        trim_start(s.drop_first())
    } else {
        s
    }
}

/// `s` without its trailing whitespace.
pub open spec fn trim_end(s: Seq<char>) -> Seq<char>
    decreases s.len(),
{
    if s.len() > 0 && is_white_space(s.last()) {
        trim_end(s.drop_last())
    } else {
        s
    }
}

/// `s` without its leading and trailing whitespace.
pub open spec fn trim(s: Seq<char>) -> Seq<char> {
    trim_end(trim_start(s))
}

/// The pieces of `s` between newlines: one more than the newlines in `s`,
/// so that text ending in a newline ends with an empty line.
pub open spec fn split_lines(s: Seq<char>) -> Seq<Seq<char>>
    decreases s.len(),
{
    if s.len() == 0 {
        seq![Seq::empty()]
    } else {
        let prev = split_lines(s.drop_last());
        if s.last() == '\n' {
            prev.push(Seq::empty())
        } else {
            prev.update(prev.len() - 1, prev.last().push(s.last()))
        }
    }
}

/// The lines joined with a newline between each two.
pub open spec fn join_lines(lines: Seq<Seq<char>>) -> Seq<char>
    decreases lines.len(),
{
    if lines.len() == 0 {
        Seq::empty()
    } else if lines.len() == 1 {
        lines[0]
    } else {
        join_lines(lines.drop_last()) + seq!['\n'] + lines.last()
    }
}

pub proof fn lemma_split_lines_nonempty(s: Seq<char>)
    ensures
        split_lines(s).len() >= 1,
    decreases s.len(),
{
    if s.len() > 0 {
        lemma_split_lines_nonempty(s.drop_last());
    }
}

/// Growing a text keeps all but the last of its lines.
pub proof fn lemma_split_lines_grow(s: Seq<char>, m: int, j: int)
    requires
        0 <= m <= j <= s.len(),
    ensures
        split_lines(s.subrange(0, m)).len() <= split_lines(s.subrange(0, j)).len(),
        forall|k: int|
            0 <= k < split_lines(s.subrange(0, m)).len() - 1 ==> split_lines(s.subrange(0, j))[k]
                == split_lines(s.subrange(0, m))[k],
    decreases j - m,
{
    if j > m {
        lemma_split_lines_grow(s, m, j - 1);
        assert(s.subrange(0, j).drop_last() =~= s.subrange(0, j - 1));
        lemma_split_lines_nonempty(s.subrange(0, j - 1));
    }
}

/// The lines of text that ends at position `i`, or at a newline there, are
/// the first lines of the whole text.
pub proof fn lemma_lines_before(s: Seq<char>, i: int)
    requires
        0 <= i <= s.len(),
        i == s.len() || s[i] == '\n',
    ensures
        split_lines(s.subrange(0, i)).len() <= split_lines(s).len(),
        forall|k: int|
            0 <= k < split_lines(s.subrange(0, i)).len() ==> split_lines(s)[k] == split_lines(
                s.subrange(0, i),
            )[k],
{
    if i == s.len() {
        assert(s.subrange(0, i) =~= s);
    } else {
        assert(s.subrange(0, i + 1).drop_last() =~= s.subrange(0, i));
        lemma_split_lines_grow(s, i + 1, s.len() as int);
        assert(s.subrange(0, s.len() as int) =~= s);
    }
}

/// Cutting leading whitespace leaves a suffix that is empty or starts with
/// a character that is not whitespace.
pub proof fn lemma_trim_start(s: Seq<char>)
    ensures
        exists|k: int| 0 <= k <= s.len() && trim_start(s) == #[trigger] s.subrange(k, s.len() as int),
        trim_start(s).len() > 0 ==> !is_white_space(trim_start(s)[0]),
    decreases s.len(),
{
    if s.len() > 0 && is_white_space(s[0]) {
        lemma_trim_start(s.drop_first());
        let k = choose|k: int|
            0 <= k <= s.drop_first().len() && trim_start(s.drop_first()) == #[trigger] s.drop_first().subrange(
                k,
                s.drop_first().len() as int,
            );
        assert(s.drop_first().subrange(k, s.drop_first().len() as int) =~= s.subrange(k + 1, s.len() as int));
    } else {
        assert(s.subrange(0, s.len() as int) =~= s);
    }
}

/// Cutting trailing whitespace leaves a prefix that is empty or ends with a
/// character that is not whitespace.
pub proof fn lemma_trim_end(s: Seq<char>)
    ensures
        exists|m: int| 0 <= m <= s.len() && trim_end(s) == #[trigger] s.subrange(0, m),
        trim_end(s).len() > 0 ==> !is_white_space(trim_end(s).last()),
    decreases s.len(),
{
    if s.len() > 0 && is_white_space(s.last()) {
        lemma_trim_end(s.drop_last());
        let m = choose|m: int|
            0 <= m <= s.drop_last().len() && trim_end(s.drop_last()) == #[trigger] s.drop_last().subrange(0, m);
        assert(s.drop_last().subrange(0, m) =~= s.subrange(0, m));
    } else {
        assert(s.subrange(0, s.len() as int) =~= s);
    }
}

/// Trimming twice is trimming once, and trimming adds no newline.
pub proof fn lemma_trim_twice(s: Seq<char>)
    ensures
        trim(trim(s)) == trim(s),
        !s.contains('\n') ==> !trim(s).contains('\n'),
{
    let ts = trim_start(s);
    let t = trim(s);
    lemma_trim_start(s);
    lemma_trim_end(ts);
    let k = choose|k: int| 0 <= k <= s.len() && ts == #[trigger] s.subrange(k, s.len() as int);
    let m = choose|m: int| 0 <= m <= ts.len() && trim_end(ts) == #[trigger] ts.subrange(0, m);
    if t.len() > 0 {
        assert(t[0] == ts[0]);
    }
    assert(trim_start(t) == t);
    assert(trim_end(t) == t);
    if !s.contains('\n') {
        assert forall|i: int| 0 <= i < t.len() implies t[i] != '\n' by {
            assert(t[i] == s[k + i]);
        }
    }
}

/// No piece of a split text holds a newline.
pub proof fn lemma_split_lines_no_newline(s: Seq<char>)
    ensures
        forall|i: int| 0 <= i < split_lines(s).len() ==> !(#[trigger] split_lines(s)[i]).contains('\n'),
    decreases s.len(),
{
    if s.len() > 0 {
        let prev = split_lines(s.drop_last());
        lemma_split_lines_no_newline(s.drop_last());
        lemma_split_lines_nonempty(s.drop_last());
        if s.last() != '\n' {
            let last = prev.last().push(s.last());
            assert forall|j: int| 0 <= j < last.len() implies last[j] != '\n' by {
                if j < prev.last().len() {
                    assert(prev[prev.len() - 1][j] != '\n');
                }
            }
        }
        let r = split_lines(s);
        assert forall|i: int| 0 <= i < r.len() implies !(#[trigger] r[i]).contains('\n') by {
            if i < prev.len() - 1 {
                assert(r[i] == prev[i]);
            } else if s.last() == '\n' && i == prev.len() - 1 {
                assert(r[i] == prev[i]);
            } else if s.last() == '\n' {
                assert(r[i] =~= Seq::<char>::empty());
            }
        }
    }
}

/// Splitting a text followed by a newline and a piece without one.
pub proof fn lemma_split_after_newline(x: Seq<char>, y: Seq<char>)
    requires
        !y.contains('\n'),
    ensures
        split_lines(x + seq!['\n'] + y) == split_lines(x).push(y),
    decreases y.len(),
{
    let s = x + seq!['\n'] + y;
    if y.len() == 0 {
        assert(s.drop_last() =~= x);
        assert(y =~= Seq::<char>::empty());
    } else {
        assert(s.drop_last() =~= x + seq!['\n'] + y.drop_last());
        assert(!y.drop_last().contains('\n')) by {
            assert forall|j: int| 0 <= j < y.drop_last().len() implies y.drop_last()[j] != '\n' by {
                assert(y.drop_last()[j] == y[j]);
            }
        }
        lemma_split_after_newline(x, y.drop_last());
        assert(s.last() == y.last());
        assert(y.drop_last().push(y.last()) =~= y);
        assert(split_lines(s) =~= split_lines(x).push(y));
    }
}

/// Text without a newline is a single line.
pub proof fn lemma_split_single(y: Seq<char>)
    requires
        !y.contains('\n'),
    ensures
        split_lines(y) == seq![y],
    decreases y.len(),
{
    if y.len() == 0 {
        assert(y =~= Seq::<char>::empty());
    } else {
        assert(!y.drop_last().contains('\n')) by {
            assert forall|j: int| 0 <= j < y.drop_last().len() implies y.drop_last()[j] != '\n' by {
                assert(y.drop_last()[j] == y[j]);
            }
        }
        lemma_split_single(y.drop_last());
        assert(y.drop_last().push(y.last()) =~= y);
        assert(split_lines(y) =~= seq![y]);
    }
}

/// Splitting joined lines gives them back, where none holds a newline.
pub proof fn lemma_split_join(lines: Seq<Seq<char>>)
    requires
        lines.len() >= 1,
        forall|i: int| 0 <= i < lines.len() ==> !(#[trigger] lines[i]).contains('\n'),
    ensures
        split_lines(join_lines(lines)) == lines,
    decreases lines.len(),
{
    if lines.len() == 1 {
        lemma_split_single(lines[0]);
        assert(seq![lines[0]] =~= lines);
    } else {
        let prev = lines.drop_last();
        assert forall|i: int| 0 <= i < prev.len() implies !(#[trigger] prev[i]).contains('\n') by {
            assert(prev[i] == lines[i]);
        }
        lemma_split_join(prev);
        lemma_split_after_newline(join_lines(prev), lines.last());
        assert(prev.push(lines.last()) =~= lines);
    }
}

/// Relies on `char::is_whitespace`: true exactly for the characters with the
/// Unicode `White_Space` property.
#[verifier::external_body]
pub(crate) fn is_whitespace(c: char) -> (r: bool)
    ensures
        r == is_white_space(c),
{
    c.is_whitespace()
}

/// Relies on `String::push`: appends one character.
#[verifier::external_body]
pub(crate) fn push_char(s: &mut String, c: char)
    ensures
        final(s)@ == old(s)@.push(c),
{
    s.push(c)
}

/// The characters of `s`, in order.
pub fn chars_of(s: &str) -> (r: Vec<char>)
    ensures
        r@ == s@,
{
    broadcast use vstd::string::group_string_axioms;
    let mut it = s.chars();
    let mut r: Vec<char> = Vec::new();
    loop
        invariant
            it.obeys_prophetic_iter_laws(),
            it.decrease() is Some,
            r@ + it.remaining() == s@,
        decreases it.decrease()->0,
    {
        match it.next() {
            Some(c) => {
                r.push(c);
                assert(r@ + it.remaining() =~= s@);
            },
            None => {
                assert(r@ =~= s@);
                return r;
            },
        }
    }
}

/// The characters `cs[lo..hi]` as a `String`.
pub fn string_of(cs: &Vec<char>, lo: usize, hi: usize) -> (r: String)
    requires
        lo <= hi <= cs@.len(),
    ensures
        r@ == cs@.subrange(lo as int, hi as int),
{
    let mut r = String::new();
    let mut i = lo;
    while i < hi
        invariant
            lo <= i <= hi <= cs@.len(),
            r@ == cs@.subrange(lo as int, i as int),
        decreases hi - i,
    {
        push_char(&mut r, cs[i]);
        i = i + 1;
        assert(r@ =~= cs@.subrange(lo as int, i as int));
    }
    r
}

/// The bounds of `cs[lo..hi]` once its leading and trailing whitespace is cut.
pub fn trim_bounds(cs: &Vec<char>, lo: usize, hi: usize) -> (r: (usize, usize))
    requires
        lo <= hi <= cs@.len(),
    ensures
        lo <= r.0 <= r.1 <= hi,
        cs@.subrange(r.0 as int, r.1 as int) == trim(cs@.subrange(lo as int, hi as int)),
{
    let ghost s = cs@;
    let mut a = lo;
    while a < hi && is_whitespace(cs[a])
        invariant
            lo <= a <= hi <= s.len(),
            s == cs@,
            trim_start(s.subrange(lo as int, hi as int)) == trim_start(s.subrange(a as int, hi as int)),
        decreases hi - a,
    {
        assert(s.subrange(a as int, hi as int).drop_first() =~= s.subrange(a + 1, hi as int));
        a = a + 1;
    }
    assert(trim_start(s.subrange(a as int, hi as int)) == s.subrange(a as int, hi as int));
    let mut b = hi;
    while b > a && is_whitespace(cs[b - 1])
        invariant
            lo <= a <= b <= hi <= s.len(),
            s == cs@,
            trim_end(s.subrange(a as int, hi as int)) == trim_end(s.subrange(a as int, b as int)),
        decreases b - a,
    {
        assert(s.subrange(a as int, b as int).drop_last() =~= s.subrange(a as int, b - 1));
        b = b - 1;
    }
    (a, b)
}

} // verus!
