//! What holds of documents across calls.
use vstd::prelude::*;
use crate::doc::{
    Change,
    adds, has_key_in, is_first_of, is_pair_of, is_well_formed, lemma_first_of, lemma_first_unique,
    lines_of, lookup_in, text_of, value_of, without_key, EnvFileView,
};
use crate::line::{lemma_render_classify, line_of, render_line, LineView};
use crate::text::{
    join_lines, lemma_split_join, lemma_split_lines_no_newline, lemma_split_lines_nonempty,
    lemma_trim_twice, split_lines, trim,
};

verus! {

/// Rendering parsed text gives back the text with each line trimmed, for
/// any text whose lines are all blank, comments or hold an `=`.
pub proof fn lemma_round_trip(s: Seq<char>)
    requires
        is_well_formed(s),
    ensures
        text_of(lines_of(s)) == join_lines(split_lines(s).map_values(|raw: Seq<char>| trim(raw))),
{
    let raws = split_lines(s);
    let rendered = lines_of(s).map_values(|l| render_line(l));
    assert forall|k: int| 0 <= k < raws.len() implies rendered[k] == trim(raws[k]) by {
        assert(line_of(raws[k]) is Some);
        lemma_render_classify(trim(raws[k]));
    }
    assert(rendered =~= raws.map_values(|raw: Seq<char>| trim(raw)));
}

/// Parsing the text of a parsed document gives back the same lines.
pub proof fn lemma_reparse(s: Seq<char>)
    requires
        is_well_formed(s),
    ensures
        is_well_formed(text_of(lines_of(s))),
        lines_of(text_of(lines_of(s))) == lines_of(s),
{
    let raws = split_lines(s);
    let trimmed = raws.map_values(|raw: Seq<char>| trim(raw));
    let t = text_of(lines_of(s));
    lemma_round_trip(s);
    lemma_split_lines_no_newline(s);
    lemma_split_lines_nonempty(s);
    assert forall|i: int| 0 <= i < trimmed.len() implies !(#[trigger] trimmed[i]).contains('\n') by {
        lemma_trim_twice(raws[i]);
    }
    lemma_split_join(trimmed);
    assert forall|i: int| 0 <= i < trimmed.len() implies line_of(#[trigger] trimmed[i]) == line_of(
        raws[i],
    ) by {
        lemma_trim_twice(raws[i]);
    }
    assert(split_lines(t) == trimmed);
    assert forall|i: int| 0 <= i < split_lines(t).len() implies (#[trigger] line_of(
        split_lines(t)[i],
    )) is Some by {
        assert(line_of(raws[i]) is Some);
    }
    assert(lines_of(t) =~= lines_of(s));
}

/// Adding the same key and value twice: the second call changes nothing and
/// reports nothing, unless the value is empty and the key already holds a
/// non-empty one (then both calls decline alike).
pub proof fn lemma_add_idempotent(
    a: EnvFileView,
    key: Seq<char>,
    value: Seq<char>,
    r1: Option<Change>,
    b: EnvFileView,
    r2: Option<Change>,
    c: EnvFileView,
)
    requires
        adds(a, key, value, r1, b),
        adds(b, key, value, r2, c),
        !(value.len() == 0 && (lookup_in(a.lines, key) matches Some(v) && v.len() > 0)),
    ensures
        r2 is None,
        c == b,
{
    let lines = a.lines;
    if has_key_in(lines, key) {
        let i = lemma_first_witness(lines, key);
        if value.len() == 0 && value_of(lines[i]).len() == 0 {
            assert(value_of(lines[i]) =~= value);
        }
        if value_of(lines[i]) != value && value.len() != 0 {
            let new_lines = lines.update(i, LineView::Pair { key, value });
            assert(is_first_of(new_lines, key, i));
            lemma_first_unique(new_lines, key, i);
            assert(has_key_in(new_lines, key));
        }
    } else {
        let n = lines.len() as int;
        let new_lines = lines.push(LineView::Pair { key, value });
        assert forall|j: int| 0 <= j < n implies !is_pair_of(#[trigger] new_lines[j], key) by {
            assert(new_lines[j] == lines[j]);
        }
        assert(is_first_of(new_lines, key, n));
        lemma_first_unique(new_lines, key, n);
        assert(has_key_in(new_lines, key));
    }
}

/// After removing a key no pair line has it, and every other line stays.
pub proof fn lemma_remove_clears_key(lines: Seq<LineView>, key: Seq<char>)
    ensures
        !has_key_in(without_key(lines, key), key),
        forall|i: int|
            0 <= i < lines.len() && !is_pair_of(#[trigger] lines[i], key) ==> without_key(
                lines,
                key,
            ).contains(lines[i]),
    decreases lines.len(),
{
    if lines.len() > 0 {
        let prev = lines.drop_last();
        lemma_remove_clears_key(prev, key);
        let w = without_key(lines, key);
        assert forall|i: int| 0 <= i < lines.len() && !is_pair_of(#[trigger] lines[i], key) implies w.contains(lines[i]) by {
            if i < prev.len() {
                assert(prev[i] == lines[i]);
                let k = choose|k: int| 0 <= k < without_key(prev, key).len() && without_key(prev, key)[k] == prev[i];
                assert(w[k] == lines[i]);
            } else {
                assert(w[w.len() - 1] == lines[i]);
            }
        }
        if has_key_in(w, key) {
            let k = choose|k: int| 0 <= k < w.len() && is_pair_of(#[trigger] w[k], key);
            if k < without_key(prev, key).len() {
                assert(is_pair_of(without_key(prev, key)[k], key));
            }
        }
    }
}

/// Where a key is present, the first line with it.
proof fn lemma_first_witness(lines: Seq<LineView>, key: Seq<char>) -> (i: int)
    requires
        has_key_in(lines, key),
    ensures
        i == crate::doc::first_of(lines, key),
        is_first_of(lines, key, i),
{
    let j = choose|j: int| 0 <= j < lines.len() && is_pair_of(#[trigger] lines[j], key);
    lemma_first_of(lines, key, j);
    crate::doc::first_of(lines, key)
}

} // verus!
