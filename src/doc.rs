//! A document: its lines in file order, the path it belongs to and whether
//! it was changed since it was made.
use vstd::prelude::*;
use crate::line::{Line, LineView, Pair, line_of, parse_line, render_line};
use crate::text::{chars_of, join_lines, lemma_lines_before, push_char, split_lines, string_of, trim, trim_bounds};

verus! {

/// The lines that well-formed text stands for, one for each line of text.
pub open spec fn lines_of(s: Seq<char>) -> Seq<LineView> {
    split_lines(s).map_values(|raw: Seq<char>| line_of(raw)->0)
}

/// Every line of `s` is blank, a comment or holds an `=`.
pub open spec fn is_well_formed(s: Seq<char>) -> bool {
    forall|i: int| 0 <= i < split_lines(s).len() ==> (#[trigger] line_of(split_lines(s)[i])) is Some
}

/// Line `i` (counted from zero) is the first line of `s` that is not well formed.
pub open spec fn is_first_malformed(s: Seq<char>, i: int) -> bool {
    &&& 0 <= i < split_lines(s).len()
    &&& line_of(split_lines(s)[i]) is None
    &&& forall|j: int| 0 <= j < i ==> (#[trigger] line_of(split_lines(s)[j])) is Some
}

/// The text of a document: its lines rendered and joined by newlines.
pub open spec fn text_of(lines: Seq<LineView>) -> Seq<char> {
    join_lines(lines.map_values(|l: LineView| render_line(l)))
}

/// `l` is a pair line with key `key`.
pub open spec fn is_pair_of(l: LineView, key: Seq<char>) -> bool {
    match l {
        LineView::Pair { key: k, .. } => k == key,
        _ => false,
    }
}

/// The value of a pair line.
pub open spec fn value_of(l: LineView) -> Seq<char> {
    match l {
        LineView::Pair { value, .. } => value,
        _ => Seq::empty(),
    }
}

/// Some pair line has key `key`.
pub open spec fn has_key_in(lines: Seq<LineView>, key: Seq<char>) -> bool {
    exists|i: int| 0 <= i < lines.len() && is_pair_of(#[trigger] lines[i], key)
}

/// Some pair line has key `key` and a non-empty value.
pub open spec fn has_value_in(lines: Seq<LineView>, key: Seq<char>) -> bool {
    exists|i: int|
        0 <= i < lines.len() && is_pair_of(#[trigger] lines[i], key) && value_of(lines[i]).len() > 0
}

/// Line `i` is the first pair line with key `key`.
pub open spec fn is_first_of(lines: Seq<LineView>, key: Seq<char>, i: int) -> bool {
    &&& 0 <= i < lines.len()
    &&& is_pair_of(lines[i], key)
    &&& forall|j: int| 0 <= j < i ==> !is_pair_of(#[trigger] lines[j], key)
}

/// The position of the first pair line with key `key`, where there is one.
pub open spec fn first_of(lines: Seq<LineView>, key: Seq<char>) -> int {
    choose|i: int| is_first_of(lines, key, i)
}

/// The value of the first pair line with key `key`.
pub open spec fn lookup_in(lines: Seq<LineView>, key: Seq<char>) -> Option<Seq<char>> {
    if has_key_in(lines, key) {
        Some(value_of(lines[first_of(lines, key)]))
    } else {
        None
    }
}

/// The first pair line with a key is unique, and there is one wherever a
/// pair line has that key.
pub proof fn lemma_first_of(lines: Seq<LineView>, key: Seq<char>, i: int)
    requires
        0 <= i < lines.len(),
        is_pair_of(lines[i], key),
    ensures
        is_first_of(lines, key, first_of(lines, key)),
        first_of(lines, key) <= i,
    decreases i,
{
    if forall|j: int| 0 <= j < i ==> !is_pair_of(#[trigger] lines[j], key) {
        assert(is_first_of(lines, key, i));
        lemma_first_unique(lines, key, i);
    } else {
        let j = choose|j: int| 0 <= j < i && is_pair_of(#[trigger] lines[j], key);
        lemma_first_of(lines, key, j);
    }
}

/// A line that is first with its key is the one that `first_of` names.
pub proof fn lemma_first_unique(lines: Seq<LineView>, key: Seq<char>, i: int)
    requires
        is_first_of(lines, key, i),
    ensures
        first_of(lines, key) == i,
{
    let c = first_of(lines, key);
    assert(is_first_of(lines, key, c));
    if c < i {
        assert(!is_pair_of(lines[c], key));
    }
    if c > i {
        assert(!is_pair_of(lines[i], key));
    }
}

/// The lines without the pair lines of key `key`.
pub open spec fn without_key(lines: Seq<LineView>, key: Seq<char>) -> Seq<LineView>
    decreases lines.len(),
{
    if lines.len() == 0 {
        lines
    } else {
        let prev = without_key(lines.drop_last(), key);
        if is_pair_of(lines.last(), key) {
            prev
        } else {
            prev.push(lines.last())
        }
    }
}

/// A line of a template as it stands in a document rebuilt on it: a pair
/// takes its value from `lines`, or the empty value where `lines` lacks the key.
pub open spec fn reorder_line(l: LineView, lines: Seq<LineView>) -> LineView {
    match l {
        LineView::Pair { key, .. } => LineView::Pair {
            key,
            value: match lookup_in(lines, key) {
                Some(v) => v,
                None => Seq::empty(),
            },
        },
        _ => l,
    }
}

/// The keys of the template's pair lines that `lines` lacks, in template order.
pub open spec fn missing_keys(template: Seq<LineView>, lines: Seq<LineView>) -> Seq<Seq<char>>
    decreases template.len(),
{
    if template.len() == 0 {
        Seq::empty()
    } else {
        let prev = missing_keys(template.drop_last(), lines);
        match template.last() {
            LineView::Pair { key, .. } => if has_key_in(lines, key) {
                prev
            } else {
                prev.push(key)
            },
            _ => prev,
        }
    }
}

/// The keys and values of the pair lines, in order.
pub open spec fn pairs_of(lines: Seq<LineView>) -> Seq<(Seq<char>, Seq<char>)>
    decreases lines.len(),
{
    if lines.len() == 0 {
        Seq::empty()
    } else {
        match lines[0] {
            LineView::Pair { key, value } => seq![(key, value)] + pairs_of(lines.drop_first()),
            _ => pairs_of(lines.drop_first()),
        }
    }
}

/// What `add(key, value)` does to a document `before`, giving `r` and `after`.
pub open spec fn adds(
    before: EnvFileView,
    key: Seq<char>,
    value: Seq<char>,
    r: Option<Change>,
    after: EnvFileView,
) -> bool {
    let lines = before.lines;
    let new_line = LineView::Pair { key, value };
    &&& after.path == before.path
    &&& if has_key_in(lines, key) {
        let i = first_of(lines, key);
        let existing = value_of(lines[i]);
        if existing == value {
            r is None && after == before
        } else if value.len() == 0 {
            r == Some(Change::AlreadyExists) && after == before
        } else {
            &&& r == Some(Change::Updated)
            &&& after.lines == lines.update(i, new_line)
            &&& after.modified
        }
    } else {
        &&& r == Some(Change::Added)
        &&& after.lines == lines.push(new_line)
        &&& after.modified
    }
}

/// Renders line `l` at the end of `out`.
fn push_line(out: &mut String, l: &Line)
    ensures
        final(out)@ == old(out)@ + render_line(l@),
{
    match l {
        Line::Blank => {
            assert(old(out)@ + Seq::<char>::empty() =~= old(out)@);
        },
        Line::Pair(p) => {
            out.append(p.key.as_str());
            push_char(out, '=');
            out.append(p.value.as_str());
            assert(final(out)@ =~= old(out)@ + (p.key@ + seq!['='] + p.value@));
        },
        Line::Comment(c) => {
            out.append(c.as_str());
        },
    }
}

/// A document as its lines, the path it is saved to, and its dirty flag.
pub struct EnvFileView {
    pub lines: Seq<LineView>,
    pub path: Seq<char>,
    pub modified: bool,
}

/// Why text could not be parsed: a line that is neither blank, a comment,
/// nor holds an `=`.
#[derive(Debug, Clone)]
pub struct ParseError {
    /// The line's position, counted from zero.
    pub line: usize,
    /// The line's text, trimmed.
    pub text: String,
}

/// What a mutation did.
#[derive(Debug, Clone, Copy, PartialEq, Eq, Structural)]
pub enum Change {
    /// A new pair line was appended.
    Added,
    /// The first pair line with the key got the new value.
    Updated,
    /// The key has a non-empty value, which an empty one does not replace.
    AlreadyExists,
    /// This many pair lines were removed.
    Removed(usize),
}

/// A document in memory.
#[derive(Debug)]
pub struct EnvFile {
    lines: Vec<Line>,
    pub path: String,
    modified: bool,
}

impl View for EnvFile {
    type V = EnvFileView;

    closed spec fn view(&self) -> EnvFileView {
        EnvFileView {
            lines: self.lines@.map_values(|l: Line| l@),
            path: self.path@,
            modified: self.modified,
        }
    }
}

impl EnvFile {
    /// Parses text, one line of the document for each line of text, with an
    /// empty path and the dirty flag clear.
    pub fn parse(s: &str) -> (r: Result<EnvFile, ParseError>)
        ensures
            r is Ok <==> is_well_formed(s@),
            r matches Ok(f) ==> f@.lines == lines_of(s@) && f@.path.len() == 0 && !f@.modified,
            r matches Err(e) ==> is_first_malformed(s@, e.line as int)
                && e.text@ == trim(split_lines(s@)[e.line as int]),
    {
        let cs = chars_of(s);
        let n = cs.len();
        let mut lines: Vec<Line> = Vec::new();
        let ghost done: Seq<Seq<char>> = Seq::empty();
        let mut start: usize = 0;
        let mut i: usize = 0;
        assert(s@.subrange(0, 0) =~= Seq::<char>::empty());
        assert(split_lines(s@.subrange(0, 0)) =~= done.push(s@.subrange(0, 0)));
        loop
            invariant_except_break
                0 <= start <= i <= n,
                split_lines(s@.subrange(0, i as int)) == done.push(s@.subrange(start as int, i as int)),
            invariant
                cs@ == s@,
                n == cs@.len(),
                lines@.len() == done.len(),
                forall|k: int| 0 <= k < done.len() ==> line_of(#[trigger] done[k]) == Some(lines@[k]@),
            ensures
                split_lines(s@) == done,
            decreases n - i,
        {
            let ghost prefix = s@.subrange(0, i as int);
            if i == n || cs[i] == '\n' {
                proof {
                    lemma_lines_before(s@, i as int);
                }
                match parse_line(&cs, start, i) {
                    Some(l) => {
                        lines.push(l);
                        proof {
                            done = done.push(s@.subrange(start as int, i as int));
                        }
                    },
                    None => {
                        let (a, b) = trim_bounds(&cs, start, i);
                        let text = string_of(&cs, a, b);
                        let ghost k = done.len() as int;
                        assert(split_lines(s@)[k] == s@.subrange(start as int, i as int));
                        assert(line_of(split_lines(s@)[k]) is None);
                        assert forall|j: int| 0 <= j < k implies (#[trigger] line_of(
                            split_lines(s@)[j],
                        )) is Some by {
                            assert(split_lines(s@)[j] == done[j]);
                        }
                        return Err(ParseError { line: lines.len(), text });
                    },
                }
                if i == n {
                    assert(s@.subrange(0, i as int) =~= s@);
                    break;
                }
                start = i + 1;
                assert(s@.subrange(0, i + 1).drop_last() =~= prefix);
                assert(s@.subrange(start as int, i + 1) =~= Seq::<char>::empty());
            } else {
                assert(s@.subrange(0, i + 1).drop_last() =~= prefix);
                assert(s@.subrange(start as int, i + 1) =~= s@.subrange(start as int, i as int).push(
                    cs@[i as int],
                ));
            }
            i = i + 1;
        }
        assert(lines_of(s@) =~= lines@.map_values(|l: Line| l@));
        Ok(EnvFile { lines, path: String::new(), modified: false })
    }

    /// The position of the first pair line with key `key`.
    fn find(&self, key: &String) -> (r: Option<usize>)
        ensures
            match r {
                Some(i) => is_first_of(self@.lines, key@, i as int) && first_of(self@.lines, key@) == i,
                None => !has_key_in(self@.lines, key@),
            },
    {
        let ghost lines = self@.lines;
        let mut i: usize = 0;
        while i < self.lines.len()
            invariant
                lines == self@.lines,
                lines.len() == self.lines@.len(),
                0 <= i <= lines.len(),
                forall|j: int| 0 <= j < i ==> !is_pair_of(#[trigger] lines[j], key@),
            decreases self.lines.len() - i,
        {
            assert(lines[i as int] == self.lines@[i as int]@);
            match &self.lines[i] {
                Line::Pair(p) => {
                    if p.key == *key {
                        proof {
                            lemma_first_unique(lines, key@, i as int);
                        }
                        return Some(i);
                    }
                },
                _ => {},
            }
            i = i + 1;
        }
        None
    }

    /// The value of the first pair line with key `key`.
    pub fn lookup(&self, key: &str) -> (r: Option<&str>)
        ensures
            match r {
                Some(v) => lookup_in(self@.lines, key@) == Some(v@),
                None => lookup_in(self@.lines, key@) is None,
            },
    {
        let k = String::from_str(key);
        match self.find(&k) {
            Some(i) => {
                assert(self@.lines[i as int] == self.lines@[i as int]@);
                match &self.lines[i] {
                    Line::Pair(p) => Some(p.value.as_str()),
                    _ => None,
                }
            },
            None => None,
        }
    }

    /// Whether some pair line has key `key`, whatever its value.
    pub fn has_key(&self, key: &str) -> (r: bool)
        ensures
            r == has_key_in(self@.lines, key@),
    {
        let k = String::from_str(key);
        match self.find(&k) {
            Some(_) => true,
            None => false,
        }
    }

    /// Whether some pair line has key `key` and a non-empty value.
    pub fn has_value(&self, key: &str) -> (r: bool)
        ensures
            r == has_value_in(self@.lines, key@),
    {
        let k = String::from_str(key);
        let ghost lines = self@.lines;
        let mut i: usize = 0;
        while i < self.lines.len()
            invariant
                lines == self@.lines,
                lines.len() == self.lines@.len(),
                k@ == key@,
                0 <= i <= lines.len(),
                forall|j: int|
                    0 <= j < i ==> !(is_pair_of(#[trigger] lines[j], key@) && value_of(lines[j]).len() > 0),
            decreases self.lines.len() - i,
        {
            assert(lines[i as int] == self.lines@[i as int]@);
            match &self.lines[i] {
                Line::Pair(p) => {
                    if p.key == k && !p.value.as_str().is_empty() {
                        return true;
                    }
                },
                _ => {},
            }
            i = i + 1;
        }
        false
    }

    /// Sets `key` to `value`. With no pair line of that key, appends one.
    /// Otherwise the first such line alone is considered: it is kept as it is
    /// when it holds `value` already, or when `value` is empty and its own
    /// value is not; else its value becomes `value`. The dirty flag is set
    /// where a line changed.
    pub fn add(&mut self, key: &str, value: &str) -> (r: Option<Change>)
        ensures
            adds(old(self)@, key@, value@, r, final(self)@),
    {
        let k = String::from_str(key);
        let ghost lines = old(self)@.lines;
        match self.find(&k) {
            Some(i) => {
                assert(lines[i as int] == self.lines@[i as int]@);
                let keep = match &self.lines[i] {
                    Line::Pair(p) => {
                        if p.value == String::from_str(value) {
                            return None;
                        }
                        if value.is_empty() && p.value.as_str().is_empty() {
                            assert(p.value@ =~= value@);
                        }
                        value.is_empty() && !p.value.as_str().is_empty()
                    },
                    _ => true,
                };
                if keep {
                    return Some(Change::AlreadyExists);
                }
                self.lines.set(i, Line::Pair(Pair::new(key, value)));
                self.modified = true;
                assert(self@.lines =~= lines.update(i as int, LineView::Pair { key: key@, value: value@ }));
                Some(Change::Updated)
            },
            None => {
                self.lines.push(Line::Pair(Pair::new(key, value)));
                self.modified = true;
                assert(self@.lines =~= lines.push(LineView::Pair { key: key@, value: value@ }));
                Some(Change::Added)
            },
        }
    }
    /// Removes every pair line with key `key`, and sets the dirty flag where
    /// one was removed; `Removed` tells how many.
    pub fn remove(&mut self, key: &str) -> (r: Option<Change>)
        ensures
            final(self)@.lines == without_key(old(self)@.lines, key@),
            final(self)@.path == old(self)@.path,
            has_key_in(old(self)@.lines, key@) ==> {
                &&& r == Some(Change::Removed((old(self)@.lines.len() - final(self)@.lines.len()) as usize))
                &&& final(self)@.lines.len() < old(self)@.lines.len()
                &&& final(self)@.modified
            },
            !has_key_in(old(self)@.lines, key@) ==> r is None && final(self)@ == old(self)@,
    {
        let k = String::from_str(key);
        let ghost lines = self@.lines;
        let mut kept: Vec<Line> = Vec::new();
        let mut found = false;
        let mut i: usize = 0;
        while i < self.lines.len()
            invariant
                lines == self@.lines,
                lines.len() == self.lines@.len(),
                k@ == key@,
                0 <= i <= lines.len(),
                kept@.len() <= i,
                kept@.map_values(|l: Line| l@) == without_key(lines.subrange(0, i as int), key@),
                found <==> exists|j: int| 0 <= j < i && is_pair_of(#[trigger] lines[j], key@),
                found ==> kept@.len() < i,
                !found ==> kept@.map_values(|l: Line| l@) == lines.subrange(0, i as int),
            decreases self.lines.len() - i,
        {
            let ghost prefix = lines.subrange(0, i as int);
            assert(lines.subrange(0, i + 1).drop_last() =~= prefix);
            assert(lines[i as int] == self.lines@[i as int]@);
            let matches = match &self.lines[i] {
                Line::Pair(p) => p.key == k,
                _ => false,
            };
            if matches {
                found = true;
            } else {
                kept.push(self.lines[i].copy());
                assert(kept@.map_values(|l: Line| l@) =~= without_key(prefix, key@).push(lines[i as int]));
                if !found {
                    assert(kept@.map_values(|l: Line| l@) =~= lines.subrange(0, i + 1));
                }
            }
            i = i + 1;
        }
        assert(lines.subrange(0, lines.len() as int) =~= lines);
        if !found {
            assert(!has_key_in(lines, key@));
            return None;
        }
        let removed = self.lines.len() - kept.len();
        self.lines = kept;
        self.modified = true;
        Some(Change::Removed(removed))
    }

    /// Rebuilds the document on the shape of `template`: its blank and
    /// comment lines as they are, and for each of its pair lines one with the
    /// same key and this document's value, or the empty value where this
    /// document lacks the key. Sets the dirty flag. Returns the keys that got
    /// the empty value for want of one, in template order.
    pub fn reorder_based_on(&mut self, template: &EnvFile) -> (r: Vec<String>)
        ensures
            final(self)@.lines == template@.lines.map_values(
                |l: LineView| reorder_line(l, old(self)@.lines),
            ),
            final(self)@.path == old(self)@.path,
            final(self)@.modified,
            r@.map_values(|k: String| k@) == missing_keys(template@.lines, old(self)@.lines),
    {
        let ghost lines = self@.lines;
        let ghost t = template@.lines;
        let mut new_lines: Vec<Line> = Vec::new();
        let mut missing: Vec<String> = Vec::new();
        let mut i: usize = 0;
        while i < template.lines.len()
            invariant
                lines == self@.lines,
                t == template@.lines,
                t.len() == template.lines@.len(),
                0 <= i <= t.len(),
                new_lines@.map_values(|l: Line| l@) == t.subrange(0, i as int).map_values(
                    |l: LineView| reorder_line(l, lines),
                ),
                missing@.map_values(|k: String| k@) == missing_keys(t.subrange(0, i as int), lines),
            decreases template.lines.len() - i,
        {
            let ghost prefix = t.subrange(0, i as int);
            assert(t.subrange(0, i + 1).drop_last() =~= prefix);
            assert(t[i as int] == template.lines@[i as int]@);
            let line = match &template.lines[i] {
                Line::Pair(p) => {
                    let value = match self.lookup(p.key.as_str()) {
                        Some(v) => String::from_str(v),
                        None => {
                            missing.push(p.key.clone());
                            String::new()
                        },
                    };
                    let l = Line::Pair(Pair { key: p.key.clone(), value });
                    assert(l@ == reorder_line(t[i as int], lines));
                    l
                },
                other => other.copy(),
            };
            assert(line@ == reorder_line(t[i as int], lines));
            let ghost before = new_lines@.map_values(|l: Line| l@);
            new_lines.push(line);
            assert(new_lines@.map_values(|l: Line| l@) =~= before.push(line@));
            assert(t.subrange(0, i + 1).map_values(|l: LineView| reorder_line(l, lines)) =~= prefix.map_values(
                |l: LineView| reorder_line(l, lines),
            ).push(reorder_line(t[i as int], lines)));
            assert(new_lines@.map_values(|l: Line| l@) =~= t.subrange(0, i + 1).map_values(
                |l: LineView| reorder_line(l, lines),
            ));
            assert(missing@.map_values(|k: String| k@) =~= missing_keys(t.subrange(0, i + 1), lines));
            i = i + 1;
        }
        assert(t.subrange(0, t.len() as int) =~= t);
        self.lines = new_lines;
        self.modified = true;
        missing
    }

    /// The text of the document: each line rendered (a pair as `key=value`),
    /// joined by newlines.
    pub fn render(&self) -> (r: String)
        ensures
            r@ == text_of(self@.lines),
    {
        let ghost ls = self@.lines.map_values(|l: LineView| render_line(l));
        let mut out = String::new();
        let mut i: usize = 0;
        while i < self.lines.len()
            invariant
                ls == self@.lines.map_values(|l: LineView| render_line(l)),
                ls.len() == self.lines@.len(),
                0 <= i <= ls.len(),
                out@ == join_lines(ls.subrange(0, i as int)),
            decreases self.lines.len() - i,
        {
            assert(ls.subrange(0, i + 1).drop_last() =~= ls.subrange(0, i as int));
            if i > 0 {
                push_char(&mut out, '\n');
            }
            push_line(&mut out, &self.lines[i]);
            assert(ls[i as int] == render_line(self.lines@[i as int]@));
            if i == 0 {
                assert(out@ =~= join_lines(ls.subrange(0, 1)));
            } else {
                assert(out@ =~= join_lines(ls.subrange(0, i + 1)));
            }
            i = i + 1;
        }
        assert(ls.subrange(0, ls.len() as int) =~= ls);
        out
    }

    /// The text that saving must write: the rendered document when the dirty
    /// flag is set, nothing when it is clear.
    pub fn save_if_modified(&self) -> (r: Option<String>)
        ensures
            self@.modified ==> (r matches Some(t) && t@ == text_of(self@.lines)),
            !self@.modified ==> r is None,
    {
        if self.modified {
            Some(self.render())
        } else {
            None
        }
    }

    /// A copy of the document's lines on path `path`, with the dirty flag set
    /// so that it gets saved.
    pub fn clone_to_path(&self, path: &str) -> (r: EnvFile)
        ensures
            r@.lines == self@.lines,
            r@.path == path@,
            r@.modified,
    {
        let mut lines: Vec<Line> = Vec::new();
        let mut i: usize = 0;
        while i < self.lines.len()
            invariant
                0 <= i <= self.lines@.len(),
                lines@.map_values(|l: Line| l@) == self@.lines.subrange(0, i as int),
            decreases self.lines.len() - i,
        {
            assert(self@.lines[i as int] == self.lines@[i as int]@);
            let ghost before = lines@.map_values(|l: Line| l@);
            lines.push(self.lines[i].copy());
            assert(lines@.map_values(|l: Line| l@) =~= before.push(self@.lines[i as int]));
            assert(lines@.map_values(|l: Line| l@) =~= self@.lines.subrange(0, i + 1));
            i = i + 1;
        }
        assert(self@.lines.subrange(0, self@.lines.len() as int) =~= self@.lines);
        EnvFile { lines, path: String::from_str(path), modified: true }
    }

    /// Whether the document was changed since it was parsed.
    pub fn is_modified(&self) -> (r: bool)
        ensures
            r == self@.modified,
    {
        self.modified
    }

    /// The number of lines.
    pub fn len(&self) -> (r: usize)
        ensures
            r == self@.lines.len(),
    {
        self.lines.len()
    }

    /// Line `i`.
    pub fn line(&self, i: usize) -> (r: &Line)
        requires
            i < self@.lines.len(),
        ensures
            r@ == self@.lines[i as int],
    {
        &self.lines[i]
    }

    /// The key-value pairs, in order, skipping blank and comment lines.
    pub fn iter(&self) -> (r: EnvIter<'_>)
        ensures
            r.remaining() == pairs_of(self@.lines),
    {
        assert(self@.lines.subrange(0, self@.lines.len() as int) =~= self@.lines);
        EnvIter { env: self, i: 0 }
    }
}

/// A walk over the key-value pairs of a document.
pub struct EnvIter<'a> {
    env: &'a EnvFile,
    i: usize,
}

impl<'a> EnvIter<'a> {
    /// The pairs that are still to come.
    pub closed spec fn remaining(&self) -> Seq<(Seq<char>, Seq<char>)> {
        let lines = self.env@.lines;
        if self.i <= lines.len() {
            pairs_of(lines.subrange(self.i as int, lines.len() as int))
        } else {
            Seq::empty()
        }
    }

    /// The next pair, or `None` when all have been seen.
    pub fn next(&mut self) -> (r: Option<(&'a str, &'a str)>)
        ensures
            match r {
                Some((k, v)) => {
                    &&& old(self).remaining().len() > 0
                    &&& (k@, v@) == old(self).remaining()[0]
                    &&& final(self).remaining() == old(self).remaining().drop_first()
                },
                None => old(self).remaining().len() == 0 && final(self).remaining().len() == 0,
            },
    {
        let env: &'a EnvFile = self.env;
        let ghost lines = env@.lines;
        let ghost n = lines.len() as int;
        let ghost start = old(self).remaining();
        if self.i > env.lines.len() {
            return None;
        }
        while self.i < env.lines.len()
            invariant
                self.env == env,
                lines == env@.lines,
                n == env.lines@.len(),
                self.i <= n,
                start == old(self).remaining(),
                start == pairs_of(lines.subrange(self.i as int, n)),
            decreases env.lines.len() - self.i,
        {
            let i = self.i;
            let ghost rest = lines.subrange(i as int, n);
            assert(rest[0] == env.lines@[i as int]@);
            assert(rest.drop_first() =~= lines.subrange(i + 1, n));
            self.i = i + 1;
            match &env.lines[i] {
                Line::Pair(p) => {
                    assert(start == seq![(p.key@, p.value@)] + pairs_of(lines.subrange(i + 1, n)));
                    assert(start.drop_first() =~= pairs_of(lines.subrange(i + 1, n)));
                    return Some((p.key.as_str(), p.value.as_str()));
                },
                _ => {},
            }
        }
        assert(lines.subrange(self.i as int, n) =~= Seq::<LineView>::empty());
        None
    }
}

} // verus!
