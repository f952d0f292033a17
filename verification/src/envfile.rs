//! The line-preserving document model of one environment file.
//!
//! A document is an ordered sequence of lines, each blank, a comment kept
//! verbatim, or a decoded `key=value` pair. Duplicate keys are permitted in
//! storage: lookup and in-place update address only the first occurrence,
//! while removal affects every occurrence. That asymmetry is deliberate and
//! part of the observable behaviour.

use vstd::prelude::*;

verus! {

use vstd::string::StrSliceExecFns;
use vstd::string::StringExecFns;
use crate::text::str_eq;
use crate::text::ws_char;
use crate::text::is_ws;
use crate::text::all_ws;
use crate::text::find_char;
use crate::text::find_in_str;
use crate::text::lemma_find_char;

/// One decoded `key=value` pair.
#[derive(Debug)]
pub struct Pair {
    pub key: String,
    pub value: String,
}

impl Clone for Pair {
    fn clone(&self) -> (r: Pair)
        ensures
            r == *self,
    {
        Pair { key: self.key.clone(), value: self.value.clone() }
    }
}

/// The mathematical value of a [`Pair`]: both fields as character sequences.
pub ghost struct PairV {
    pub key: Seq<char>,
    pub value: Seq<char>,
}

impl View for Pair {
    type V = PairV;

    open spec fn view(&self) -> PairV {
        PairV { key: self.key@, value: self.value@ }
    }
}

impl DeepView for Pair {
    type V = PairV;

    open spec fn deep_view(&self) -> PairV {
        self@
    }
}

/// One physical line of a document.
#[derive(Debug)]
pub enum Line {
    Blank,
    Pair(String, String),
    Comment(String),
}

impl Clone for Line {
    fn clone(&self) -> (r: Line)
        ensures
            r == *self,
    {
        match self {
            Line::Blank => Line::Blank,
            Line::Pair(k, v) => Line::Pair(k.clone(), v.clone()),
            Line::Comment(c) => Line::Comment(c.clone()),
        }
    }
}

/// The mathematical value of a [`Line`].
pub ghost enum LineV {
    Blank,
    Pair(Seq<char>, Seq<char>),
    Comment(Seq<char>),
}

impl View for Line {
    type V = LineV;

    open spec fn view(&self) -> LineV {
        match self {
            Line::Blank => LineV::Blank,
            Line::Pair(k, v) => LineV::Pair(k@, v@),
            Line::Comment(c) => LineV::Comment(c@),
        }
    }
}

impl DeepView for Line {
    type V = LineV;

    open spec fn deep_view(&self) -> LineV {
        self@
    }
}

/// `l` is a pair line whose key is `key`.
pub open spec fn is_pair_with_key(l: LineV, key: Seq<char>) -> bool {
    match l {
        LineV::Pair(k, _) => k == key,
        _ => false,
    }
}

/// `l` is a pair line whose key is `key` and whose value is non-empty.
pub open spec fn is_pair_with_nonempty_value(l: LineV, key: Seq<char>) -> bool {
    match l {
        LineV::Pair(k, v) => k == key && v.len() > 0,
        _ => false,
    }
}

/// The value carried by a pair line, or the empty sequence otherwise.
pub open spec fn line_value(l: LineV) -> Seq<char> {
    match l {
        LineV::Pair(_, v) => v,
        _ => Seq::empty(),
    }
}

/// Some pair line in `lines` has key `key` (with any value, including empty).
pub open spec fn spec_has_key(lines: Seq<LineV>, key: Seq<char>) -> bool {
    exists|i: int| 0 <= i < lines.len() && is_pair_with_key(#[trigger] lines[i], key)
}

/// Some pair line in `lines` has key `key` and a non-empty value.
pub open spec fn spec_has_value(lines: Seq<LineV>, key: Seq<char>) -> bool {
    exists|i: int| 0 <= i < lines.len() && is_pair_with_nonempty_value(#[trigger] lines[i], key)
}

/// Index of the first pair line with key `key`, or `lines.len()` when absent.
pub open spec fn first_key_idx(lines: Seq<LineV>, key: Seq<char>) -> int
    decreases lines.len(),
{
    if lines.len() == 0 {
        0
    } else if is_pair_with_key(lines[0], key) {
        0
    } else {
        1 + first_key_idx(lines.drop_first(), key)
    }
}

pub proof fn lemma_first_key_idx(lines: Seq<LineV>, key: Seq<char>)
    ensures
        0 <= first_key_idx(lines, key) <= lines.len(),
        first_key_idx(lines, key) < lines.len() ==> is_pair_with_key(
            lines[first_key_idx(lines, key)],
            key,
        ),
        forall|j: int| 0 <= j < first_key_idx(lines, key) ==> !is_pair_with_key(lines[j], key),
        spec_has_key(lines, key) <==> first_key_idx(lines, key) < lines.len(),
    decreases lines.len(),
{
    if lines.len() == 0 {
    } else if is_pair_with_key(lines[0], key) {
    } else {
        lemma_first_key_idx(lines.drop_first(), key);
        assert forall|j: int| 0 <= j < first_key_idx(lines, key) implies !is_pair_with_key(
            lines[j],
            key,
        ) by {
            if j > 0 {
                assert(lines.drop_first()[j - 1] == lines[j]);
            }
        }
        if spec_has_key(lines, key) {
            let w = choose|i: int|
                0 <= i < lines.len() && is_pair_with_key(#[trigger] lines[i], key);
            assert(w > 0);
            assert(lines.drop_first()[w - 1] == lines[w]);
            assert(spec_has_key(lines.drop_first(), key));
        }
        if first_key_idx(lines, key) < lines.len() {
            assert(is_pair_with_key(lines[first_key_idx(lines, key)], key));
        }
    }
}

pub proof fn lemma_first_key_idx_unique(lines: Seq<LineV>, key: Seq<char>, i: int)
    requires
        0 <= i <= lines.len(),
        forall|j: int| 0 <= j < i ==> !is_pair_with_key(lines[j], key),
        i < lines.len() ==> is_pair_with_key(lines[i], key),
    ensures
        first_key_idx(lines, key) == i,
{
    lemma_first_key_idx(lines, key);
    let f = first_key_idx(lines, key);
    if f < i {
        assert(is_pair_with_key(lines[f], key));
        assert(false);
    } else if i < f {
        assert(is_pair_with_key(lines[i], key));
        assert(false);
    }
}

/// Value of the first pair line with key `key`, if any.
pub open spec fn spec_lookup(lines: Seq<LineV>, key: Seq<char>) -> Option<Seq<char>> {
    if spec_has_key(lines, key) {
        Some(line_value(lines[first_key_idx(lines, key)]))
    } else {
        None
    }
}

/// The document after `add(key, value)`: the first pair line with this key is
/// overwritten in place, or a new pair line is appended when the key is absent.
pub open spec fn spec_add(lines: Seq<LineV>, key: Seq<char>, value: Seq<char>) -> Seq<LineV> {
    if spec_has_key(lines, key) {
        lines.update(first_key_idx(lines, key), LineV::Pair(key, value))
    } else {
        lines.push(LineV::Pair(key, value))
    }
}

/// The document after `remove(key)`: every pair line with this key is dropped.
pub open spec fn spec_remove(lines: Seq<LineV>, key: Seq<char>) -> Seq<LineV> {
    lines.filter(|l: LineV| !is_pair_with_key(l, key))
}

/// The physical lines of `s`: the segments between newline characters.
/// A text ending in a newline therefore yields a final empty segment.
pub open spec fn spec_split(s: Seq<char>) -> Seq<Seq<char>>
    decreases s.len(),
    via spec_split_decreases
{
    let f = find_char(s, '\n');
    if f == s.len() {
        seq![s]
    } else {
        seq![s.take(f)] + spec_split(s.skip(f + 1))
    }
}

#[via_fn]
proof fn spec_split_decreases(s: Seq<char>) {
    lemma_find_char(s, '\n');
}

/// A value wrapped in one matching pair of double quotes loses them.
pub open spec fn strip_quotes(v: Seq<char>) -> Seq<char> {
    if v.len() >= 2 && v[0] == '"' && v[v.len() - 1] == '"' {
        v.subrange(1, v.len() - 1)
    } else {
        v
    }
}

/// How one physical line reads: blank when empty or all whitespace, a
/// comment kept verbatim when it starts with `#`, otherwise a pair split on
/// the first `=` — the key verbatim, the value with one matching pair of
/// wrapping quotes unwrapped; `None` when a non-blank, non-comment line
/// holds no `=`.
pub open spec fn spec_classify(line: Seq<char>) -> Option<LineV> {
    if all_ws(line) {
        Some(LineV::Blank)
    } else if line[0] == '#' {
        Some(LineV::Comment(line))
    } else {
        let e = find_char(line, '=');
        if e == line.len() {
            None
        } else {
            Some(LineV::Pair(line.take(e), strip_quotes(line.skip(e + 1))))
        }
    }
}

/// The classification of one line, defaulting to blank; meaningful where
/// classification succeeds.
pub open spec fn classify_or_blank(l: Seq<char>) -> LineV {
    match spec_classify(l) {
        Some(v) => v,
        None => LineV::Blank,
    }
}

/// The classification of every line; meaningful where all of them succeed.
pub open spec fn classified_lines(ls: Seq<Seq<char>>) -> Seq<LineV> {
    ls.map_values(|l: Seq<char>| classify_or_blank(l))
}

/// Every physical line classifies successfully.
pub open spec fn all_lines_wf(ls: Seq<Seq<char>>) -> bool {
    forall|i: int| 0 <= i < ls.len() ==> #[trigger] spec_classify(ls[i]) is Some
}

/// The parsed document, or `None` when some line fails to classify.
pub open spec fn spec_parse(s: Seq<char>) -> Option<Seq<LineV>> {
    if all_lines_wf(spec_split(s)) {
        Some(classified_lines(spec_split(s)))
    } else {
        None
    }
}

/// An unparseable line: the document and zero-based line index at fault.
#[derive(Debug)]
pub struct FormatError {
    /// Source name of the offending document.
    pub path: String,
    /// Zero-based index of the first line that does not parse.
    pub line: usize,
}

/// What a call to [`EnvFile::add`] did.
#[derive(Clone, Copy, Debug, PartialEq, Eq, Structural)]
pub enum AddOutcome {
    /// The key was present with the identical value; nothing changed.
    Unchanged,
    /// The key was present with a different value, overwritten in place.
    Updated,
    /// The key was absent; a pair line was appended.
    Appended,
}

/// Classify one physical line, already split off from the text.
fn classify_line(line: &str) -> (r: Option<Line>)
    ensures
        r.deep_view() == spec_classify(line@),
{
    let n: usize = line.unicode_len();
    let mut a: usize = 0;
    while a < n && ws_char(line.get_char(a))
        invariant
            0 <= a <= n,
            n == line@.len(),
            forall|j: int| 0 <= j < a ==> is_ws(#[trigger] line@[j]),
        decreases n - a,
    {
        a = a + 1;
    }
    if a == n {
        return Some(Line::Blank);
    }
    proof {
        assert(!is_ws(line@[a as int]));
        assert(!all_ws(line@));
    }
    if line.get_char(0) == '#' {
        return Some(Line::Comment(String::from_str(line)));
    }
    let e = find_in_str(line, '=');
    proof {
        lemma_find_char(line@, '=');
    }
    if e == n {
        return None;
    }
    let key = line.substring_char(0, e);
    let raw = line.substring_char(e + 1, n);
    let rn: usize = n - (e + 1);
    proof {
        assert(raw@ =~= line@.skip(e as int + 1));
        assert(rn == raw@.len());
    }
    let value: &str = if rn >= 2 && raw.get_char(0) == '"' && raw.get_char(rn - 1) == '"' {
        raw.substring_char(1, rn - 1)
    } else {
        raw
    };
    proof {
        assert(key@ =~= line@.take(e as int));
        assert(value@ =~= strip_quotes(line@.skip(e as int + 1)));
    }
    Some(Line::Pair(String::from_str(key), String::from_str(value)))
}

/// One line as it is written out: nothing for a blank, the stored text of a
/// comment, `key=value` for a pair. Values are always written unquoted.
pub open spec fn render_line(l: LineV) -> Seq<char> {
    match l {
        LineV::Blank => Seq::empty(),
        LineV::Comment(c) => c,
        LineV::Pair(k, v) => k + seq!['='] + v,
    }
}

/// The serialized document: rendered lines joined by `'\n'`.
pub open spec fn spec_serialize(lines: Seq<LineV>) -> Seq<char>
    decreases lines.len(),
{
    if lines.len() == 0 {
        Seq::empty()
    } else if lines.len() == 1 {
        render_line(lines[0])
    } else {
        render_line(lines[0]) + seq!['\n'] + spec_serialize(lines.drop_first())
    }
}

/// Serialization grows from the right one rendered line at a time.
pub proof fn lemma_serialize_push(lines: Seq<LineV>, l: LineV)
    ensures
        lines.len() == 0 ==> spec_serialize(lines.push(l)) == render_line(l),
        lines.len() > 0 ==> spec_serialize(lines.push(l)) == spec_serialize(lines) + seq!['\n']
            + render_line(l),
    decreases lines.len(),
{
    if lines.len() == 0 {
        assert(lines.push(l)[0] == l);
    } else if lines.len() == 1 {
        assert(lines.push(l).drop_first() =~= seq![l]);
        assert(lines.push(l)[0] == lines[0]);
        assert(spec_serialize(seq![l]) == render_line(seq![l][0]));
        assert(seq![l][0] == l);
    } else {
        lemma_serialize_push(lines.drop_first(), l);
        assert(lines.push(l).drop_first() =~= lines.drop_first().push(l));
        assert(lines.push(l)[0] == lines[0]);
        assert(render_line(lines[0]) + seq!['\n'] + (spec_serialize(lines.drop_first())
            + seq!['\n'] + render_line(l)) =~= (render_line(lines[0]) + seq!['\n']
            + spec_serialize(lines.drop_first())) + seq!['\n'] + render_line(l));
    }
}

/// An in-memory, line-structure-preserving model of one environment file.
#[derive(Debug)]
pub struct EnvFile {
    /// The ordered lines of the document.
    pub lines: Vec<Line>,
    /// Where the document came from; used only for diagnostics.
    pub path: String,
    /// Whether the document holds in-memory mutations not yet persisted.
    pub modified: bool,
}

impl View for EnvFile {
    type V = Seq<LineV>;

    open spec fn view(&self) -> Seq<LineV> {
        self.lines.deep_view()
    }
}

impl EnvFile {
    /// An empty document for the given source name.
    pub fn empty(path: &str) -> (r: EnvFile)
        ensures
            r@ =~= Seq::<LineV>::empty(),
            r.path@ == path@,
            !r.modified,
    {
        EnvFile { lines: Vec::new(), path: String::from_str(path), modified: false }
    }

    /// Split `text` on newlines and classify each line. Fails with a
    /// [`FormatError`] naming the first offending line when a non-blank,
    /// non-comment line holds no `=`. A freshly parsed document is not
    /// marked modified.
    pub fn parse(text: &str, path: &str) -> (r: Result<EnvFile, FormatError>)
        ensures
            match r {
                Ok(e) => {
                    &&& spec_parse(text@) == Some(e@)
                    &&& e.path@ == path@
                    &&& !e.modified
                },
                Err(err) => {
                    &&& spec_parse(text@) is None
                    &&& err.path@ == path@
                    &&& err.line < spec_split(text@).len()
                    &&& spec_classify(spec_split(text@)[err.line as int]) is None
                    &&& forall|j: int|
                        0 <= j < err.line ==> #[trigger] spec_classify(
                            spec_split(text@)[j],
                        ) is Some
                },
            },
    {
        let mut rest: &str = text;
        let mut out: Vec<Line> = Vec::new();
        let mut more: bool = true;
        let ghost mut consumed: Seq<Seq<char>> = Seq::empty();
        proof {
            assert(Seq::<Seq<char>>::empty() + spec_split(text@) =~= spec_split(text@));
        }
        while more
            invariant
                out.deep_view() == classified_lines(consumed),
                out.len() == consumed.len(),
                forall|j: int| 0 <= j < consumed.len() ==> #[trigger] spec_classify(
                    consumed[j],
                ) is Some,
                more ==> spec_split(text@) == consumed + spec_split(rest@),
                !more ==> spec_split(text@) == consumed,
            decreases rest@.len() + (if more {
                1int
            } else {
                0int
            }),
        {
            let n_rest: usize = rest.unicode_len();
            let f = find_in_str(rest, '\n');
            proof {
                lemma_find_char(rest@, '\n');
            }
            let line: &str = if f == n_rest {
                rest
            } else {
                rest.substring_char(0, f)
            };
            proof {
                if f != n_rest {
                    assert(line@ =~= rest@.take(f as int));
                }
            }
            let parsed = classify_line(line);
            match parsed {
                Some(l) => {
                    proof {
                        assert(spec_classify(line@) == Some(l.deep_view()));
                    }
                    let ghost pre_out = out.deep_view();
                    let ghost pre_consumed = consumed;
                    out.push(l);
                    proof {
                        consumed = consumed.push(line@);
                        assert(out.deep_view() =~= pre_out.push(l.deep_view()));
                        assert(classified_lines(consumed) =~= classified_lines(
                            pre_consumed,
                        ).push(l.deep_view()));
                        assert(out.deep_view() =~= classified_lines(consumed));
                    }
                },
                None => {
                    proof {
                        assert(spec_split(rest@)[0] == line@);
                        assert(spec_split(text@)[consumed.len() as int] == line@);
                        assert(!all_lines_wf(spec_split(text@)));
                        assert forall|j: int| 0 <= j < consumed.len() implies #[trigger] spec_classify(
                            spec_split(text@)[j],
                        ) is Some by {
                            assert(spec_split(text@)[j] == consumed[j]);
                        }
                    }
                    return Err(
                        FormatError { path: String::from_str(path), line: out.len() },
                    );
                },
            }
            if f == n_rest {
                more = false;
                proof {
                    assert(spec_split(rest@) =~= seq![rest@]);
                    assert(consumed =~= consumed.drop_last().push(rest@));
                    assert(spec_split(text@) =~= consumed.drop_last() + seq![rest@]);
                    assert(spec_split(text@) =~= consumed);
                }
            } else {
                let next_rest = rest.substring_char(f + 1, n_rest);
                proof {
                    assert(next_rest@ =~= rest@.skip(f as int + 1));
                    assert(spec_split(rest@) =~= seq![line@] + spec_split(next_rest@));
                    assert(consumed.drop_last() + (seq![line@] + spec_split(next_rest@)) =~= (
                    consumed.drop_last().push(line@)) + spec_split(next_rest@));
                    assert(spec_split(text@) =~= consumed + spec_split(next_rest@));
                }
                rest = next_rest;
            }
        }
        proof {
            assert forall|i: int| 0 <= i < spec_split(text@).len() implies #[trigger] spec_classify(
                spec_split(text@)[i],
            ) is Some by {
                assert(spec_split(text@)[i] == consumed[i]);
            }
            assert(out.deep_view() =~= classified_lines(spec_split(text@)));
        }
        Ok(EnvFile { lines: out, path: String::from_str(path), modified: false })
    }

    /// The document as text: rendered lines joined by `'\n'`. Blank lines
    /// render empty, comments verbatim, pairs as `key=value` (unquoted).
    pub fn serialize(&self) -> (r: String)
        ensures
            r@ == spec_serialize(self@),
    {
        let n: usize = self.lines.len();
        let mut out = String::new();
        let mut i: usize = 0;
        proof {
            assert(self@.take(0) =~= Seq::<LineV>::empty());
        }
        while i < n
            invariant
                0 <= i <= n,
                n == self.lines.len(),
                self@.len() == n,
                out@ == spec_serialize(self@.take(i as int)),
            decreases n - i,
        {
            if i > 0 {
                out.append("\n");
            }
            match &self.lines[i] {
                Line::Blank => {},
                Line::Comment(c) => out.append(c.as_str()),
                Line::Pair(k, v) => {
                    out.append(k.as_str());
                    out.append("=");
                    out.append(v.as_str());
                },
            }
            proof {
                reveal_strlit("\n");
                reveal_strlit("=");
                assert("\n"@ =~= seq!['\n']);
                assert("="@ =~= seq!['=']);
                lemma_serialize_push(self@.take(i as int), self@[i as int]);
                assert(self@.take(i as int).push(self@[i as int]) =~= self@.take(i as int + 1));
                assert(out@ =~= spec_serialize(self@.take(i as int + 1)));
            }
            i = i + 1;
        }
        proof {
            assert(self@.take(n as int) =~= self@);
        }
        out
    }

    /// True when some pair line has this key, with any value, even empty.
    pub fn has_key(&self, key: &str) -> (r: bool)
        ensures
            r == spec_has_key(self@, key@),
    {
        let n: usize = self.lines.len();
        let mut i: usize = 0;
        while i < n
            invariant
                0 <= i <= n,
                n == self.lines.len(),
                self@.len() == n,
                forall|j: int| 0 <= j < i ==> !is_pair_with_key(#[trigger] self@[j], key@),
            decreases n - i,
        {
            match &self.lines[i] {
                Line::Pair(k, _) => {
                    if str_eq(k.as_str(), key) {
                        assert(is_pair_with_key(self@[i as int], key@));
                        return true;
                    }
                },
                _ => {},
            }
            i = i + 1;
        }
        false
    }

    /// True when some pair line has this key with a non-empty value.
    pub fn has_value(&self, key: &str) -> (r: bool)
        ensures
            r == spec_has_value(self@, key@),
    {
        let n: usize = self.lines.len();
        let mut i: usize = 0;
        while i < n
            invariant
                0 <= i <= n,
                n == self.lines.len(),
                self@.len() == n,
                forall|j: int|
                    0 <= j < i ==> !is_pair_with_nonempty_value(#[trigger] self@[j], key@),
            decreases n - i,
        {
            match &self.lines[i] {
                Line::Pair(k, v) => {
                    if str_eq(k.as_str(), key) && v.as_str().unicode_len() > 0 {
                        assert(is_pair_with_nonempty_value(self@[i as int], key@));
                        return true;
                    }
                },
                _ => {},
            }
            i = i + 1;
        }
        false
    }

    /// The value of the first pair line with this key, if any.
    pub fn lookup(&self, key: &str) -> (r: Option<String>)
        ensures
            r.deep_view() == spec_lookup(self@, key@),
    {
        let n: usize = self.lines.len();
        let mut i: usize = 0;
        while i < n
            invariant
                0 <= i <= n,
                n == self.lines.len(),
                self@.len() == n,
                forall|j: int| 0 <= j < i ==> !is_pair_with_key(#[trigger] self@[j], key@),
            decreases n - i,
        {
            match &self.lines[i] {
                Line::Pair(k, v) => {
                    if str_eq(k.as_str(), key) {
                        proof {
                            lemma_first_key_idx_unique(self@, key@, i as int);
                            assert(is_pair_with_key(self@[i as int], key@));
                        }
                        return Some(v.clone());
                    }
                },
                _ => {},
            }
            i = i + 1;
        }
        proof {
            lemma_first_key_idx(self@, key@);
        }
        None
    }

    /// Scan for the first pair line with this key: overwrite its value in
    /// place when it differs, do nothing when it is identical, append a new
    /// pair line when the key is absent. The document is marked modified
    /// exactly when something changed.
    pub fn add(&mut self, key: &str, value: &str) -> (r: AddOutcome)
        ensures
            final(self)@ == spec_add(old(self)@, key@, value@),
            final(self).path == old(self).path,
            r is Unchanged <==> spec_lookup(old(self)@, key@) == Some(value@),
            r is Updated <==> spec_has_key(old(self)@, key@) && spec_lookup(old(self)@, key@)
                != Some(value@),
            r is Appended <==> !spec_has_key(old(self)@, key@),
            final(self).modified == (old(self).modified || !(r is Unchanged)),
    {
        let n: usize = self.lines.len();
        let mut i: usize = 0;
        while i < n
            invariant
                0 <= i <= n,
                n == self.lines.len(),
                self == old(self),
                self@.len() == n,
                forall|j: int| 0 <= j < i ==> !is_pair_with_key(#[trigger] self@[j], key@),
            decreases n - i,
        {
            let is_match: bool = match &self.lines[i] {
                Line::Pair(k, _) => str_eq(k.as_str(), key),
                _ => false,
            };
            if is_match {
                proof {
                    lemma_first_key_idx_unique(self@, key@, i as int);
                    assert(is_pair_with_key(self@[i as int], key@));
                }
                let same: bool = match &self.lines[i] {
                    Line::Pair(_, v) => str_eq(v.as_str(), value),
                    _ => false,
                };
                if same {
                    proof {
                        assert(self@[i as int] == LineV::Pair(key@, value@));
                        assert(spec_add(self@, key@, value@) =~= self@);
                    }
                    return AddOutcome::Unchanged;
                }
                self.lines[i] = Line::Pair(String::from_str(key), String::from_str(value));
                self.modified = true;
                proof {
                    assert(self@ =~= spec_add(old(self)@, key@, value@));
                }
                return AddOutcome::Updated;
            }
            i = i + 1;
        }
        proof {
            lemma_first_key_idx(self@, key@);
        }
        self.lines.push(Line::Pair(String::from_str(key), String::from_str(value)));
        self.modified = true;
        proof {
            assert(self@ =~= spec_add(old(self)@, key@, value@));
        }
        AddOutcome::Appended
    }

    /// Delete every pair line with this key, keeping all other lines in
    /// order. The document is marked modified exactly when a line was
    /// removed. Unlike lookup, removal is over all occurrences.
    pub fn remove(&mut self, key: &str) -> (removed: bool)
        ensures
            final(self)@ == spec_remove(old(self)@, key@),
            final(self).path == old(self).path,
            removed == spec_has_key(old(self)@, key@),
            final(self).modified == (old(self).modified || removed),
    {
        let n: usize = self.lines.len();
        let mut kept: Vec<Line> = Vec::new();
        let mut removed: bool = false;
        let mut i: usize = 0;
        proof {
            reveal(Seq::filter);
            assert(old(self)@.take(0) =~= Seq::<LineV>::empty());
        }
        while i < n
            invariant
                0 <= i <= n,
                n == self.lines.len(),
                self == old(self),
                self@.len() == n,
                kept.deep_view() == spec_remove(self@.take(i as int), key@),
                removed == exists|j: int|
                    0 <= j < i && is_pair_with_key(#[trigger] self@[j], key@),
            decreases n - i,
        {
            let keep: bool = match &self.lines[i] {
                Line::Pair(k, _) => !str_eq(k.as_str(), key),
                _ => true,
            };
            proof {
                reveal(Seq::filter);
                assert(self@.take(i as int + 1).drop_last() =~= self@.take(i as int));
                assert(self@.take(i as int + 1).last() == self@[i as int]);
            }
            if keep {
                kept.push(self.lines[i].clone());
                proof {
                    assert(kept.deep_view() =~= spec_remove(self@.take(i as int + 1), key@));
                }
            } else {
                removed = true;
                proof {
                    assert(kept.deep_view() =~= spec_remove(self@.take(i as int + 1), key@));
                }
            }
            i = i + 1;
        }
        proof {
            assert(self@.take(n as int) =~= self@);
        }
        self.lines = kept;
        if removed {
            self.modified = true;
        }
        removed
    }

    /// Replace this document's lines by a sequence that exactly mirrors the
    /// reference's structure: blanks and comments are copied verbatim, and
    /// each pair keeps this document's value for its key when one exists,
    /// else takes an empty value. Lines of this document whose key the
    /// reference lacks are dropped. The document is marked modified.
    pub fn use_ordering_from(&mut self, reference: &EnvFile)
        ensures
            final(self)@ == spec_reorder(old(self)@, reference@),
            final(self).path == old(self).path,
            final(self).modified,
    {
        let n: usize = reference.lines.len();
        let mut fresh: Vec<Line> = Vec::new();
        let mut i: usize = 0;
        while i < n
            invariant
                0 <= i <= n,
                n == reference.lines.len(),
                reference@.len() == n,
                self == old(self),
                fresh.deep_view() == spec_reorder(self@, reference@.take(i as int)),
            decreases n - i,
        {
            let ghost pre = fresh.deep_view();
            match &reference.lines[i] {
                Line::Blank => fresh.push(Line::Blank),
                Line::Comment(c) => fresh.push(Line::Comment(c.clone())),
                Line::Pair(k, _) => {
                    match self.lookup(k.as_str()) {
                        Some(v) => fresh.push(Line::Pair(k.clone(), v)),
                        None => fresh.push(Line::Pair(k.clone(), String::new())),
                    }
                },
            }
            proof {
                assert(fresh.deep_view() =~= pre.push(fresh@[fresh@.len() - 1].deep_view()));
                assert(fresh.deep_view() =~= spec_reorder(self@, reference@.take(i as int + 1)));
            }
            i = i + 1;
        }
        proof {
            assert(reference@.take(n as int) =~= reference@);
        }
        self.lines = fresh;
        self.modified = true;
    }

    /// The key/value pairs of the document, in line order, comments and
    /// blanks skipped, duplicates included.
    pub fn pairs(&self) -> (r: Vec<Pair>)
        ensures
            r.deep_view() == spec_pairs(self@),
    {
        let n: usize = self.lines.len();
        let mut out: Vec<Pair> = Vec::new();
        let mut i: usize = 0;
        while i < n
            invariant
                0 <= i <= n,
                n == self.lines.len(),
                self@.len() == n,
                out.deep_view() == spec_pairs(self@.take(i as int)),
            decreases n - i,
        {
            let ghost pre = out.deep_view();
            proof {
                assert(self@.take(i as int + 1).drop_last() =~= self@.take(i as int));
                assert(self@.take(i as int + 1).last() == self@[i as int]);
            }
            match &self.lines[i] {
                Line::Pair(k, v) => {
                    out.push(Pair { key: k.clone(), value: v.clone() });
                    proof {
                        assert(out.deep_view() =~= spec_pairs(self@.take(i as int + 1)));
                    }
                },
                _ => {
                    proof {
                        assert(out.deep_view() =~= spec_pairs(self@.take(i as int + 1)));
                    }
                },
            }
            i = i + 1;
        }
        proof {
            assert(self@.take(n as int) =~= self@);
        }
        out
    }

    /// A cursor over the document's pair lines, starting at the top.
    pub fn iter<'a>(&'a self) -> (r: EnvIter<'a>)
        ensures
            r.env == self,
            r.i == 0,
    {
        EnvIter { env: self, i: 0 }
    }
}

/// `l` is a pair line, whatever its key and value.
pub open spec fn is_pair_line(l: LineV) -> bool {
    match l {
        LineV::Pair(_, _) => true,
        _ => false,
    }
}

/// Least index `>= from` of a pair line, or `lines.len()` when none remains.
pub open spec fn first_pair_from(lines: Seq<LineV>, from: int) -> int
    decreases lines.len() - from,
{
    if from < 0 || from >= lines.len() {
        lines.len() as int
    } else if is_pair_line(lines[from]) {
        from
    } else {
        first_pair_from(lines, from + 1)
    }
}

pub proof fn lemma_first_pair_from_unique(lines: Seq<LineV>, from: int, j: int)
    requires
        0 <= from <= j <= lines.len(),
        forall|t: int| from <= t < j ==> !is_pair_line(lines[t]),
        j < lines.len() ==> is_pair_line(lines[j]),
    ensures
        first_pair_from(lines, from) == j,
    decreases j - from,
{
    if from < j {
        lemma_first_pair_from_unique(lines, from + 1, j);
    }
}

/// The document after reordering against `reference` (see
/// [`EnvFile::use_ordering_from`]).
pub open spec fn spec_reorder(dest: Seq<LineV>, reference: Seq<LineV>) -> Seq<LineV> {
    reference.map_values(
        |l: LineV|
            match l {
                LineV::Blank => LineV::Blank,
                LineV::Comment(c) => LineV::Comment(c),
                LineV::Pair(k, _) => LineV::Pair(
                    k,
                    match spec_lookup(dest, k) {
                        Some(v) => v,
                        None => Seq::empty(),
                    },
                ),
            },
    )
}

/// The key/value pairs of a document, in line order, duplicates included.
pub open spec fn spec_pairs(lines: Seq<LineV>) -> Seq<PairV>
    decreases lines.len(),
{
    if lines.len() == 0 {
        Seq::empty()
    } else {
        let prev = spec_pairs(lines.drop_last());
        match lines.last() {
            LineV::Pair(k, v) => prev.push(PairV { key: k, value: v }),
            _ => prev,
        }
    }
}

/// A physical line that the writer itself would produce: empty, or not
/// whitespace-only and either a comment or a pair line whose written value
/// would not lose a wrapping quote pair on a second read.
pub open spec fn canonical_line(line: Seq<char>) -> bool {
    if all_ws(line) {
        line.len() == 0
    } else if line[0] == '#' {
        true
    } else {
        let e = find_char(line, '=');
        &&& e < line.len()
        &&& strip_quotes(line.skip(e + 1)) == line.skip(e + 1)
    }
}

/// A canonical line classifies successfully and is rendered back verbatim.
pub proof fn lemma_classify_canonical(line: Seq<char>)
    requires
        canonical_line(line),
    ensures
        spec_classify(line) is Some,
        render_line(classify_or_blank(line)) == line,
{
    if all_ws(line) {
        assert(render_line(classify_or_blank(line)) =~= line);
    } else if line[0] == '#' {
    } else {
        let e = find_char(line, '=');
        lemma_find_char(line, '=');
        assert(line[e] == '=');
        assert(line.take(e) + seq!['='] + line.skip(e + 1) =~= line);
    }
}

/// Round trip: parsing reproduces any text all of whose physical lines are
/// canonical, and serializing the parsed document gives back the text.
pub proof fn lemma_round_trip(text: Seq<char>)
    requires
        forall|i: int|
            0 <= i < spec_split(text).len() ==> canonical_line(#[trigger] spec_split(text)[i]),
    ensures
        spec_parse(text) == Some(classified_lines(spec_split(text))),
        spec_serialize(classified_lines(spec_split(text))) == text,
    decreases text.len(),
{
    lemma_find_char(text, '\n');
    let f = find_char(text, '\n');
    if f == text.len() {
        assert(spec_split(text) =~= seq![text]);
        assert(spec_split(text)[0] == text);
        lemma_classify_canonical(text);
        assert(classified_lines(spec_split(text)) =~= seq![classify_or_blank(text)]);
        assert(spec_serialize(seq![classify_or_blank(text)]) == render_line(
            classify_or_blank(text),
        ));
        assert(all_lines_wf(spec_split(text)));
    } else {
        let head = text.take(f);
        let tail = text.skip(f + 1);
        assert(spec_split(text) == seq![head] + spec_split(tail));
        assert(spec_split(text)[0] == head);
        assert forall|i: int| 0 <= i < spec_split(tail).len() implies canonical_line(
            #[trigger] spec_split(tail)[i],
        ) by {
            assert(spec_split(text)[i + 1] == spec_split(tail)[i]);
        }
        lemma_round_trip(tail);
        lemma_classify_canonical(head);
        let cl = classified_lines(spec_split(text));
        let cl_tail = classified_lines(spec_split(tail));
        assert(cl =~= seq![classify_or_blank(head)] + cl_tail);
        assert(cl.len() >= 2);
        assert(cl[0] == classify_or_blank(head));
        assert(cl.drop_first() =~= cl_tail);
        assert(spec_serialize(cl) == render_line(classify_or_blank(head)) + seq!['\n']
            + spec_serialize(cl_tail));
        assert(head + seq!['\n'] + tail =~= text);
        assert(all_lines_wf(spec_split(text)));
    }
}

/// Idempotent add: after `add(key, value)`, the first pair line with this
/// key holds exactly this value, so a second identical add changes nothing
/// and reports no change (raising the dirty flag only the first time).
pub proof fn lemma_add_idempotent(lines: Seq<LineV>, key: Seq<char>, value: Seq<char>)
    ensures
        spec_lookup(spec_add(lines, key, value), key) == Some(value),
        spec_add(spec_add(lines, key, value), key, value) == spec_add(lines, key, value),
{
    lemma_first_key_idx(lines, key);
    let l1 = spec_add(lines, key, value);
    if spec_has_key(lines, key) {
        let f = first_key_idx(lines, key);
        assert(is_pair_with_key(l1[f], key));
        assert(spec_has_key(l1, key));
        lemma_first_key_idx_unique(l1, key, f);
        assert(l1.update(f, LineV::Pair(key, value)) =~= l1);
    } else {
        let f = lines.len() as int;
        assert(l1[f] == LineV::Pair(key, value));
        assert(is_pair_with_key(l1[f], key));
        assert(spec_has_key(l1, key));
        lemma_first_key_idx_unique(l1, key, f);
        assert(l1.update(f, LineV::Pair(key, value)) =~= l1);
    }
}

/// Reorder fidelity: the reordered document mirrors the reference's
/// blank/comment/pair structure position by position, and each pair keeps
/// the destination's value for its key when one existed, else is empty.
pub proof fn lemma_reorder_fidelity(dest: Seq<LineV>, reference: Seq<LineV>)
    ensures
        spec_reorder(dest, reference).len() == reference.len(),
        forall|i: int|
            0 <= i < reference.len() ==> match #[trigger] reference[i] {
                LineV::Blank => spec_reorder(dest, reference)[i] == LineV::Blank,
                LineV::Comment(c) => spec_reorder(dest, reference)[i] == LineV::Comment(c),
                LineV::Pair(k, _) => spec_reorder(dest, reference)[i] == LineV::Pair(
                    k,
                    match spec_lookup(dest, k) {
                        Some(v) => v,
                        None => Seq::empty(),
                    },
                ),
            },
{
}

/// A cursor yielding the pair lines of a document one at a time.
pub struct EnvIter<'a> {
    /// The document walked over.
    pub env: &'a EnvFile,
    /// Index of the next line to look at.
    pub i: usize,
}

impl<'a> EnvIter<'a> {
    /// The next pair line at or after the cursor, advancing past it; `None`
    /// once no pair line remains, with the cursor parked at the end.
    pub fn next(&mut self) -> (r: Option<Pair>)
        requires
            old(self).i <= old(self).env@.len(),
        ensures
            final(self).env == old(self).env,
            final(self).i <= final(self).env@.len(),
            ({
                let lines = old(self).env@;
                let d = first_pair_from(lines, old(self).i as int);
                if d < lines.len() {
                    &&& r matches Some(p) && lines[d] == LineV::Pair(p.key@, p.value@)
                    &&& final(self).i == d + 1
                } else {
                    &&& r is None
                    &&& final(self).i == lines.len()
                }
            }),
    {
        let env_ref: &EnvFile = self.env;
        let n: usize = env_ref.lines.len();
        let mut i: usize = self.i;
        while i < n
            invariant
                old(self).i <= i <= n,
                self == old(self),
                env_ref == old(self).env,
                n == env_ref.lines.len(),
                env_ref@.len() == n,
                forall|t: int| old(self).i <= t < i ==> !is_pair_line(#[trigger] env_ref@[t]),
            decreases n - i,
        {
            match &env_ref.lines[i] {
                Line::Pair(k, v) => {
                    proof {
                        lemma_first_pair_from_unique(env_ref@, old(self).i as int, i as int);
                    }
                    self.i = i + 1;
                    return Some(Pair { key: k.clone(), value: v.clone() });
                },
                _ => {},
            }
            i = i + 1;
        }
        proof {
            lemma_first_pair_from_unique(env_ref@, old(self).i as int, n as int);
        }
        self.i = n;
        None
    }
}

} // verus!
