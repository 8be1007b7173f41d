use crate::text::{count_char, count_occurrences, lemma_count_char_concat, split_on, split_pieces};
use std::collections::BTreeMap;
use std::ops::Range;
use vstd::prelude::*;

verus! {

broadcast use vstd::std_specs::btree::group_btree_axioms;

/// Identifies a piece of user code inside generated shader code, so that compiler errors
/// can be traced back to it.
#[derive(Clone, Copy, Debug, PartialEq, Eq, Structural, Hash)]
pub struct ErrId(pub usize);

/// A half-open range of lines `start..end`, as a pair.
pub open spec fn covers(r: (usize, usize), line: usize) -> bool {
    r.0 <= line && line < r.1
}

/// Whether `r` is where line `line` comes from according to the line ranges `m`: the
/// smallest identifier whose range holds the line, with the position of the line in that
/// range counted from one, or `None` when no range holds it.
pub open spec fn locates(m: Map<usize, (usize, usize)>, line: usize, r: Option<(usize, usize)>) -> bool {
    match r {
        Some((id, local)) => {
            &&& m.contains_key(id)
            &&& covers(m[id], line)
            &&& local == line - m[id].0 + 1
            &&& forall|k: usize| #[trigger] m.contains_key(k) && k < id ==> !covers(m[k], line)
        },
        None => forall|k: usize| #[trigger] m.contains_key(k) ==> !covers(m[k], line),
    }
}

/// The line ranges of the entries of a map, as pairs.
pub open spec fn range_pairs(m: Map<usize, Range<usize>>) -> Map<usize, (usize, usize)> {
    m.map_values(|r: Range<usize>| (r.start, r.end))
}

/// The line ranges that pieces of user code occupy in generated code, by identifier.
#[derive(Debug, PartialEq, Eq)]
pub struct LineNumbersByKey {
    entries: BTreeMap<usize, Range<usize>>,
}

impl LineNumbersByKey {
    /// Finitely many identifiers have a line range.
    pub closed spec fn wf(&self) -> bool {
        self.entries@.dom().finite()
    }

    /// The line range of each identifier.
    pub closed spec fn map(&self) -> Map<usize, (usize, usize)> {
        range_pairs(self.entries@)
    }

    /// No line ranges.
    pub fn new() -> (result: Self)
        ensures
            result.wf(),
            result.map() == Map::<usize, (usize, usize)>::empty(),
    {
        let result = LineNumbersByKey { entries: BTreeMap::new() };
        assert(result.map() =~= Map::<usize, (usize, usize)>::empty());
        result
    }

    /// Records the line range of `identifier`, which must not have one yet.
    pub fn add(&mut self, identifier: ErrId, lines: Range<usize>)
        requires
            old(self).wf(),
            !old(self).map().contains_key(identifier.0),
        ensures
            final(self).wf(),
            final(self).map() == old(self).map().insert(identifier.0, (lines.start, lines.end)),
    {
        let ghost pair = (lines.start, lines.end);
        self.entries.insert(identifier.0, lines);
        assert(self.map() =~= old(self).map().insert(identifier.0, pair));
    }
}

/// The line ranges of `m`, each moved `d` lines down.
pub open spec fn shifted(m: Map<usize, (usize, usize)>, d: int) -> Map<usize, (usize, usize)> {
    Map::new(|k: usize| m.contains_key(k), |k: usize| ((m[k].0 + d) as usize, (m[k].1 + d) as usize))
}

/// Whether every line range of `m` stays below `usize::MAX` when moved `d` lines down.
pub open spec fn shift_fits(m: Map<usize, (usize, usize)>, d: int) -> bool {
    forall|k: usize| #[trigger] m.contains_key(k) ==> m[k].0 + d <= usize::MAX && m[k].1 + d <= usize::MAX
}

impl LineNumbersByKey {
    /// Moves every line range `lines` lines down.
    pub fn offset(&mut self, lines: usize)
        requires
            old(self).wf(),
            shift_fits(old(self).map(), lines as int),
        ensures
            final(self).wf(),
            final(self).map() == shifted(old(self).map(), lines as int),
    {
        let ghost m = self.entries@;
        let mut moved: BTreeMap<usize, Range<usize>> = BTreeMap::new();
        for kv in it: self.entries.iter()
            invariant
                self.entries@ == m,
                shift_fits(range_pairs(m), lines as int),
                it.seq().len() == m.dom().len(),
                forall|i: int| 0 <= i < it.seq().len() ==> m.contains_key(*(#[trigger] it.seq()[i]).0) && m[*it.seq()[i].0] == *it.seq()[i].1,
                forall|k: usize| #[trigger] m.contains_key(k) ==> it.seq().contains((&k, &m[k])),
                forall|k: usize| #[trigger] m.contains_key(k) ==> exists|i: int| 0 <= i < it.seq().len() && *(#[trigger] it.seq()[i]).0 == k,
                forall|k: usize| #[trigger] moved@.contains_key(k) <==> exists|i: int| 0 <= i < it.index() && *(#[trigger] it.seq()[i]).0 == k,
                forall|k: usize| #[trigger] moved@.contains_key(k) ==> m.contains_key(k) && moved@[k].start == m[k].start + lines
                    && moved@[k].end == m[k].end + lines,
        {
            let (k, r) = kv;
            let ghost idx = it.index();
            assert(range_pairs(m).contains_key(*k));
            let start = r.start + lines;
            let end = r.end + lines;
            moved.insert(*k, start..end);
            proof {
                assert(*it.seq()[idx].0 == *k);
                assert forall|x: usize| #[trigger] moved@.contains_key(x) <==> exists|i: int| 0 <= i < idx + 1 && *(#[trigger] it.seq()[i]).0 == x by {
                    if moved@.contains_key(x) && x != *k {
                        let i = choose|i: int| 0 <= i < idx && *(#[trigger] it.seq()[i]).0 == x;
                        assert(0 <= i < idx + 1 && *it.seq()[i].0 == x);
                    }
                    if exists|i: int| 0 <= i < idx + 1 && *(#[trigger] it.seq()[i]).0 == x {
                        let i = choose|i: int| 0 <= i < idx + 1 && *(#[trigger] it.seq()[i]).0 == x;
                        if i < idx {
                            assert(exists|i2: int| 0 <= i2 < idx && *(#[trigger] it.seq()[i2]).0 == x);
                        }
                    }
                }
            }
        }
        proof {
            assert(range_pairs(moved@) =~= shifted(range_pairs(m), lines as int));
        }
        self.entries = moved;
    }

    /// Records all line ranges of `other`, whose identifiers must all be new here.
    pub fn extend(&mut self, other: LineNumbersByKey)
        requires
            old(self).wf(),
            other.wf(),
            forall|k: usize| #[trigger] other.map().contains_key(k) ==> !old(self).map().contains_key(k),
        ensures
            final(self).wf(),
            final(self).map() == old(self).map().union_prefer_right(other.map()),
    {
        let ghost m = other.entries@;
        let ghost m0 = self.entries@;
        assert forall|k: usize| #[trigger] m.contains_key(k) implies !m0.contains_key(k) by {
            assert(other.map().contains_key(k));
            if m0.contains_key(k) {
                assert(old(self).map().contains_key(k));
            }
        }
        for kv in it: other.entries.iter()
            invariant
                other.entries@ == m,
                it.seq().len() == m.dom().len(),
                it.seq().no_duplicates(),
                forall|i: int| 0 <= i < it.seq().len() ==> m.contains_key(*(#[trigger] it.seq()[i]).0) && m[*it.seq()[i].0] == *it.seq()[i].1,
                forall|k: usize| #[trigger] m.contains_key(k) ==> it.seq().contains((&k, &m[k])),
                forall|k: usize| #[trigger] m.contains_key(k) ==> exists|i: int| 0 <= i < it.seq().len() && *(#[trigger] it.seq()[i]).0 == k,
                forall|k: usize| #[trigger] m.contains_key(k) ==> !m0.contains_key(k),
                forall|k: usize| #[trigger] self.entries@.contains_key(k) <==> (m0.contains_key(k) || exists|i: int| 0 <= i < it.index() && *(#[trigger] it.seq()[i]).0 == k),
                forall|k: usize| #[trigger] self.entries@.contains_key(k) ==> self.entries@[k] == if m0.contains_key(k) { m0[k] } else { m[k] },
        {
            let (k, r) = kv;
            let ghost idx = it.index();
            let range = r.start..r.end;
            self.entries.insert(*k, range);
            proof {
                assert(*it.seq()[idx].0 == *k);
                assert forall|x: usize| #[trigger] self.entries@.contains_key(x) <==> (m0.contains_key(x) || exists|i: int| 0 <= i < idx + 1 && *(#[trigger] it.seq()[i]).0 == x) by {
                    if exists|i: int| 0 <= i < idx + 1 && *(#[trigger] it.seq()[i]).0 == x {
                        let i = choose|i: int| 0 <= i < idx + 1 && *(#[trigger] it.seq()[i]).0 == x;
                        if i < idx {
                            assert(exists|i2: int| 0 <= i2 < idx && *(#[trigger] it.seq()[i2]).0 == x);
                        }
                    }
                    if self.entries@.contains_key(x) && x != *k && !m0.contains_key(x) {
                        let i = choose|i: int| 0 <= i < idx && *(#[trigger] it.seq()[i]).0 == x;
                        assert(0 <= i < idx + 1 && *it.seq()[i].0 == x);
                    }
                }
            }
        }
        proof {
            assert(self.map() =~= old(self).map().union_prefer_right(other.map()));
        }
    }

    /// The identifier whose line range holds `line_no` (the smallest one, should several),
    /// and the position of the line inside that range, counted from one.
    pub fn get_identifier(&self, line_no: usize) -> (result: Option<(ErrId, usize)>)
        requires
            self.wf(),
        ensures
            locates(
                self.map(),
                line_no,
                match result {
                    Some((id, local)) => Some((id.0, local)),
                    None => None,
                },
            ),
    {
        let ghost m = self.entries@;
        let mut best: Option<(usize, usize)> = None;
        for kv in it: self.entries.iter()
            invariant
                self.entries@ == m,
                it.seq().len() == m.dom().len(),
                forall|i: int| 0 <= i < it.seq().len() ==> m.contains_key(*(#[trigger] it.seq()[i]).0) && m[*it.seq()[i].0] == *it.seq()[i].1,
                forall|k: usize| #[trigger] m.contains_key(k) ==> it.seq().contains((&k, &m[k])),
                forall|k: usize| #[trigger] m.contains_key(k) ==> exists|i: int| 0 <= i < it.seq().len() && *(#[trigger] it.seq()[i]).0 == k,
                match best {
                    Some((id, local)) => {
                        &&& m.contains_key(id)
                        &&& covers(range_pairs(m)[id], line_no)
                        &&& local == line_no - m[id].start + 1
                        &&& forall|i: int| 0 <= i < it.index() && covers(range_pairs(m)[*(#[trigger] it.seq()[i]).0], line_no) ==> id <= *it.seq()[i].0
                    },
                    None => forall|i: int| 0 <= i < it.index() ==> !covers(range_pairs(m)[*(#[trigger] it.seq()[i]).0], line_no),
                },
        {
            let (k, r) = kv;
            let ghost idx = it.index();
            proof {
                assert(*it.seq()[idx].0 == *k);
                assert(range_pairs(m)[*k] == (r.start, r.end));
            }
            if r.start <= line_no && line_no < r.end {
                let better = match best {
                    Some((id, _)) => *k < id,
                    None => true,
                };
                if better {
                    best = Some((*k, line_no - r.start + 1));
                }
            }
        }
        proof {
        }
        match best {
            Some((id, local)) => Some((ErrId(id), local)),
            None => None,
        }
    }
}

impl Default for LineNumbersByKey {
    /// No line ranges.
    fn default() -> (result: Self)
        ensures
            result.wf(),
            result.map() == Map::<usize, (usize, usize)>::empty(),
    {
        LineNumbersByKey::new()
    }
}

impl LineNumbersByKey {
    /// The line ranges of the given identifiers, which must be distinct.
    pub fn from_entries(entries: Vec<(ErrId, Range<usize>)>) -> (result: Self)
        requires
            forall|i: int, j: int| 0 <= i < j < entries@.len() ==> (#[trigger] entries@[i]).0 != (#[trigger] entries@[j]).0,
        ensures
            result.wf(),
            forall|i: int| 0 <= i < entries@.len() ==> result.map().contains_key((#[trigger] entries@[i]).0.0)
                && result.map()[entries@[i].0.0] == (entries@[i].1.start, entries@[i].1.end),
            forall|k: usize| #[trigger] result.map().contains_key(k) ==> exists|i: int| 0 <= i < entries@.len() && (#[trigger] entries@[i]).0.0 == k,
    {
        let mut result = LineNumbersByKey::new();
        let mut i: usize = 0;
        while i < entries.len()
            invariant
                result.wf(),
                i <= entries@.len(),
                forall|a: int, b: int| 0 <= a < b < entries@.len() ==> (#[trigger] entries@[a]).0 != (#[trigger] entries@[b]).0,
                forall|a: int| 0 <= a < i ==> result.map().contains_key((#[trigger] entries@[a]).0.0)
                    && result.map()[entries@[a].0.0] == (entries@[a].1.start, entries@[a].1.end),
                forall|k: usize| #[trigger] result.map().contains_key(k) ==> exists|a: int| 0 <= a < i && (#[trigger] entries@[a]).0.0 == k,
            decreases entries@.len() - i,
        {
            proof {
                if result.map().contains_key(entries@[i as int].0.0) {
                    let a = choose|a: int| 0 <= a < i && (#[trigger] entries@[a]).0.0 == entries@[i as int].0.0;
                    assert(entries@[a].0 != entries@[i as int].0);
                }
            }
            let id = entries[i].0;
            let r = entries[i].1.start..entries[i].1.end;
            result.add(id, r);
            i = i + 1;
        }
        result
    }

    /// The identifiers with their line ranges, by increasing identifier.
    pub fn entries(&self) -> (result: Vec<(ErrId, usize, usize)>)
        requires
            self.wf(),
        ensures
            result@.len() == self.map().len(),
            forall|i: int, j: int| 0 <= i < j < result@.len() ==> (#[trigger] result@[i]).0.0 < (#[trigger] result@[j]).0.0,
            forall|i: int| 0 <= i < result@.len() ==> self.map().contains_key((#[trigger] result@[i]).0.0)
                && self.map()[result@[i].0.0] == (result@[i].1, result@[i].2),
            forall|k: usize| #[trigger] self.map().contains_key(k) ==> exists|i: int| 0 <= i < result@.len() && (#[trigger] result@[i]).0.0 == k,
    {
        let ghost m = self.entries@;
        let mut result: Vec<(ErrId, usize, usize)> = Vec::new();
        let iter = self.entries.iter();
        let ghost rem = vstd::std_specs::iter::IteratorSpec::remaining(&iter);
        proof {
            broadcast use vstd::laws_cmp::group_laws_cmp;
            let keys = rem.map_values(|kv: (&usize, &Range<usize>)| *kv.0);
            assert(vstd::laws_cmp::obeys_cmp::<usize>());
            assert(vstd::std_specs::btree::increasing_seq(keys));
            assert forall|i: int, j: int| 0 <= i < j < rem.len() implies *rem[i].0 < *rem[j].0 by {
                assert(keys[i] == *rem[i].0 && keys[j] == *rem[j].0);
                assert(vstd::std_specs::cmp::OrdSpec::cmp_spec(&keys[i], &keys[j]) is Less);
            }
        }
        for kv in it: iter
            invariant
                self.entries@ == m,
                it.seq().len() == m.dom().len(),
                forall|i: int, j: int| 0 <= i < j < it.seq().len() ==> *(#[trigger] it.seq()[i]).0 < *(#[trigger] it.seq()[j]).0,
                forall|k: usize| #[trigger] m.contains_key(k) ==> (exists|a: int| 0 <= a < result@.len() && (#[trigger] result@[a]).0.0 == k)
                    || (exists|i: int| it.index() <= i < it.seq().len() && *(#[trigger] it.seq()[i]).0 == k),
                forall|i: int| 0 <= i < it.seq().len() ==> m.contains_key(*(#[trigger] it.seq()[i]).0) && m[*it.seq()[i].0] == *it.seq()[i].1,
                forall|k: usize| #[trigger] m.contains_key(k) ==> it.seq().contains((&k, &m[k])),
                forall|k: usize| #[trigger] m.contains_key(k) ==> exists|i: int| 0 <= i < it.seq().len() && *(#[trigger] it.seq()[i]).0 == k,
                result@.len() == it.index(),
                forall|a: int| 0 <= a < it.index() ==> (#[trigger] result@[a]) == (ErrId(*it.seq()[a].0), it.seq()[a].1.start, it.seq()[a].1.end),
        {
            let (k, r) = kv;
            let ghost idx = it.index();
            let ghost before = result@;
            result.push((ErrId(*k), r.start, r.end));
            proof {
                assert(*it.seq()[idx].0 == *k);
                assert forall|x: usize| #[trigger] m.contains_key(x) implies (exists|a: int| 0 <= a < result@.len() && (#[trigger] result@[a]).0.0 == x)
                    || (exists|i: int| idx + 1 <= i < it.seq().len() && *(#[trigger] it.seq()[i]).0 == x) by {
                    if exists|i: int| idx <= i < it.seq().len() && *(#[trigger] it.seq()[i]).0 == x {
                        let i = choose|i: int| idx <= i < it.seq().len() && *(#[trigger] it.seq()[i]).0 == x;
                        if i == idx {
                            assert(result@[idx].0.0 == x);
                        } else {
                            assert(idx + 1 <= i < it.seq().len() && *it.seq()[i].0 == x);
                        }
                    } else {
                        let a = choose|a: int| 0 <= a < before.len() && (#[trigger] before[a]).0.0 == x;
                        assert(result@[a] == before[a]);
                    }
                }
            }
        }
        proof {
            assert(self.map().dom() =~= m.dom());
        }
        result
    }
}


/// Text being generated, with the line ranges that pieces of user code occupy in it.
#[derive(Debug, PartialEq, Eq)]
pub struct StringStorage {
    pub storage: String,
    pub line_numbers: LineNumbersByKey,
    pub current_line_no: usize,
}

/// The number of the line that text `t` ends on, counted from one.
pub open spec fn line_count(t: Seq<char>) -> int {
    1 + count_char(t, '\n') as int
}

impl StringStorage {
    /// The text generated so far.
    pub open spec fn text(&self) -> Seq<char> {
        self.storage@
    }

    /// The line range of each piece of user code, by identifier.
    pub open spec fn lines(&self) -> Map<usize, (usize, usize)> {
        self.line_numbers.map()
    }

    /// The line ranges are kept sorted by identifier.
    pub open spec fn lines_wf(&self) -> bool {
        self.line_numbers.wf()
    }

    /// The line ranges are well formed and `current_line_no` is the number of the line the
    /// text ends on.
    pub open spec fn wf(&self) -> bool {
        &&& self.line_numbers.wf()
        &&& self.current_line_no == line_count(self.text())
    }

    /// The number of the line the text ends on, counted from one.
    pub fn current_line_no(&self) -> (result: usize)
        requires
            self.wf(),
        ensures
            result == line_count(self.text()),
    {
        self.current_line_no
    }

    /// Empty text on line one, with no line ranges.
    pub fn new() -> (result: Self)
        ensures
            result.wf(),
            result.text() == Seq::<char>::empty(),
            result.lines() == Map::<usize, (usize, usize)>::empty(),
    {
        StringStorage { storage: String::new(), line_numbers: LineNumbersByKey::new(), current_line_no: 1 }
    }

    /// Appends `s` to the text.
    pub fn add_string(&mut self, s: &str)
        requires
            old(self).wf(),
            line_count(old(self).text() + s@) <= usize::MAX,
        ensures
            final(self).wf(),
            final(self).text() == old(self).text() + s@,
            final(self).lines() == old(self).lines(),
    {
        proof {
            lemma_count_char_concat(self.storage@, s@, '\n');
        }
        let n = count_occurrences(s, '\n');
        self.current_line_no = self.current_line_no + n;
        self.storage.append(s);
    }

    /// Appends `s` to the text and records the lines it covers under `identifier`, which
    /// must not have a line range yet: from the line the text ended on before, to the line
    /// after the one it ends on now.
    pub fn add_identifier_string(&mut self, identifier: ErrId, s: &str)
        requires
            old(self).wf(),
            !old(self).lines().contains_key(identifier.0),
            line_count(old(self).text() + s@) + 1 <= usize::MAX,
        ensures
            final(self).wf(),
            final(self).text() == old(self).text() + s@,
            final(self).lines() == old(self).lines().insert(
                identifier.0,
                (line_count(old(self).text()) as usize, (line_count(final(self).text()) + 1) as usize),
            ),
    {
        let start = self.current_line_no;
        self.add_string(s);
        let end = self.current_line_no;
        self.line_numbers.add(identifier, start..end + 1);
    }

    /// Appends the text of `other` and takes over its line ranges, moved down to where its
    /// text now begins. The identifiers of `other` must all be new here.
    pub fn add_string_storage(&mut self, other: StringStorage)
        requires
            old(self).wf(),
            other.lines_wf(),
            shift_fits(other.lines(), line_count(old(self).text()) - 1),
            line_count(old(self).text() + other.text()) <= usize::MAX,
            forall|k: usize| #[trigger] other.lines().contains_key(k)
                ==> !old(self).lines().contains_key(k),
        ensures
            final(self).wf(),
            final(self).text() == old(self).text() + other.text(),
            final(self).lines() == old(self).lines().union_prefer_right(
                shifted(other.lines(), line_count(old(self).text()) - 1),
            ),
    {
        let ghost other_lines = other.lines();
        let mut other = other;
        let d = self.current_line_no - 1;
        other.line_numbers.offset(d);
        self.add_string(other.storage.as_str());
        assert forall|k: usize| #[trigger] other.lines().contains_key(k) implies !self.line_numbers.map().contains_key(k) by {
            assert(shifted(other_lines, d as int).contains_key(k));
        }
        self.line_numbers.extend(other.line_numbers);
    }
}

/// Appending `a` and then `b` gives the same text, line ranges and current line as appending
/// `a + b` at once: appending only adds text, and the current line follows the text.
pub proof fn lemma_add_string_twice(s0: StringStorage, s1: StringStorage, s2: StringStorage, t: StringStorage, a: Seq<char>, b: Seq<char>)
    requires
        s0.wf(),
        s1.wf(),
        s2.wf(),
        t.wf(),
        s1.text() == s0.text() + a,
        s1.lines() == s0.lines(),
        s2.text() == s1.text() + b,
        s2.lines() == s1.lines(),
        t.text() == s0.text() + (a + b),
        t.lines() == s0.lines(),
    ensures
        s2.text() == t.text(),
        s2.lines() == t.lines(),
        line_count(s2.text()) == line_count(t.text()),
{
    assert(s0.text() + a + b =~= s0.text() + (a + b));
}

impl Default for StringStorage {
    /// Empty text on line one, with no line ranges.
    fn default() -> (result: Self)
        ensures
            result.wf(),
            result.text() == Seq::<char>::empty(),
            result.lines() == Map::<usize, (usize, usize)>::empty(),
    {
        StringStorage::new()
    }
}

/// What a [`StringStorage`] holds: its text and its line ranges.
pub type TextModel = (Seq<char>, Map<usize, (usize, usize)>);

/// Appending `s` to `m`, or `None` where the line count would not fit a `usize`.
pub open spec fn add_text(m: TextModel, s: Seq<char>) -> Option<TextModel> {
    if line_count(m.0 + s) <= usize::MAX {
        Some((m.0 + s, m.1))
    } else {
        None
    }
}

/// Appending the text of `o` to `m` and taking over its line ranges, moved down to where
/// that text begins; `None` where an identifier would be recorded twice or a line number
/// would not fit a `usize`.
pub open spec fn add_storage(m: TextModel, o: TextModel) -> Option<TextModel> {
    let d = line_count(m.0) - 1;
    if shift_fits(o.1, d) && line_count(m.0 + o.0) <= usize::MAX && (forall|k: usize|
        #[trigger] o.1.contains_key(k) ==> !m.1.contains_key(k)) {
        Some((m.0 + o.0, m.1.union_prefer_right(shifted(o.1, d))))
    } else {
        None
    }
}

/// `//%`, which marks a name in a template.
pub open spec fn template_marker() -> Seq<char> {
    seq!['/', '/', '%']
}

/// Filling in the first `n` pieces of a template: even pieces are copied, odd pieces name
/// a storage in `named` whose content is inserted, each name at most once. The text so far
/// and the names used, or `None` where filling in fails.
pub open spec fn template_fold(pieces: Seq<Seq<char>>, n: nat, named: Map<Seq<char>, TextModel>) -> Option<(TextModel, Set<Seq<char>>)>
    decreases n,
{
    if n == 0 {
        Some(((Seq::<char>::empty(), Map::<usize, (usize, usize)>::empty()), Set::<Seq<char>>::empty()))
    } else {
        match template_fold(pieces, (n - 1) as nat, named) {
            None => None,
            Some((m, used)) => {
                let p = pieces[n - 1];
                if (n - 1) % 2 == 0 {
                    match add_text(m, p) {
                        Some(m2) => Some((m2, used)),
                        None => None,
                    }
                } else if named.contains_key(p) && !used.contains(p) {
                    match add_storage(m, named[p]) {
                        Some(m2) => Some((m2, used.insert(p))),
                        None => None,
                    }
                } else {
                    None
                }
            },
        }
    }
}

/// Filling in `template` from `named`: the resulting text and line ranges, or `None` where a
/// name is missing or used twice, an identifier is recorded twice, or a line number does not
/// fit a `usize`.
pub open spec fn filled_template(template: Seq<char>, named: Map<Seq<char>, TextModel>) -> Option<TextModel> {
    let pieces = split_pieces(template, template_marker());
    match template_fold(pieces, pieces.len(), named) {
        Some((m, _)) => Some(m),
        None => None,
    }
}

/// The storages by name.
pub open spec fn named_storages(v: Seq<(String, StringStorage)>) -> Map<Seq<char>, TextModel> {
    Map::new(
        |name: Seq<char>| exists|i: int| 0 <= i < v.len() && (#[trigger] v[i]).0@ == name,
        |name: Seq<char>|
            {
                let i = choose|i: int| 0 <= i < v.len() && (#[trigger] v[i]).0@ == name;
                (v[i].1.text(), v[i].1.lines())
            },
    )
}

/// No two storages have the same name.
pub open spec fn names_distinct(v: Seq<(String, StringStorage)>) -> bool {
    forall|i: int, j: int| 0 <= i < j < v.len() ==> (#[trigger] v[i]).0@ != (#[trigger] v[j]).0@
}

proof fn lemma_named_at(v: Seq<(String, StringStorage)>, i: int)
    requires
        names_distinct(v),
        0 <= i < v.len(),
    ensures
        named_storages(v).contains_key(v[i].0@),
        named_storages(v)[v[i].0@] == (v[i].1.text(), v[i].1.lines()),
{
    let name = v[i].0@;
    assert(exists|j: int| 0 <= j < v.len() && (#[trigger] v[j]).0@ == name);
    let j = choose|j: int| 0 <= j < v.len() && (#[trigger] v[j]).0@ == name;
    if j < i {
        assert(v[j].0@ != v[i].0@);
    }
    if i < j {
        assert(v[i].0@ != v[j].0@);
    }
}

/// Adding a storage under a new name to a list with distinct names keeps the names distinct
/// and adds that name to the storages by name.
pub proof fn lemma_named_storages_push(v: Seq<(String, StringStorage)>, x: (String, StringStorage))
    requires
        names_distinct(v),
        forall|i: int| 0 <= i < v.len() ==> (#[trigger] v[i]).0@ != x.0@,
    ensures
        names_distinct(v.push(x)),
        named_storages(v.push(x)) == named_storages(v).insert(x.0@, (x.1.text(), x.1.lines())),
{
    let w = v.push(x);
    assert(names_distinct(w)) by {
        assert forall|a: int, b: int| 0 <= a < b < w.len() implies (#[trigger] w[a]).0@ != (#[trigger] w[b]).0@ by {
            if b < v.len() {
                assert(w[a] == v[a] && w[b] == v[b]);
            } else {
                assert(w[a] == v[a]);
            }
        }
    }
    let target = named_storages(v).insert(x.0@, (x.1.text(), x.1.lines()));
    assert forall|name: Seq<char>| #[trigger] named_storages(w).contains_key(name) <==> target.contains_key(name) by {
        if named_storages(w).contains_key(name) && name != x.0@ {
            let a = choose|a: int| 0 <= a < w.len() && (#[trigger] w[a]).0@ == name;
            assert(a < v.len());
            assert(w[a] == v[a]);
        }
        if named_storages(v).contains_key(name) {
            let a = choose|a: int| 0 <= a < v.len() && (#[trigger] v[a]).0@ == name;
            assert(w[a] == v[a]);
        }
        if name == x.0@ {
            assert(w[v.len() as int] == x);
        }
    }
    assert forall|name: Seq<char>| #[trigger] named_storages(w).contains_key(name) implies named_storages(w)[name] == target[name] by {
        let a = choose|a: int| 0 <= a < w.len() && (#[trigger] w[a]).0@ == name;
        lemma_named_at(w, a);
        if a < v.len() {
            assert(w[a] == v[a]);
            lemma_named_at(v, a);
        } else {
            assert(w[a] == x);
        }
    }
    assert(named_storages(w) =~= target);
}

proof fn lemma_named_remove(v: Seq<(String, StringStorage)>, i: int)
    requires
        names_distinct(v),
        0 <= i < v.len(),
    ensures
        names_distinct(v.remove(i)),
        named_storages(v.remove(i)) == named_storages(v).remove(v[i].0@),
{
    let w = v.remove(i);
    assert(names_distinct(w)) by {
        assert forall|a: int, b: int| 0 <= a < b < w.len() implies (#[trigger] w[a]).0@ != (#[trigger] w[b]).0@ by {
            let a0 = if a < i { a } else { a + 1 };
            let b0 = if b < i { b } else { b + 1 };
            assert(w[a] == v[a0] && w[b] == v[b0]);
        }
    }
    let target = named_storages(v).remove(v[i].0@);
    assert forall|name: Seq<char>| #[trigger] named_storages(w).contains_key(name) <==> target.contains_key(name) by {
        if named_storages(w).contains_key(name) {
            let a = choose|a: int| 0 <= a < w.len() && (#[trigger] w[a]).0@ == name;
            let a0 = if a < i { a } else { a + 1 };
            assert(w[a] == v[a0]);
            lemma_named_at(v, a0);
            assert(v[a0].0@ != v[i].0@);
        }
        if target.contains_key(name) {
            let a0 = choose|a: int| 0 <= a < v.len() && (#[trigger] v[a]).0@ == name;
            assert(a0 != i);
            let a = if a0 < i { a0 } else { a0 - 1 };
            assert(w[a] == v[a0]);
        }
    }
    assert forall|name: Seq<char>| #[trigger] named_storages(w).contains_key(name) implies named_storages(w)[name] == target[name] by {
        let a = choose|a: int| 0 <= a < w.len() && (#[trigger] w[a]).0@ == name;
        let a0 = if a < i { a } else { a + 1 };
        assert(w[a] == v[a0]);
        lemma_named_at(w, a);
        lemma_named_at(v, a0);
    }
    assert(named_storages(w) =~= target);
}

proof fn lemma_fold_prefix(pieces: Seq<Seq<char>>, m: nat, n: nat, named: Map<Seq<char>, TextModel>)
    requires
        m <= n,
        template_fold(pieces, n, named) is Some,
    ensures
        template_fold(pieces, m, named) is Some,
    decreases n - m,
{
    if m < n {
        lemma_fold_prefix(pieces, m + 1, n, named);
    }
}

/// The position of the storage called `name`, if there is one.
fn find_named(storages: &Vec<(String, StringStorage)>, name: &str) -> (result: Option<usize>)
    ensures
        match result {
            Some(j) => j < storages@.len() && storages@[j as int].0@ == name@,
            None => forall|j: int| 0 <= j < storages@.len() ==> (#[trigger] storages@[j]).0@ != name@,
        },
{
    let wanted = name.to_owned();
    let mut j: usize = 0;
    while j < storages.len()
        invariant
            wanted@ == name@,
            j <= storages@.len(),
            forall|k: int| 0 <= k < j ==> (#[trigger] storages@[k]).0@ != name@,
        decreases storages@.len() - j,
    {
        if storages[j].0 == wanted {
            return Some(j);
        }
        j = j + 1;
    }
    None
}

/// Fills in `template`: the text between `//%` markers is copied, and each `//%name//%` is
/// replaced by the storage called `name`, whose line ranges move along with its text. Every
/// name must be one of the storages and be used at most once.
pub fn apply_template(template: &str, storages: Vec<(String, StringStorage)>) -> (result: StringStorage)
    requires
        names_distinct(storages@),
        forall|i: int| 0 <= i < storages@.len() ==> (#[trigger] storages@[i]).1.lines_wf(),
        filled_template(template@, named_storages(storages@)) is Some,
    ensures
        result.wf(),
        Some((result.text(), result.lines())) == filled_template(template@, named_storages(storages@)),
{
    let marker = vec!['/', '/', '%'];
    assert(marker@ =~= template_marker());
    let pieces = split_on(template, &marker);
    let ghost pv = split_pieces(template@, template_marker());
    let ghost named = named_storages(storages@);
    let ghost mut used: Set<Seq<char>> = Set::empty();
    let mut remaining = storages;
    let mut result = StringStorage::new();
    let mut i: usize = 0;
    proof {
        assert(result.text() =~= Seq::<char>::empty());
        assert(result.lines() =~= Map::<usize, (usize, usize)>::empty());
    }
    while i < pieces.len()
        invariant
            pieces@.len() == pv.len(),
            forall|k: int| 0 <= k < pieces@.len() ==> (#[trigger] pieces@[k])@ == pv[k],
            i <= pv.len(),
            template_fold(pv, pv.len(), named) is Some,
            template_fold(pv, i as nat, named) == Some(((result.text(), result.lines()), used)),
            result.wf(),
            names_distinct(remaining@),
            forall|k: int| 0 <= k < remaining@.len() ==> (#[trigger] remaining@[k]).1.lines_wf(),
            named_storages(remaining@) == named.remove_keys(used),
        decreases pv.len() - i,
    {
        proof {
            lemma_fold_prefix(pv, (i + 1) as nat, pv.len(), named);
        }
        let piece = pieces[i];
        if i % 2 == 0 {
            result.add_string(piece);
        } else {
            let found = find_named(&remaining, piece);
            match found {
                Some(j) => {
                    proof {
                        lemma_named_at(remaining@, j as int);
                        lemma_named_remove(remaining@, j as int);
                    }
                    let (_, st) = remaining.remove(j);
                    result.add_string_storage(st);
                    proof {
                        used = used.insert(pv[i as int]);
                        assert(named_storages(remaining@) =~= named.remove_keys(used));
                    }
                },
                None => {
                    proof {
                        assert(!named_storages(remaining@).contains_key(pv[i as int]));
                    }
                },
            }
        }
        i = i + 1;
    }
    result
}

/// A line comes from at most one place: the line ranges determine the answer.
pub proof fn lemma_locates_unique(m: Map<usize, (usize, usize)>, line: usize, r1: Option<(usize, usize)>, r2: Option<(usize, usize)>)
    requires
        locates(m, line, r1),
        locates(m, line, r2),
    ensures
        r1 == r2,
{
    match (r1, r2) {
        (Some((a, _)), Some((b, _))) => {
            if a < b {
                assert(m.contains_key(a));
            } else if b < a {
                assert(m.contains_key(b));
            }
        },
        (Some((a, _)), None) => {
            assert(m.contains_key(a));
        },
        (None, Some((b, _))) => {
            assert(m.contains_key(b));
        },
        (None, None) => {},
    }
}

/// A line of code recorded under a new identifier traces back to that identifier and to its
/// position in the code, unless a smaller identifier also holds the line.
pub proof fn lemma_locates_after_add(m: Map<usize, (usize, usize)>, id: usize, r: (usize, usize), line: usize)
    requires
        !m.contains_key(id),
        covers(r, line),
        forall|k: usize| #[trigger] m.contains_key(k) && k < id ==> !covers(m[k], line),
    ensures
        locates(m.insert(id, r), line, Some((id, (line - r.0 + 1) as usize))),
{
    let m2 = m.insert(id, r);
    assert forall|k: usize| #[trigger] m2.contains_key(k) && k < id implies !covers(m2[k], line) by {
        assert(m.contains_key(k));
    }
}

/// Moving code down moves the answers with it: a line that traced back to a place before
/// traces back to the same place, with the same position, once all ranges and the line move
/// down by the same amount.
pub proof fn lemma_locates_shifted(m: Map<usize, (usize, usize)>, line: usize, r: Option<(usize, usize)>, d: usize)
    requires
        locates(m, line, r),
        shift_fits(m, d as int),
        line + d <= usize::MAX,
    ensures
        locates(shifted(m, d as int), (line + d) as usize, r),
{
    let m2 = shifted(m, d as int);
    let l2 = (line + d) as usize;
    assert forall|k: usize| #[trigger] m2.contains_key(k) implies (covers(m2[k], l2) <==> covers(m[k], line)) by {
        assert(m.contains_key(k));
    }
    match r {
        Some((id, local)) => {
            assert(m2.contains_key(id));
            assert forall|k: usize| #[trigger] m2.contains_key(k) && k < id implies !covers(m2[k], l2) by {
                assert(m.contains_key(k));
            }
        },
        None => {
            assert forall|k: usize| #[trigger] m2.contains_key(k) implies !covers(m2[k], l2) by {
                assert(m.contains_key(k));
            }
        },
    }
}

} // verus!
