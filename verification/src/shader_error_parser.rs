use crate::code_generation::{covers, lemma_locates_after_add, lemma_locates_unique, locates, LineNumbersByKey};
use crate::text::{chars_of, has_at, matches_at, next_match, piece_bounds_from, split_pieces};
use std::collections::BTreeMap;
use vstd::prelude::*;

verus! {

broadcast use vstd::std_specs::btree::group_btree_axioms;

/// An ASCII decimal digit.
pub open spec fn is_digit(c: char) -> bool {
    '0' <= c && c <= '9'
}

/// The value of the decimal digit `c`.
pub open spec fn digit_value(c: char) -> nat {
    (c as int - '0' as int) as nat
}

/// The end of the run of decimal digits in `s` that starts at `i`.
pub open spec fn digit_run_end(s: Seq<char>, i: int) -> int
    decreases s.len() - i,
{
    if 0 <= i < s.len() && is_digit(s[i]) {
        digit_run_end(s, i + 1)
    } else {
        i
    }
}

/// The number written in decimal by `s[start..end]`.
pub open spec fn decimal_value(s: Seq<char>, start: int, end: int) -> nat
    decreases end - start,
{
    if end <= start {
        0
    } else {
        decimal_value(s, start, end - 1) * 10 + digit_value(s[end - 1])
    }
}

/// Reads `prefix`, a decimal line number and `suffix` at the start of `line`: the line
/// number and the rest of the line after `suffix`. The number is the whole run of digits
/// and must fit a `usize`.
pub open spec fn parse_with(line: Seq<char>, prefix: Seq<char>, suffix: Seq<char>) -> Option<(usize, Seq<char>)> {
    let start = prefix.len() as int;
    let end = digit_run_end(line, start);
    if has_at(line, 0, prefix) && end > start && decimal_value(line, start, end) <= usize::MAX
        && has_at(line, end, suffix) {
        Some((decimal_value(line, start, end) as usize, line.subrange(end + suffix.len(), line.len() as int)))
    } else {
        None
    }
}

/// `0(`, how a native compiler starts a message.
pub open spec fn native_prefix() -> Seq<char> {
    seq!['0', '(']
}

/// `) : error `
pub open spec fn native_error_suffix() -> Seq<char> {
    seq![')', ' ', ':', ' ', 'e', 'r', 'r', 'o', 'r', ' ']
}

/// `) : warning `
pub open spec fn native_warning_suffix() -> Seq<char> {
    seq![')', ' ', ':', ' ', 'w', 'a', 'r', 'n', 'i', 'n', 'g', ' ']
}

/// `ERROR: 0:`, how a browser compiler starts a message.
pub open spec fn web_prefix() -> Seq<char> {
    seq!['E', 'R', 'R', 'O', 'R', ':', ' ', '0', ':']
}

/// `: `
pub open spec fn web_suffix() -> Seq<char> {
    seq![':', ' ']
}

/// The line number and message of one line of a shader compiler's output, in the first of
/// the three known formats that fits: `0(270) : error ...`, `0(365) : warning ...`, or
/// `ERROR: 0:586: ...`.
pub open spec fn parse_line(line: Seq<char>) -> Option<(usize, Seq<char>)> {
    if parse_with(line, native_prefix(), native_error_suffix()) is Some {
        parse_with(line, native_prefix(), native_error_suffix())
    } else if parse_with(line, native_prefix(), native_warning_suffix()) is Some {
        parse_with(line, native_prefix(), native_warning_suffix())
    } else {
        parse_with(line, web_prefix(), web_suffix())
    }
}

/// The index of the first line break in `s` at or after `i`, or the length of `s`.
pub open spec fn next_line_break(s: Seq<char>, i: int) -> int
    decreases s.len() - i,
{
    if i >= s.len() {
        s.len() as int
    } else if s[i] == '\n' {
        i
    } else {
        next_line_break(s, i + 1)
    }
}

/// The bounds of the lines of `s` from index `start` on, split at each `'\n'` (a trailing
/// line break gives a last, empty line).
pub open spec fn line_bounds_from(s: Seq<char>, start: int) -> Seq<(int, int)>
    decreases s.len() - start, 1int,
{
    let e = next_line_break(s, start);
    if 0 <= start <= s.len() && e < s.len() {
        proof {
            lemma_next_line_break(s, start);
        }
        seq![(start, e)] + line_bounds_from(s, e + 1)
    } else {
        seq![(start, e)]
    }
}

/// The lines of `s`, split at each `'\n'`.
pub open spec fn lines(s: Seq<char>) -> Seq<Seq<char>> {
    line_bounds_from(s, 0).map_values(|b: (int, int)| s.subrange(b.0, b.1))
}

pub proof fn lemma_next_line_break(s: Seq<char>, i: int)
    requires
        0 <= i <= s.len(),
    ensures
        i <= next_line_break(s, i) <= s.len(),
        next_line_break(s, i) < s.len() ==> s[next_line_break(s, i)] == '\n',
    decreases s.len() - i,
{
    if i < s.len() && s[i] != '\n' {
        lemma_next_line_break(s, i + 1);
    }
}

proof fn lemma_digit_run_end(s: Seq<char>, i: int)
    requires
        0 <= i <= s.len(),
    ensures
        i <= digit_run_end(s, i) <= s.len(),
    decreases s.len() - i,
{
    if i < s.len() && is_digit(s[i]) {
        lemma_digit_run_end(s, i + 1);
    }
}

/// Reads the run of digits at `start` in `line`: its end, and its value when that fits a
/// `usize`.
fn read_number(line: &Vec<char>, start: usize) -> (result: (usize, Option<usize>))
    requires
        start <= line@.len(),
    ensures
        result.0 == digit_run_end(line@, start as int),
        result.1 is Some <==> decimal_value(line@, start as int, result.0 as int) <= usize::MAX,
        result.1 is Some ==> result.1.unwrap() == decimal_value(line@, start as int, result.0 as int),
{
    let mut end = start;
    let mut value: Option<usize> = Some(0);
    proof {
        lemma_digit_run_end(line@, start as int);
    }
    while end < line.len() && '0' <= line[end] && line[end] <= '9'
        invariant
            start <= end <= line@.len(),
            digit_run_end(line@, end as int) == digit_run_end(line@, start as int),
            value is Some <==> decimal_value(line@, start as int, end as int) <= usize::MAX,
            value is Some ==> value.unwrap() == decimal_value(line@, start as int, end as int),
        decreases line@.len() - end,
    {
        let d = (line[end] as u32 - '0' as u32) as usize;
        assert(d == digit_value(line@[end as int]));
        value = match value {
            Some(v) => match v.checked_mul(10) {
                Some(v10) => v10.checked_add(d),
                None => None,
            },
            None => None,
        };
        end = end + 1;
        assert(decimal_value(line@, start as int, end as int)
            == decimal_value(line@, start as int, end - 1) * 10 + d);
    }
    (end, value)
}

/// Reads `prefix`, a line number and `suffix` at the start of `line`: the line number and
/// where the rest of the line begins.
fn try_parse(line: &Vec<char>, prefix: &Vec<char>, suffix: &Vec<char>) -> (result: Option<(usize, usize)>)
    ensures
        match result {
            Some((n, at)) => parse_with(line@, prefix@, suffix@) == Some(
                (n, line@.subrange(at as int, line@.len() as int)),
            ) && at <= line@.len(),
            None => parse_with(line@, prefix@, suffix@) is None,
        },
{
    if !matches_at(line, 0, prefix) {
        return None;
    }
    let start = prefix.len();
    let (end, value) = read_number(line, start);
    proof {
        lemma_digit_run_end(line@, start as int);
    }
    if end == start {
        return None;
    }
    match value {
        None => None,
        Some(n) => {
            if matches_at(line, end, suffix) {
                assert(end + suffix@.len() <= line@.len());
                assert(line@.len() == line.len());
                Some((n, end + suffix.len()))
            } else {
                None
            }
        },
    }
}

/// Whether `item` is what one line of compiler output reads as: its line number and
/// message when it is in a known format, the whole line otherwise.
pub open spec fn reads_as(line: Seq<char>, item: Result<(usize, &str), &str>) -> bool {
    match item {
        Ok((n, message)) => parse_line(line) == Some((n, message@)),
        Err(whole) => parse_line(line) is None && whole@ == line,
    }
}

fn native_prefix_chars() -> (v: Vec<char>)
    ensures
        v@ == native_prefix(),
{
    let v = vec!['0', '('];
    assert(v@ =~= native_prefix());
    v
}

fn native_error_suffix_chars() -> (v: Vec<char>)
    ensures
        v@ == native_error_suffix(),
{
    let v = vec![')', ' ', ':', ' ', 'e', 'r', 'r', 'o', 'r', ' '];
    assert(v@ =~= native_error_suffix());
    v
}

fn native_warning_suffix_chars() -> (v: Vec<char>)
    ensures
        v@ == native_warning_suffix(),
{
    let v = vec![')', ' ', ':', ' ', 'w', 'a', 'r', 'n', 'i', 'n', 'g', ' '];
    assert(v@ =~= native_warning_suffix());
    v
}

fn web_prefix_chars() -> (v: Vec<char>)
    ensures
        v@ == web_prefix(),
{
    let v = vec!['E', 'R', 'R', 'O', 'R', ':', ' ', '0', ':'];
    assert(v@ =~= web_prefix());
    v
}

fn web_suffix_chars() -> (v: Vec<char>)
    ensures
        v@ == web_suffix(),
{
    let v = vec![':', ' '];
    assert(v@ =~= web_suffix());
    v
}

/// The line number and where the message begins, for a line in a known format.
fn parse_line_chars(line: &Vec<char>) -> (result: Option<(usize, usize)>)
    ensures
        match result {
            Some((n, at)) => at <= line@.len() && parse_line(line@) == Some(
                (n, line@.subrange(at as int, line@.len() as int)),
            ),
            None => parse_line(line@) is None,
        },
{
    let p1 = native_prefix_chars();
    let e1 = native_error_suffix_chars();
    let w1 = native_warning_suffix_chars();
    let p3 = web_prefix_chars();
    let s3 = web_suffix_chars();
    if let Some(r) = try_parse(line, &p1, &e1) {
        Some(r)
    } else if let Some(r) = try_parse(line, &p1, &w1) {
        Some(r)
    } else {
        try_parse(line, &p3, &s3)
    }
}

/// Splits a shader compiler's output into lines and reads each one: `Ok` with the line
/// number and the message for a line in a known format, `Err` with the whole line otherwise.
pub fn shader_error_parser<'a>(error: &'a str) -> (result: Vec<Result<(usize, &'a str), &'a str>>)
    ensures
        result@.len() == lines(error@).len(),
        forall|k: int| 0 <= k < result@.len() ==> reads_as(#[trigger] lines(error@)[k], result@[k]),
{
    let s = chars_of(error);
    let n = s.len();
    let ghost bounds = line_bounds_from(s@, 0);
    let ghost mut done: Seq<(int, int)> = seq![];
    let mut result: Vec<Result<(usize, &'a str), &'a str>> = Vec::new();
    let mut start: usize = 0;
    let mut finished = false;
    while !finished
        invariant
            s@ == error@,
            n == s@.len(),
            start <= n,
            bounds == line_bounds_from(s@, 0),
            !finished ==> bounds == done + line_bounds_from(s@, start as int),
            finished ==> bounds == done,
            result@.len() == done.len(),
            forall|k: int| 0 <= k < done.len() ==> 0 <= (#[trigger] done[k]).0 <= done[k].1 <= n,
            forall|k: int| 0 <= k < done.len() ==> reads_as(
                s@.subrange((#[trigger] done[k]).0, done[k].1),
                result@[k],
            ),
        decreases n - start + if finished { 0int } else { 1int },
    {
        // Find the end of the line.
        let mut end = start;
        while end < n && s[end] != '\n'
            invariant
                start <= end <= n,
                n == s@.len(),
                next_line_break(s@, end as int) == next_line_break(s@, start as int),
            decreases n - end,
        {
            end = end + 1;
        }
        proof {
            lemma_next_line_break(s@, start as int);
        }
        // Copy the line.
        let mut line: Vec<char> = Vec::new();
        let mut i = start;
        while i < end
            invariant
                start <= i <= end <= n,
                n == s@.len(),
                line@ == s@.subrange(start as int, i as int),
            decreases end - i,
        {
            line.push(s[i]);
            i = i + 1;
        }
        let item = match parse_line_chars(&line) {
            Some((number, at)) => {
                let message = error.substring_char(start + at, end);
                assert(message@ =~= line@.subrange(at as int, line@.len() as int));
                Ok((number, message))
            },
            None => {
                let whole = error.substring_char(start, end);
                Err(whole)
            },
        };
        result.push(item);
        proof {
            assert(line_bounds_from(s@, start as int)[0] == (start as int, end as int));
            done = done.push((start as int, end as int));
            assert forall|k: int| 0 <= k < done.len() implies reads_as(
                s@.subrange((#[trigger] done[k]).0, done[k].1),
                result@[k],
            ) by {
                if k == done.len() - 1 {
                    assert(line@ =~= s@.subrange(start as int, end as int));
                }
            }
        }
        if end < n {
            proof {
                assert(line_bounds_from(s@, start as int) == seq![(start as int, end as int)]
                    + line_bounds_from(s@, end + 1));
                assert(bounds =~= done + line_bounds_from(s@, end + 1));
            }
            start = end + 1;
        } else {
            proof {
                assert(bounds =~= done);
            }
            finished = true;
        }
    }
    proof {
        assert forall|k: int| 0 <= k < result@.len() implies reads_as(#[trigger] lines(error@)[k], result@[k]) by {
            assert(lines(error@)[k] == s@.subrange(done[k].0, done[k].1));
        }
    }
    result
}

/// Where line `line` of generated code comes from according to the line ranges `m`: the
/// identifier of the piece of user code that holds it and the line's position in that piece,
/// or `None`.
pub open spec fn source_of(m: Map<usize, (usize, usize)>, line: usize) -> Option<(usize, usize)> {
    choose|r: Option<(usize, usize)>| locates(m, line, r)
}

/// What one line of compiler output is filed as: under the identifier of the user code it is
/// about, with the line number inside that code and the message; under identifier zero with
/// the line number of the generated code when no user code holds that line; under identifier
/// zero with `usize::MAX` and the whole line when the line is in no known format.
pub open spec fn error_entry(m: Map<usize, (usize, usize)>, line: Seq<char>) -> (usize, (usize, Seq<char>)) {
    match parse_line(line) {
        Some((n, message)) => match source_of(m, n) {
            Some((id, local)) => (id, (local, message)),
            None => (0, (n, message)),
        },
        None => (0, (usize::MAX, line)),
    }
}

/// Entries grouped by identifier, each group in the order of the entries.
pub open spec fn grouped(s: Seq<(usize, (usize, Seq<char>))>) -> Map<usize, Seq<(usize, Seq<char>)>>
    decreases s.len(),
{
    if s.len() == 0 {
        Map::empty()
    } else {
        let g = grouped(s.drop_last());
        let (k, v) = s.last();
        let before = if g.contains_key(k) {
            g[k]
        } else {
            Seq::empty()
        };
        g.insert(k, before.push(v))
    }
}

/// The messages of a map of messages, as line numbers and texts.
pub open spec fn messages_view(m: Map<usize, Vec<(usize, String)>>) -> Map<usize, Seq<(usize, Seq<char>)>> {
    Map::new(|k: usize| m.contains_key(k), |k: usize| m[k]@.map_values(|p: (usize, String)| (p.0, p.1@)))
}

/// Files the compiler output `error_message` about the generated code whose pieces of user
/// code have the line ranges `line_numbers`: each line of the output, in order, is filed
/// as [`error_entry`] says.
pub fn shader_errors_by_source(error_message: &str, line_numbers: &LineNumbersByKey) -> (result: BTreeMap<usize, Vec<(usize, String)>>)
    requires
        line_numbers.wf(),
    ensures
        messages_view(result@) == grouped(
            lines(error_message@).map_values(|l: Seq<char>| error_entry(line_numbers.map(), l)),
        ),
{
    let ghost m = line_numbers.map();
    let ghost entries = lines(error_message@).map_values(|l: Seq<char>| error_entry(m, l));
    let parsed = shader_error_parser(error_message);
    let mut result: BTreeMap<usize, Vec<(usize, String)>> = BTreeMap::new();
    let mut i: usize = 0;
    proof {
        assert(entries.take(0) =~= Seq::<(usize, (usize, Seq<char>))>::empty());
        assert(messages_view(result@) =~= Map::<usize, Seq<(usize, Seq<char>)>>::empty());
    }
    while i < parsed.len()
        invariant
            line_numbers.wf(),
            m == line_numbers.map(),
            entries == lines(error_message@).map_values(|l: Seq<char>| error_entry(m, l)),
            parsed@.len() == lines(error_message@).len(),
            forall|k: int| 0 <= k < parsed@.len() ==> reads_as(#[trigger] lines(error_message@)[k], parsed@[k]),
            i <= parsed@.len(),
            messages_view(result@) == grouped(entries.take(i as int)),
        decreases parsed@.len() - i,
    {
        let ghost line = lines(error_message@)[i as int];
        assert(reads_as(line, parsed@[i as int]));
        let (key, item) = match parsed[i] {
            Ok((line_no, message)) => {
                let found = line_numbers.get_identifier(line_no);
                proof {
                    let r = match found {
                        Some((id, local)) => Some((id.0, local)),
                        None => None,
                    };
                    assert(locates(m, line_no, r));
                    lemma_locates_unique(m, line_no, r, source_of(m, line_no));
                }
                match found {
                    Some((id, local)) => (id.0, (local, message.to_owned())),
                    None => (0, (line_no, message.to_owned())),
                }
            },
            Err(message) => (0, (usize::MAX, message.to_owned())),
        };
        proof {
            assert(entries[i as int] == error_entry(m, line));
            assert(key == entries[i as int].0);
            assert(item.0 == entries[i as int].1.0);
            assert(item.1@ == entries[i as int].1.1);
        }
        let ghost before = result@;
        let mut list = match result.remove(&key) {
            Some(v) => v,
            None => Vec::new(),
        };
        let ghost list0 = list@;
        list.push(item);
        result.insert(key, list);
        proof {
            let g = grouped(entries.take(i as int));
            let p = entries.take(i + 1);
            assert(p.drop_last() =~= entries.take(i as int));
            assert(p.last() == entries[i as int]);
            let target = grouped(p);
            assert(list0.map_values(|q: (usize, String)| (q.0, q.1@)) =~= if g.contains_key(key) {
                g[key]
            } else {
                Seq::empty()
            }) by {
                if before.contains_key(key) {
                    assert(messages_view(before)[key] == before[key]@.map_values(|q: (usize, String)| (q.0, q.1@)));
                }
            }
            assert(messages_view(result@) =~= target) by {
                assert forall|k: usize| #[trigger] messages_view(result@).contains_key(k) <==> target.contains_key(k) by {
                    if k != key {
                        assert(messages_view(before).contains_key(k) == before.contains_key(k));
                    }
                }
                assert forall|k: usize| #[trigger] messages_view(result@).contains_key(k) implies messages_view(result@)[k]
                    == target[k] by {
                    if k == key {
                        assert(result@[k]@ == list0.push(item));
                        assert(list0.push(item).map_values(|q: (usize, String)| (q.0, q.1@)) =~= list0.map_values(
                            |q: (usize, String)| (q.0, q.1@),
                        ).push((item.0, item.1@)));
                    } else {
                        assert(result@[k] == before[k]);
                        assert(messages_view(before)[k] == before[k]@.map_values(|q: (usize, String)| (q.0, q.1@)));
                    }
                }
            }
        }
        i = i + 1;
    }
    assert(entries.take(i as int) =~= entries);
    result
}

/// A compiler message about a line that traces back to a piece of user code is filed under
/// that piece's identifier, with the line's position inside the piece; one about a line that
/// traces back to no piece is filed under identifier zero with the line number as it came.
pub proof fn lemma_message_filed_at_source(m: Map<usize, (usize, usize)>, line: Seq<char>, n: usize, message: Seq<char>, r: Option<(usize, usize)>)
    requires
        parse_line(line) == Some((n, message)),
        locates(m, n, r),
    ensures
        error_entry(m, line) == match r {
            Some((id, local)) => (id, (local, message)),
            None => (0usize, (n, message)),
        },
{
    lemma_locates_unique(m, n, r, source_of(m, n));
}

/// A compiler message about a line of a piece of user code recorded under a new identifier
/// (as `add_identifier_string` records it) is filed under that identifier, at the line's
/// position inside the piece, unless a smaller identifier also holds that line.
pub proof fn lemma_message_traces_to_code(
    m: Map<usize, (usize, usize)>,
    id: usize,
    r: (usize, usize),
    line: Seq<char>,
    n: usize,
    message: Seq<char>,
)
    requires
        !m.contains_key(id),
        covers(r, n),
        forall|k: usize| #[trigger] m.contains_key(k) && k < id ==> !covers(m[k], n),
        parse_line(line) == Some((n, message)),
    ensures
        error_entry(m.insert(id, r), line) == (id, ((n - r.0 + 1) as usize, message)),
{
    lemma_locates_after_add(m, id, r, n);
    lemma_message_filed_at_source(m.insert(id, r), line, n, message, Some((id, (n - r.0 + 1) as usize)));
}

/// Whether every character of `d` is an ASCII digit.
pub open spec fn all_digits(d: Seq<char>) -> bool {
    forall|k: int| 0 <= k < d.len() ==> is_digit(#[trigger] d[k])
}

/// The number that the digits `d` write in decimal.
pub open spec fn digits_value(d: Seq<char>) -> nat {
    decimal_value(d, 0, d.len() as int)
}

/// Whether `line` is `prefix`, a non-empty run of ASCII digits writing `n`, `suffix` and
/// then `rest`. As every suffix starts with a character that is no digit, the run is the
/// longest one after the prefix.
pub open spec fn reads_with(line: Seq<char>, prefix: Seq<char>, suffix: Seq<char>, n: usize, rest: Seq<char>) -> bool {
    exists|d: Seq<char>|
        #![trigger prefix + d + suffix + rest]
        line == prefix + d + suffix + rest && d.len() > 0 && all_digits(d) && digits_value(d) == n
}

/// Whether `line` reads as line number `n` with message `rest` in one of the three known
/// formats.
pub open spec fn reads_in_a_format(line: Seq<char>, n: usize, rest: Seq<char>) -> bool {
    ||| reads_with(line, native_prefix(), native_error_suffix(), n, rest)
    ||| reads_with(line, native_prefix(), native_warning_suffix(), n, rest)
    ||| reads_with(line, web_prefix(), web_suffix(), n, rest)
}

proof fn lemma_digit_run_all_digits(s: Seq<char>, i: int, k: int)
    requires
        0 <= i <= k < digit_run_end(s, i),
    ensures
        is_digit(s[k]),
    decreases s.len() - i,
{
    if i < k {
        lemma_digit_run_all_digits(s, i + 1, k);
    }
}

proof fn lemma_digit_run_of_digits(s: Seq<char>, i: int, e: int)
    requires
        0 <= i <= e <= s.len(),
        forall|k: int| i <= k < e ==> is_digit(#[trigger] s[k]),
        e < s.len() ==> !is_digit(s[e]),
    ensures
        digit_run_end(s, i) == e,
    decreases e - i,
{
    if i < e {
        lemma_digit_run_of_digits(s, i + 1, e);
    }
}

proof fn lemma_decimal_value_shift(s: Seq<char>, a: int, b: int)
    requires
        0 <= a <= b <= s.len(),
    ensures
        decimal_value(s, a, b) == decimal_value(s.subrange(a, b), 0, b - a),
    decreases b - a,
{
    if a < b {
        lemma_decimal_value_shift(s, a, b - 1);
        let t = s.subrange(a, b);
        let t1 = s.subrange(a, b - 1);
        lemma_decimal_value_prefix(t, b - a - 1);
        assert(t.subrange(0, b - a - 1) =~= t1);
        assert(t[b - a - 1] == s[b - 1]);
    }
}

proof fn lemma_decimal_value_prefix(t: Seq<char>, m: int)
    requires
        0 <= m <= t.len(),
    ensures
        decimal_value(t, 0, m) == decimal_value(t.subrange(0, m), 0, m),
    decreases m,
{
    if m > 0 {
        lemma_decimal_value_prefix(t, m - 1);
        lemma_decimal_value_prefix(t.subrange(0, m), m - 1);
        assert(t.subrange(0, m).subrange(0, m - 1) =~= t.subrange(0, m - 1));
    }
}

/// Reading with one prefix and suffix gives `n` and `rest` exactly when the line is the
/// prefix, a non-empty digit run writing `n`, the suffix and `rest`.
proof fn lemma_parse_with_reads(line: Seq<char>, prefix: Seq<char>, suffix: Seq<char>, n: usize, rest: Seq<char>)
    requires
        suffix.len() > 0,
        !is_digit(suffix[0]),
    ensures
        parse_with(line, prefix, suffix) == Some((n, rest)) <==> reads_with(line, prefix, suffix, n, rest),
{
    let start = prefix.len() as int;
    if parse_with(line, prefix, suffix) == Some((n, rest)) {
        let end = digit_run_end(line, start);
        lemma_digit_run_end(line, start);
        let d = line.subrange(start, end);
        assert forall|k: int| 0 <= k < d.len() implies is_digit(#[trigger] d[k]) by {
            lemma_digit_run_all_digits(line, start, start + k);
        }
        lemma_decimal_value_shift(line, start, end);
        assert(line.subrange(0, start) == prefix);
        assert(line.subrange(end, end + suffix.len()) == suffix);
        assert(line =~= prefix + d + suffix + rest);
    }
    if reads_with(line, prefix, suffix, n, rest) {
        let d = choose|d: Seq<char>|
            #![trigger prefix + d + suffix + rest]
            line == prefix + d + suffix + rest && d.len() > 0 && all_digits(d) && digits_value(d) == n;
        let e = start + d.len();
        assert forall|k: int| start <= k < e implies is_digit(#[trigger] line[k]) by {
            assert(line[k] == d[k - start]);
        }
        assert(line[e] == suffix[0]);
        lemma_digit_run_of_digits(line, start, e);
        assert(line.subrange(start, e) =~= d);
        lemma_decimal_value_shift(line, start, e);
        assert(line.subrange(0, start) =~= prefix);
        assert(line.subrange(e, e + suffix.len()) =~= suffix);
        assert(line.subrange(e + suffix.len(), line.len() as int) =~= rest);
    }
}

/// Reading a line of compiler output: it gives line number `n` and message `rest` exactly
/// when the line is, in one of the three known formats, the format's prefix, a non-empty run
/// of ASCII digits writing `n` (the longest run there), the format's suffix and `rest`. No
/// line fits two formats in different ways, so which one is tried first does not matter.
pub proof fn lemma_parse_line_law(line: Seq<char>, n: usize, rest: Seq<char>)
    ensures
        parse_line(line) == Some((n, rest)) <==> reads_in_a_format(line, n, rest),
{
    lemma_parse_with_reads(line, native_prefix(), native_error_suffix(), n, rest);
    lemma_parse_with_reads(line, native_prefix(), native_warning_suffix(), n, rest);
    lemma_parse_with_reads(line, web_prefix(), web_suffix(), n, rest);
    let e1 = parse_with(line, native_prefix(), native_error_suffix());
    let e2 = parse_with(line, native_prefix(), native_warning_suffix());
    if e1 is Some && e2 is Some {
        let end = digit_run_end(line, 2);
        assert(line.subrange(end, end + 10)[4] == 'e');
        assert(line.subrange(end, end + 12)[4] == 'w');
    }
    if reads_with(line, web_prefix(), web_suffix(), n, rest) && (e1 is Some || e2 is Some) {
        assert(line.subrange(0, 2)[0] == '0');
        assert(line.subrange(0, 9)[0] == 'E');
    }
}

proof fn lemma_next_match_newline(s: Seq<char>, i: int)
    requires
        0 <= i,
    ensures
        next_match(s, i, seq!['\n']) == next_line_break(s, i),
    decreases s.len() - i,
{
    if i < s.len() {
        if s[i] == '\n' {
            assert(s.subrange(i, i + 1) =~= seq!['\n']);
        } else {
            assert(s.subrange(i, i + 1)[0] == s[i]);
            lemma_next_match_newline(s, i + 1);
        }
    }
}

proof fn lemma_bounds_are_split(s: Seq<char>, start: int)
    requires
        0 <= start <= s.len(),
    ensures
        line_bounds_from(s, start) == piece_bounds_from(s, start, seq!['\n']),
    decreases s.len() - start,
{
    lemma_next_match_newline(s, start);
    lemma_next_line_break(s, start);
    let e = next_line_break(s, start);
    if e < s.len() {
        lemma_bounds_are_split(s, e + 1);
    }
}

/// The lines read are the pieces that splitting at each `'\n'` gives, as `str::split` does.
pub proof fn lemma_lines_are_split(s: Seq<char>)
    ensures
        lines(s) == split_pieces(s, seq!['\n']),
{
    lemma_bounds_are_split(s, 0);
}

} // verus!
