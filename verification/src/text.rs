use vstd::prelude::*;

verus! {

/// The characters of `s`, one by one.
pub fn chars_of(s: &str) -> (result: Vec<char>)
    ensures
        result@ == s@,
{
    let mut result: Vec<char> = Vec::new();
    for c in it: s.chars()
        invariant
            result@ == it.seq().subrange(0, it.index()),
    {
        result.push(c);
    }
    proof {
        broadcast use vstd::string::group_string_axioms;
    }
    result
}

/// Appends one character to a string: `String::push`.
#[verifier::external_body]
pub fn push_char(s: &mut String, c: char)
    ensures
        final(s)@ == old(s)@.push(c),
{
    s.push(c);
}

/// How many times `c` occurs in `s`.
pub open spec fn count_char(s: Seq<char>, c: char) -> nat
    decreases s.len(),
{
    if s.len() == 0 {
        0
    } else {
        count_char(s.drop_last(), c) + if s.last() == c {
            1nat
        } else {
            0nat
        }
    }
}

/// Counting is additive over concatenation.
pub proof fn lemma_count_char_concat(a: Seq<char>, b: Seq<char>, c: char)
    ensures
        count_char(a + b, c) == count_char(a, c) + count_char(b, c),
    decreases b.len(),
{
    if b.len() == 0 {
        assert(a + b =~= a);
    } else {
        lemma_count_char_concat(a, b.drop_last(), c);
        assert((a + b).drop_last() =~= a + b.drop_last());
    }
}

/// How many times `c` occurs in `s`.
pub fn count_occurrences(s: &str, c: char) -> (n: usize)
    ensures
        n == count_char(s@, c),
{
    let v = chars_of(s);
    let mut n: usize = 0;
    let mut i: usize = 0;
    while i < v.len()
        invariant
            i <= v@.len(),
            n == count_char(v@.subrange(0, i as int), c),
            n <= i,
        decreases v@.len() - i,
    {
        assert(v@.subrange(0, i + 1).drop_last() =~= v@.subrange(0, i as int));
        if v[i] == c {
            n = n + 1;
        }
        i = i + 1;
    }
    assert(v@.subrange(0, i as int) =~= v@);
    n
}

/// Whether `s[at..]` begins with `pattern`.
pub open spec fn has_at(s: Seq<char>, at: int, pattern: Seq<char>) -> bool {
    0 <= at && at + pattern.len() <= s.len() && s.subrange(at, at + pattern.len()) == pattern
}

/// Whether `pattern` occurs in `line` at index `at`.
pub fn matches_at(line: &Vec<char>, at: usize, pattern: &Vec<char>) -> (result: bool)
    requires
        at <= line@.len(),
    ensures
        result == has_at(line@, at as int, pattern@),
{
    if pattern.len() > line.len() - at {
        return false;
    }
    let mut k: usize = 0;
    while k < pattern.len()
        invariant
            at + pattern@.len() <= line@.len(),
            line@.len() == line.len(),
            k <= pattern@.len(),
            forall|m: int| 0 <= m < k ==> line@[at + m] == pattern@[m],
        decreases pattern@.len() - k,
    {
        if line[at + k] != pattern[k] {
            assert(line@.subrange(at as int, at + pattern@.len())[k as int] != pattern@[k as int]);
            return false;
        }
        k = k + 1;
    }
    assert(line@.subrange(at as int, at + pattern@.len()) =~= pattern@);
    true
}

/// The first index at or after `i` where `pattern` occurs in `s`, or the length of `s`.
pub open spec fn next_match(s: Seq<char>, i: int, pattern: Seq<char>) -> int
    decreases s.len() - i,
{
    if i >= s.len() {
        s.len() as int
    } else if has_at(s, i, pattern) {
        i
    } else {
        next_match(s, i + 1, pattern)
    }
}

pub proof fn lemma_next_match(s: Seq<char>, i: int, pattern: Seq<char>)
    requires
        0 <= i <= s.len(),
    ensures
        i <= next_match(s, i, pattern) <= s.len(),
        next_match(s, i, pattern) < s.len() ==> has_at(s, next_match(s, i, pattern), pattern),
    decreases s.len() - i,
{
    if i < s.len() && !has_at(s, i, pattern) {
        lemma_next_match(s, i + 1, pattern);
    }
}

/// The bounds of the pieces of `s` from index `start` on, cut at each occurrence of
/// `pattern` (searched from left to right, occurrences do not overlap).
pub open spec fn piece_bounds_from(s: Seq<char>, start: int, pattern: Seq<char>) -> Seq<(int, int)>
    decreases s.len() - start, 1int,
{
    let e = next_match(s, start, pattern);
    if 0 <= start <= s.len() && pattern.len() > 0 && e < s.len() {
        proof {
            lemma_next_match(s, start, pattern);
        }
        seq![(start, e)] + piece_bounds_from(s, e + pattern.len(), pattern)
    } else {
        seq![(start, e)]
    }
}

/// The pieces of `s` between the occurrences of `pattern`, as `str::split` gives them.
pub open spec fn split_pieces(s: Seq<char>, pattern: Seq<char>) -> Seq<Seq<char>> {
    piece_bounds_from(s, 0, pattern).map_values(|b: (int, int)| s.subrange(b.0, b.1))
}

/// Splits `s` at each occurrence of `pattern`.
pub fn split_on<'a>(s: &'a str, pattern: &Vec<char>) -> (result: Vec<&'a str>)
    requires
        pattern@.len() > 0,
    ensures
        result@.len() == split_pieces(s@, pattern@).len(),
        forall|k: int| 0 <= k < result@.len() ==> (#[trigger] result@[k])@ == split_pieces(s@, pattern@)[k],
{
    let v = chars_of(s);
    let n = v.len();
    let ghost bounds = piece_bounds_from(v@, 0, pattern@);
    let ghost mut done: Seq<(int, int)> = seq![];
    let mut result: Vec<&'a str> = Vec::new();
    let mut start: usize = 0;
    let mut finished = false;
    while !finished
        invariant
            v@ == s@,
            n == v@.len(),
            pattern@.len() > 0,
            start <= n,
            bounds == piece_bounds_from(v@, 0, pattern@),
            !finished ==> bounds == done + piece_bounds_from(v@, start as int, pattern@),
            finished ==> bounds == done,
            result@.len() == done.len(),
            forall|k: int| 0 <= k < done.len() ==> 0 <= (#[trigger] done[k]).0 <= done[k].1 <= n,
            forall|k: int| 0 <= k < done.len() ==> (#[trigger] result@[k])@ == v@.subrange(done[k].0, done[k].1),
        decreases n - start + if finished { 0int } else { 1int },
    {
        let mut end = start;
        while end < n && !matches_at(&v, end, pattern)
            invariant
                start <= end <= n,
                n == v@.len(),
                next_match(v@, end as int, pattern@) == next_match(v@, start as int, pattern@),
            decreases n - end,
        {
            end = end + 1;
        }
        proof {
            lemma_next_match(v@, start as int, pattern@);
        }
        let piece = s.substring_char(start, end);
        result.push(piece);
        proof {
            done = done.push((start as int, end as int));
        }
        if end < n {
            assert(end + pattern@.len() <= n);
            proof {
                assert(piece_bounds_from(v@, start as int, pattern@) == seq![(start as int, end as int)]
                    + piece_bounds_from(v@, end + pattern@.len(), pattern@));
                assert(bounds =~= done + piece_bounds_from(v@, end + pattern@.len(), pattern@));
            }
            start = end + pattern.len();
        } else {
            proof {
                assert(bounds =~= done);
            }
            finished = true;
        }
    }
    result
}

/// The character of the decimal digit `d`.
pub open spec fn digit_char(d: nat) -> char {
    ('0' as int + d) as char
}

/// `n` written in decimal, without leading zeros.
pub open spec fn decimal(n: nat) -> Seq<char>
    decreases n,
{
    if n < 10 {
        seq![digit_char(n)]
    } else {
        decimal(n / 10).push(digit_char(n % 10))
    }
}

fn digit_to_char(d: usize) -> (c: char)
    requires
        d < 10,
    ensures
        c == digit_char(d as nat),
{
    match d {
        0 => '0',
        1 => '1',
        2 => '2',
        3 => '3',
        4 => '4',
        5 => '5',
        6 => '6',
        7 => '7',
        8 => '8',
        _ => '9',
    }
}

/// Appends `n`, written in decimal, to `out`.
pub fn push_decimal(out: &mut String, n: usize)
    ensures
        final(out)@ == old(out)@ + decimal(n as nat),
    decreases n,
{
    if n < 10 {
        push_char(out, digit_to_char(n));
        assert(final(out)@ =~= old(out)@ + decimal(n as nat)) by {
            assert(decimal(n as nat) == seq![digit_char(n as nat)]);
        }
    } else {
        push_decimal(out, n / 10);
        push_char(out, digit_to_char(n % 10));
    }
}

/// Whether `a` and `b` hold the same characters.
pub fn same_text(a: &str, b: &str) -> (result: bool)
    ensures
        result == (a@ == b@),
{
    let x = chars_of(a);
    let y = chars_of(b);
    if x.len() != y.len() {
        return false;
    }
    let mut i: usize = 0;
    while i < x.len()
        invariant
            x@ == a@,
            y@ == b@,
            x@.len() == y@.len(),
            i <= x@.len(),
            forall|k: int| 0 <= k < i ==> x@[k] == y@[k],
        decreases x@.len() - i,
    {
        if x[i] != y[i] {
            assert(x@[i as int] != y@[i as int]);
            return false;
        }
        i = i + 1;
    }
    assert(x@ =~= y@);
    true
}

} // verus!
