//! Splitting a line into tokens at white space.

use vstd::prelude::*;
use vstd::string::group_string_axioms;

verus! {

/// The white space characters: those with the Unicode property
/// `White_Space`.
#[verifier::opaque]
pub open spec fn is_whitespace(c: char) -> bool {
    let n = c as u32;
    ||| 0x09 <= n <= 0x0d
    ||| n == 0x20
    ||| n == 0x85
    ||| n == 0xa0
    ||| n == 0x1680
    ||| 0x2000 <= n <= 0x200a
    ||| n == 0x2028
    ||| n == 0x2029
    ||| n == 0x202f
    ||| n == 0x205f
    ||| n == 0x3000
}

/// The tokens of `s` as ranges of indices, the first index included and the
/// last excluded: the longest runs of characters that are not white space,
/// from left to right.
pub open spec fn token_ranges(s: Seq<char>) -> Seq<(int, int)>
    decreases s.len(),
{
    if s.len() == 0 {
        Seq::empty()
    } else {
        let n = s.len() - 1;
        let before = token_ranges(s.drop_last());
        if is_whitespace(s[n]) {
            before
        } else if n > 0 && !is_whitespace(s[n - 1]) {
            before.update(before.len() - 1, (before.last().0, n + 1))
        } else {
            before.push((n, n + 1))
        }
    }
}

/// The tokens of `s`.
pub open spec fn tokens(s: Seq<char>) -> Seq<Seq<char>> {
    Seq::new(token_ranges(s).len(), |i: int| s.subrange(token_ranges(s)[i].0, token_ranges(s)[i].1))
}

fn is_space(c: char) -> (b: bool)
    ensures
        b == is_whitespace(c),
{
    reveal(is_whitespace);
    let n = c as u32;
    (0x09 <= n && n <= 0x0d) || n == 0x20 || n == 0x85 || n == 0xa0 || n == 0x1680 || (0x2000 <= n
        && n <= 0x200a) || n == 0x2028 || n == 0x2029 || n == 0x202f || n == 0x205f || n == 0x3000
}

/// The characters of `line`, one by one.
pub(crate) fn chars_of(line: &str) -> (chars: Vec<char>)
    ensures
        chars@ == line@,
{
    broadcast use group_string_axioms;

    let mut chars: Vec<char> = Vec::new();
    for c in it: line.chars()
        invariant
            it.seq() == line@,
            chars@ == it.seq().take(it.index() as int),
    {
        chars.push(c);
        proof {
            assert(it.seq().take(it.index() + 1) =~= it.seq().take(it.index() as int).push(c));
        }
    }
    proof {
        assert(line@.take(line@.len() as int) =~= line@);
    }
    chars
}

/// True when `spans` holds the ranges `ranges`.
pub open spec fn spans_match(spans: Seq<(usize, usize)>, ranges: Seq<(int, int)>) -> bool {
    &&& spans.len() == ranges.len()
    &&& forall|j: int|
        0 <= j < spans.len() ==> (#[trigger] spans[j]).0 == ranges[j].0 && spans[j].1 == ranges[j].1
}

/// True when no character of `s` from index `a` up to `b` is white space.
pub open spec fn no_space(s: Seq<char>, a: int, b: int) -> bool {
    forall|k: int| a <= k < b ==> !is_whitespace(#[trigger] s[k])
}

/// True when `r` is a longest run of characters of `s` that are not white
/// space: it is not empty, holds no white space, and is bounded on each
/// side by white space or by an end of `s`.
pub open spec fn is_run(s: Seq<char>, r: (int, int)) -> bool {
    &&& 0 <= r.0 < r.1 <= s.len()
    &&& no_space(s, r.0, r.1)
    &&& r.0 == 0 || is_whitespace(s[r.0 - 1])
    &&& r.1 == s.len() || is_whitespace(s[r.1])
}

/// True when `ranges` are runs of `s`, each behind the one before it.
pub open spec fn runs_in_order(s: Seq<char>, ranges: Seq<(int, int)>) -> bool {
    forall|j: int|
        0 <= j < ranges.len() ==> is_run(s, #[trigger] ranges[j]) && (j > 0 ==> ranges[j - 1].1
            < ranges[j].0)
}

/// True when the last of `ranges` ends where `s` ends if `s` ends in a
/// token, and before that if it ends in white space.
pub open spec fn last_run_ends(s: Seq<char>, ranges: Seq<(int, int)>) -> bool {
    &&& s.len() > 0 && !is_whitespace(s.last()) ==> ranges.len() > 0 && ranges.last().1 == s.len()
    &&& s.len() > 0 && is_whitespace(s.last()) && ranges.len() > 0 ==> ranges.last().1 < s.len()
    &&& s.len() == 0 ==> ranges.len() == 0
}

/// A run stays a run when a character is added behind white space or is
/// white space itself.
proof fn lemma_run_kept(t: Seq<char>, c: char, r: (int, int))
    requires
        is_run(t, r),
        r.1 < t.len() || is_whitespace(c),
    ensures
        is_run(t.push(c), r),
{
    let s = t.push(c);
    assert forall|k: int| r.0 <= k < r.1 implies !is_whitespace(#[trigger] s[k]) by {
        assert(s[k] == t[k]);
    }
    if r.0 > 0 {
        assert(s[r.0 - 1] == t[r.0 - 1]);
    }
    if r.1 < t.len() {
        assert(s[r.1] == t[r.1]);
    } else {
        assert(s[r.1] == c);
    }
}

/// A run at the end of the text grows by a character that is not white
/// space.
proof fn lemma_run_grown(t: Seq<char>, c: char, r: (int, int))
    requires
        is_run(t, r),
        r.1 == t.len(),
        !is_whitespace(c),
    ensures
        is_run(t.push(c), (r.0, r.1 + 1)),
{
    let s = t.push(c);
    assert forall|k: int| r.0 <= k < r.1 + 1 implies !is_whitespace(#[trigger] s[k]) by {
        if k < r.1 {
            assert(s[k] == t[k]);
        }
    }
    if r.0 > 0 {
        assert(s[r.0 - 1] == t[r.0 - 1]);
    }
}

/// A character that is not white space, added behind white space or to an
/// empty text, is a run of its own.
proof fn lemma_run_begun(t: Seq<char>, c: char)
    requires
        !is_whitespace(c),
        t.len() == 0 || is_whitespace(t.last()),
    ensures
        is_run(t.push(c), (t.len() as int, t.len() as int + 1)),
{
    let s = t.push(c);
    if t.len() > 0 {
        assert(s[t.len() - 1] == t.last());
    }
}

/// The tokens are the longest runs of characters that are not white space,
/// from left to right.
#[verifier::rlimit(50)]
pub proof fn lemma_token_ranges(s: Seq<char>)
    ensures
        runs_in_order(s, token_ranges(s)),
        last_run_ends(s, token_ranges(s)),
    decreases s.len(),
{
    if s.len() > 0 {
        let n = s.len() - 1;
        let t = s.drop_last();
        let c = s.last();
        let before = token_ranges(t);
        let after = token_ranges(s);
        lemma_token_ranges(t);
        assert(s =~= t.push(c));
        if n > 0 {
            assert(t.last() == s[n - 1]);
        }
        if is_whitespace(c) {
            assert forall|j: int| 0 <= j < after.len() implies is_run(s, #[trigger] after[j]) && (j
                > 0 ==> after[j - 1].1 < after[j].0) by {
                assert(is_run(t, before[j]));
                lemma_run_kept(t, c, before[j]);
            }
        } else if n > 0 && !is_whitespace(s[n - 1]) {
            let m = before.len() - 1;
            assert forall|j: int| 0 <= j < after.len() implies is_run(s, #[trigger] after[j]) && (j
                > 0 ==> after[j - 1].1 < after[j].0) by {
                assert(is_run(t, before[j]));
                if j < m {
                    assert(is_run(t, before[j + 1]));
                    lemma_run_kept(t, c, before[j]);
                } else {
                    lemma_run_grown(t, c, before[m]);
                }
            }
        } else {
            assert forall|j: int| 0 <= j < after.len() implies is_run(s, #[trigger] after[j]) && (j
                > 0 ==> after[j - 1].1 < after[j].0) by {
                if j < before.len() {
                    assert(is_run(t, before[j]));
                    if j + 1 < before.len() {
                        assert(is_run(t, before[j + 1]));
                    }
                    lemma_run_kept(t, c, before[j]);
                } else {
                    lemma_run_begun(t, c);
                    if j > 0 {
                        assert(is_run(t, before[j - 1]));
                    }
                }
            }
        }
    }
}

/// Every character that is not white space belongs to a token.
pub proof fn lemma_tokens_cover(s: Seq<char>, k: int)
    requires
        0 <= k < s.len(),
        !is_whitespace(s[k]),
    ensures
        exists|j: int|
            0 <= j < token_ranges(s).len() && (#[trigger] token_ranges(s)[j]).0 <= k < token_ranges(
                s,
            )[j].1,
    decreases s.len(),
{
    let n = s.len() - 1;
    let t = s.drop_last();
    let before = token_ranges(t);
    lemma_token_ranges(s);
    lemma_token_ranges(t);
    if k < n {
        lemma_tokens_cover(t, k);
        let j = choose|j: int|
            0 <= j < before.len() && (#[trigger] before[j]).0 <= k < before[j].1;
        assert(is_run(t, before[j]));
        assert(token_ranges(s)[j].0 <= k < token_ranges(s)[j].1);
    } else {
        let j = token_ranges(s).len() - 1;
        assert(token_ranges(s)[j].0 <= k < token_ranges(s)[j].1);
    }
}

/// How the tokens change when the character at `i` is added to the first
/// `i` characters of `s`: white space adds nothing, a character behind
/// another one of a token lengthens the last token, and any other character
/// begins a token.
proof fn lemma_token_step(s: Seq<char>, i: int)
    requires
        0 <= i < s.len(),
    ensures
        ({
            let before = token_ranges(s.take(i));
            let after = token_ranges(s.take(i + 1));
            if is_whitespace(s[i]) {
                after == before
            } else if i > 0 && !is_whitespace(s[i - 1]) {
                &&& before.len() > 0
                &&& 0 <= before.last().0 < i
                &&& after == before.update(before.len() - 1, (before.last().0, i + 1))
            } else {
                after == before.push((i, i + 1))
            }
        }),
{
    let next = s.take(i + 1);
    assert(next.drop_last() =~= s.take(i));
    assert(next[i] == s[i]);
    lemma_token_ranges(s.take(i));
    if i > 0 {
        assert(next[i - 1] == s[i - 1]);
        assert(s.take(i).last() == s[i - 1]);
        if !is_whitespace(s[i - 1]) {
            let before = token_ranges(s.take(i));
            assert(is_run(s.take(i), before[before.len() - 1]));
        }
    }
}

/// Splits `chars` into its tokens.
pub(crate) fn token_spans(chars: &Vec<char>) -> (spans: Vec<(usize, usize)>)
    ensures
        spans_match(spans@, token_ranges(chars@)),
{
    let mut spans: Vec<(usize, usize)> = Vec::new();
    let mut in_token = false;
    let mut i: usize = 0;
    while i < chars.len()
        invariant
            i <= chars@.len(),
            spans_match(spans@, token_ranges(chars@.take(i as int))),
            in_token == (i > 0 && !is_whitespace(chars@[i - 1])),
        decreases chars@.len() - i,
    {
        let c = chars[i];
        let ghost before = token_ranges(chars@.take(i as int));
        let ghost after = token_ranges(chars@.take(i + 1));
        proof {
            lemma_token_step(chars@, i as int);
        }
        if is_space(c) {
            in_token = false;
        } else if in_token {
            let last = spans.len() - 1;
            let start = spans[last].0;
            spans.set(last, (start, i + 1));
            assert(spans_match(spans@, after));
        } else {
            spans.push((i, i + 1));
            in_token = true;
            assert(spans_match(spans@, after));
        }
        i += 1;
    }
    proof {
        assert(chars@.take(chars@.len() as int) =~= chars@);
    }
    spans
}

/// The characters of one token.
pub(crate) fn token_text(chars: &Vec<char>, span: (usize, usize)) -> (text: Vec<char>)
    requires
        span.0 <= span.1 <= chars@.len(),
    ensures
        text@ == chars@.subrange(span.0 as int, span.1 as int),
{
    let mut text: Vec<char> = Vec::new();
    let mut i = span.0;
    while i < span.1
        invariant
            span.0 <= i <= span.1 <= chars@.len(),
            text@ == chars@.subrange(span.0 as int, i as int),
        decreases span.1 - i,
    {
        text.push(chars[i]);
        proof {
            assert(chars@.subrange(span.0 as int, i + 1) =~= chars@.subrange(
                span.0 as int,
                i as int,
            ).push(chars@[i as int]));
        }
        i += 1;
    }
    text
}

} // verus!
