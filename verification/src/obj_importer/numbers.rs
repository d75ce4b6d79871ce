//! The numbers of a model file: vertex indices, read to their value, and
//! coordinates, recognized by their form.

use vstd::prelude::*;

verus! {

/// The ten decimal digits.
pub open spec fn is_digit(c: char) -> bool {
    0x30 <= c as u32 <= 0x39
}

/// True when every character of `s` is a decimal digit.
pub open spec fn all_digits(s: Seq<char>) -> bool {
    forall|i: int| 0 <= i < s.len() ==> is_digit(#[trigger] s[i])
}

/// A plus or a minus.
pub open spec fn is_sign(c: char) -> bool {
    c == '+' || c == '-'
}

/// The number that the digits `digits` write in base ten.
pub open spec fn decimal_value(digits: Seq<char>) -> nat
    decreases digits.len(),
{
    if digits.len() == 0 {
        0
    } else {
        10 * decimal_value(digits.drop_last()) + (digits.last() as u32 - 0x30) as nat
    }
}

/// The index of the first `/` in `tok`, or its length when there is none.
pub open spec fn first_slash(tok: Seq<char>) -> int
    decreases tok.len(),
{
    if tok.len() == 0 || tok[0] == '/' {
        0
    } else {
        1 + first_slash(tok.drop_first())
    }
}

/// The number that `text` writes: digits, optionally behind a `+`. `None`
/// when `text` is anything else.
pub open spec fn unsigned_value(text: Seq<char>) -> Option<nat> {
    let digits = if text.len() > 0 && text[0] == '+' {
        text.drop_first()
    } else {
        text
    };
    if digits.len() > 0 && all_digits(digits) {
        Some(decimal_value(digits))
    } else {
        None
    }
}

/// The vertex index that the face token `tok` names, counted from zero. The
/// token writes it counted from one, in front of the first `/` if there is
/// one. `None` when the token writes no number there, writes zero, or writes
/// a number that does not fit in `usize`.
pub open spec fn face_index(tok: Seq<char>) -> Option<usize> {
    match unsigned_value(tok.take(first_slash(tok))) {
        Some(n) => if 1 <= n <= usize::MAX {
            Some((n - 1) as usize)
        } else {
            None
        },
        None => None,
    }
}

fn is_decimal_digit(c: char) -> (b: bool)
    ensures
        b == is_digit(c),
{
    let n = c as u32;
    0x30 <= n && n <= 0x39
}

/// The first `/` of `tok` is at `i` when there is none before `i` and `i`
/// is a `/` or the end.
proof fn lemma_first_slash(tok: Seq<char>, i: int)
    requires
        0 <= i <= tok.len(),
        forall|k: int| 0 <= k < i ==> tok[k] != '/',
        i == tok.len() || tok[i] == '/',
    ensures
        first_slash(tok) == i,
    decreases tok.len(),
{
    if i > 0 {
        let rest = tok.drop_first();
        assert forall|k: int| 0 <= k < i - 1 implies rest[k] != '/' by {
            assert(rest[k] == tok[k + 1]);
        }
        lemma_first_slash(rest, i - 1);
    }
}

/// Reads the vertex index of a face token.
pub(crate) fn parse_face_index(tok: &Vec<char>) -> (index: Option<usize>)
    ensures
        index == face_index(tok@),
{
    let n = tok.len();
    let start: usize = if n > 0 && tok[0] == '+' {
        1
    } else {
        0
    };
    let mut i: usize = start;
    let mut value: usize = 0;
    let mut fits = true;
    while i < n && is_decimal_digit(tok[i])
        invariant
            start <= i <= n,
            n == tok@.len(),
            forall|k: int| start <= k < i ==> is_digit(#[trigger] tok@[k]),
            fits ==> value == decimal_value(tok@.subrange(start as int, i as int)),
            !fits ==> decimal_value(tok@.subrange(start as int, i as int)) > usize::MAX,
        decreases n - i,
    {
        let d = (tok[i] as u32 - 0x30) as usize;
        proof {
            let next = tok@.subrange(start as int, i + 1);
            assert(next.drop_last() =~= tok@.subrange(start as int, i as int));
            assert(next.last() == tok@[i as int]);
        }
        if fits {
            if value > (usize::MAX - d) / 10 {
                fits = false;
            } else {
                value = value * 10 + d;
            }
        }
        i += 1;
    }
    proof {
        let s = tok@;
        let field = s.take(first_slash(s));
        let digits = s.subrange(start as int, i as int);
        assert forall|k: int| 0 <= k < i implies s[k] != '/' by {
            if k >= start {
                assert(is_digit(s[k]));
            }
        }
        if i == n || s[i as int] == '/' {
            lemma_first_slash(s, i as int);
            if start == 1 {
                assert(field.drop_first() =~= digits);
            } else {
                assert(field =~= digits);
                if field.len() > 0 {
                    assert(is_digit(field[0]));
                }
            }
        } else {
            // a character that is neither a digit nor a `/` spoils the field
            let j = first_slash(s);
            lemma_slash_bounds(s);
            if j <= i {
                assert(j == s.len() || s[j] == '/');
            } else {
                let bad = s[i as int];
                if start == 1 {
                    assert(field.drop_first()[i - 1] == bad);
                } else {
                    assert(field[i as int] == bad);
                }
            }
        }
    }
    if i < n && tok[i] != '/' {
        None
    } else if i == start || !fits || value == 0 {
        None
    } else {
        Some(value - 1)
    }
}

/// The first `/` lies within the token, with no `/` before it.
proof fn lemma_slash_bounds(tok: Seq<char>)
    ensures
        0 <= first_slash(tok) <= tok.len(),
        forall|k: int| 0 <= k < first_slash(tok) ==> tok[k] != '/',
        first_slash(tok) == tok.len() || tok[first_slash(tok)] == '/',
    decreases tok.len(),
{
    if tok.len() > 0 && tok[0] != '/' {
        let rest = tok.drop_first();
        lemma_slash_bounds(rest);
        assert forall|k: int| 0 <= k < first_slash(tok) implies tok[k] != '/' by {
            if k > 0 {
                assert(rest[k - 1] == tok[k]);
            }
        }
        if first_slash(tok) < tok.len() {
            assert(rest[first_slash(rest)] == tok[first_slash(tok)]);
        }
    }
}

/// `text` without its sign, if it starts with one.
pub open spec fn unsigned_part(text: Seq<char>) -> Seq<char> {
    if text.len() > 0 && is_sign(text[0]) {
        text.drop_first()
    } else {
        text
    }
}

/// True when `c` is the lower case letter `letter` in either case.
pub open spec fn is_letter(c: char, letter: char) -> bool {
    c as u32 == letter as u32 || c as u32 == letter as u32 - 0x20
}

/// True when `text` is the lower case word `word`, in any mix of cases.
pub open spec fn is_word(text: Seq<char>, word: Seq<char>) -> bool {
    &&& text.len() == word.len()
    &&& forall|i: int| 0 <= i < text.len() ==> is_letter(#[trigger] text[i], word[i])
}

/// The short word for an infinite value.
pub open spec fn word_inf() -> Seq<char> {
    seq!['i', 'n', 'f']
}

/// The long word for an infinite value.
pub open spec fn word_infinity() -> Seq<char> {
    seq!['i', 'n', 'f', 'i', 'n', 'i', 't', 'y']
}

/// The word for a value that is no number.
pub open spec fn word_nan() -> Seq<char> {
    seq!['n', 'a', 'n']
}

/// True when `text` is made of `p` digits and nothing more, or of `p`
/// digits, a point and further digits, with a digit on at least one side of
/// the point.
pub open spec fn is_decimal_at(text: Seq<char>, p: int) -> bool {
    &&& 0 <= p <= text.len()
    &&& all_digits(text.take(p))
    &&& if p == text.len() {
        p > 0
    } else {
        text[p] == '.' && all_digits(text.skip(p + 1)) && text.len() > 1
    }
}

/// A decimal: digits with at most one point among them, before them or
/// behind them.
pub open spec fn is_decimal(text: Seq<char>) -> bool {
    exists|p: int| is_decimal_at(text, p)
}

/// An exponent: `e` or `E`, an optional sign, and at least one digit.
pub open spec fn is_exponent(text: Seq<char>) -> bool {
    &&& text.len() > 0
    &&& is_letter(text[0], 'e')
    &&& unsigned_part(text.drop_first()).len() > 0
    &&& all_digits(unsigned_part(text.drop_first()))
}

/// True when `text` is a decimal of `e` characters, followed by nothing or
/// by an exponent.
pub open spec fn is_number_at(text: Seq<char>, e: int) -> bool {
    &&& 0 <= e <= text.len()
    &&& is_decimal(text.take(e))
    &&& e == text.len() || is_exponent(text.skip(e))
}

/// A number: a decimal with an optional exponent.
pub open spec fn is_number(text: Seq<char>) -> bool {
    exists|e: int| is_number_at(text, e)
}

/// The texts that are read as a coordinate: an optional sign in front of a
/// number or of one of the words `inf`, `infinity` and `nan`.
pub open spec fn is_float_literal(text: Seq<char>) -> bool {
    let body = unsigned_part(text);
    is_word(body, word_inf()) || is_word(body, word_infinity()) || is_word(body, word_nan())
        || is_number(body)
}

/// The end of the run of digits that starts at `from`.
fn digits_run(tok: &Vec<char>, from: usize) -> (to: usize)
    requires
        from <= tok@.len(),
    ensures
        from <= to <= tok@.len(),
        forall|k: int| from <= k < to ==> is_digit(#[trigger] tok@[k]),
        to == tok@.len() || !is_digit(tok@[to as int]),
{
    let mut i = from;
    while i < tok.len() && is_decimal_digit(tok[i])
        invariant
            from <= i <= tok@.len(),
            forall|k: int| from <= k < i ==> is_digit(#[trigger] tok@[k]),
        decreases tok@.len() - i,
    {
        i += 1;
    }
    i
}

/// Compares the characters of `tok` from `from` on with a lower case word.
fn matches_word(tok: &Vec<char>, from: usize, word: &Vec<char>) -> (b: bool)
    requires
        from <= tok@.len(),
        forall|i: int| 0 <= i < word@.len() ==> 0x61 <= (#[trigger] word@[i]) as u32 <= 0x7a,
    ensures
        b == is_word(tok@.skip(from as int), word@),
{
    let n = tok.len();
    if n - from != word.len() {
        return false;
    }
    let ghost text = tok@.skip(from as int);
    let mut i: usize = 0;
    while i < word.len()
        invariant
            from <= tok@.len(),
            n == tok@.len(),
            tok@.len() - from == word@.len(),
            text == tok@.skip(from as int),
            i <= word@.len(),
            forall|k: int| 0 <= k < i ==> is_letter(#[trigger] text[k], word@[k]),
            forall|i: int| 0 <= i < word@.len() ==> 0x61 <= (#[trigger] word@[i]) as u32 <= 0x7a,
        decreases word@.len() - i,
    {
        let c = tok[from + i] as u32;
        let w = word[i] as u32;
        assert(text[i as int] == tok@[from + i]);
        if !(c == w || c == w - 0x20) {
            return false;
        }
        i += 1;
    }
    true
}

/// A number can be split into a decimal and an exponent in one way only:
/// the digits before the point end where the first run of digits ends, and
/// the decimal ends where the digits behind the point end.
proof fn lemma_number_shape(u: Seq<char>, r1: int, has_point: bool, r2: int, e: int, p: int)
    requires
        0 <= r1 <= u.len(),
        forall|k: int| 0 <= k < r1 ==> is_digit(#[trigger] u[k]),
        r1 == u.len() || !is_digit(u[r1]),
        has_point == (r1 < u.len() && u[r1] == '.'),
        has_point ==> r1 + 1 <= r2 <= u.len(),
        has_point ==> forall|k: int| r1 < k < r2 ==> is_digit(#[trigger] u[k]),
        has_point ==> r2 == u.len() || !is_digit(u[r2]),
        !has_point ==> r2 == r1,
        is_number_at(u, e),
        is_decimal_at(u.take(e), p),
    ensures
        p == r1,
        e == r2,
        r1 + (if has_point {
            r2 - r1 - 1
        } else {
            0
        }) > 0,
{
    let d = u.take(e);
    assert forall|k: int| 0 <= k < p implies is_digit(u[k]) by {
        assert(d.take(p)[k] == u[k]);
    }
    if e < u.len() {
        assert(u.skip(e)[0] == u[e]);
        assert(!is_digit(u[e]));
    }
    if p < e {
        assert(d[p] == u[p]);
        assert forall|k: int| p < k < e implies is_digit(u[k]) by {
            assert(d.skip(p + 1)[k - p - 1] == u[k]);
        }
    }
    if r1 < p {
        assert(is_digit(u[r1]));
    }
    if p < r1 {
        assert(is_digit(u[p]));
    }
    if p < e {
        if r2 < e {
            assert(is_digit(u[r2]));
        }
        if e < r2 {
            assert(is_digit(u[e]));
        }
    }
}

/// Recognizes a number in the characters of `tok` from `from` on.
fn is_number_text(tok: &Vec<char>, from: usize) -> (b: bool)
    requires
        from <= tok@.len(),
    ensures
        b == is_number(tok@.skip(from as int)),
{
    let n = tok.len();
    let ghost u = tok@.skip(from as int);
    let i1 = digits_run(tok, from);
    let has_point = i1 < n && tok[i1] == '.';
    let i2 = if has_point {
        digits_run(tok, i1 + 1)
    } else {
        i1
    };
    let mantissa = (i1 - from) + (if has_point {
        i2 - i1 - 1
    } else {
        0
    });
    let ghost r1 = i1 - from;
    let ghost r2 = i2 - from;
    proof {
        assert forall|k: int| 0 <= k < r1 implies is_digit(#[trigger] u[k]) by {
            assert(u[k] == tok@[from + k]);
        }
        if r1 < u.len() {
            assert(u[r1] == tok@[i1 as int]);
        }
        if has_point {
            assert forall|k: int| r1 < k < r2 implies is_digit(#[trigger] u[k]) by {
                assert(u[k] == tok@[from + k]);
            }
            if r2 < u.len() {
                assert(u[r2] == tok@[i2 as int]);
            }
        }
        if mantissa > 0 {
            let d = u.take(r2);
            assert forall|k: int| 0 <= k < d.take(r1).len() implies is_digit(
                #[trigger] d.take(r1)[k],
            ) by {
                assert(d.take(r1)[k] == u[k]);
            }
            if has_point {
                assert(d[r1] == u[r1]);
                assert forall|k: int| 0 <= k < d.skip(r1 + 1).len() implies is_digit(
                    #[trigger] d.skip(r1 + 1)[k],
                ) by {
                    assert(d.skip(r1 + 1)[k] == u[r1 + 1 + k]);
                }
            }
            assert(is_decimal_at(d, r1));
        }
    }
    let exponent = if i2 == n {
        true
    } else {
        let c = tok[i2] as u32;
        if c == 0x65 || c == 0x45 {
            let j = if i2 + 1 < n && (tok[i2 + 1] == '+' || tok[i2 + 1] == '-') {
                i2 + 2
            } else {
                i2 + 1
            };
            let k = digits_run(tok, j);
            proof {
                let x = u.skip(r2);
                let y = x.drop_first();
                let digits = unsigned_part(y);
                assert(x[0] == u[r2]);
                assert(y =~= tok@.skip(i2 + 1));
                if y.len() > 0 {
                    assert(y[0] == tok@[i2 + 1]);
                }
                assert(digits =~= tok@.skip(j as int));
                if j < k && k == n {
                    assert forall|q: int| 0 <= q < digits.len() implies is_digit(
                        #[trigger] digits[q],
                    ) by {
                        assert(digits[q] == tok@[j + q]);
                    }
                }
                if digits.len() > 0 && all_digits(digits) {
                    if k < n {
                        assert(digits[k - j] == tok@[k as int]);
                    }
                }
                assert(is_exponent(x) == (j < k && k == n));
            }
            j < k && k == n
        } else {
            proof {
                assert(u.skip(r2)[0] == u[r2]);
                assert(!is_exponent(u.skip(r2)));
            }
            false
        }
    };
    proof {
        assert(exponent == (r2 == u.len() || is_exponent(u.skip(r2))));
        if mantissa > 0 && exponent {
            assert(is_number_at(u, r2));
        } else {
            assert forall|e: int| !is_number_at(u, e) by {
                if is_number_at(u, e) {
                    let p = choose|p: int| is_decimal_at(u.take(e), p);
                    lemma_number_shape(u, r1, has_point, r2, e, p);
                }
            }
        }
    }
    mantissa > 0 && exponent
}

/// Recognizes a coordinate: a signed number or one of the words for the
/// values that are no numbers.
pub(crate) fn is_coordinate(tok: &Vec<char>) -> (b: bool)
    ensures
        b == is_float_literal(tok@),
{
    let from: usize = if tok.len() > 0 && (tok[0] == '+' || tok[0] == '-') {
        1
    } else {
        0
    };
    let inf = vec!['i', 'n', 'f'];
    let infinity = vec!['i', 'n', 'f', 'i', 'n', 'i', 't', 'y'];
    let nan = vec!['n', 'a', 'n'];
    proof {
        assert(unsigned_part(tok@) =~= tok@.skip(from as int));
        assert(inf@ =~= word_inf());
        assert(infinity@ =~= word_infinity());
        assert(nan@ =~= word_nan());
    }
    matches_word(tok, from, &inf) || matches_word(tok, from, &infinity) || matches_word(
        tok,
        from,
        &nan,
    ) || is_number_text(tok, from)
}

} // verus!
