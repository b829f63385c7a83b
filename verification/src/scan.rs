//! Scanning HTML and script text for fixed markers: runs of a character
//! class, and the leftmost position at which a marker pattern matches.

use vstd::prelude::*;

use crate::text::{is_whitespace, is_ws, matches_at, occurs_at};

verus! {

/// Length of the run of characters satisfying `p` that starts at `i`.
pub open spec fn run_of(s: Seq<char>, i: int, p: spec_fn(char) -> bool) -> nat
    decreases s.len() - i,
{
    if i < 0 || i >= s.len() || !p(s[i]) {
        0
    } else {
        1 + run_of(s, i + 1, p)
    }
}

pub proof fn lemma_run_of_exact(s: Seq<char>, i: int, p: spec_fn(char) -> bool, m: int)
    requires
        0 <= i,
        0 <= m,
        i + m <= s.len(),
        forall|k: int| i <= k < i + m ==> p(#[trigger] s[k]),
        i + m < s.len() ==> !p(s[i + m]),
    ensures
        run_of(s, i, p) == m,
    decreases m,
{
    if m > 0 {
        lemma_run_of_exact(s, i + 1, p, m - 1);
    }
}

pub open spec fn ws_pred() -> spec_fn(char) -> bool {
    |c: char| is_ws(c)
}

/// Whitespace characters from `i` on.
pub open spec fn ws_count(s: Seq<char>, i: int) -> nat {
    run_of(s, i, ws_pred())
}

pub open spec fn not_char_pred(q: char) -> spec_fn(char) -> bool {
    |c: char| c != q
}

/// Characters other than `q` from `i` on.
pub open spec fn not_char_count(s: Seq<char>, i: int, q: char) -> nat {
    run_of(s, i, not_char_pred(q))
}

pub fn ws_run(s: &[char], i: usize) -> (r: usize)
    requires
        i <= s@.len(),
    ensures
        i <= r <= s@.len(),
        r - i == ws_count(s@, i as int),
{
    let mut j = i;
    while j < s.len() && is_whitespace(s[j])
        invariant
            i <= j <= s@.len(),
            forall|k: int| i <= k < j ==> is_ws(#[trigger] s@[k]),
        decreases s@.len() - j,
    {
        j = j + 1;
    }
    proof {
        lemma_run_of_exact(s@, i as int, ws_pred(), j - i);
    }
    j
}

pub fn not_char_run(s: &[char], i: usize, q: char) -> (r: usize)
    requires
        i <= s@.len(),
    ensures
        i <= r <= s@.len(),
        r - i == not_char_count(s@, i as int, q),
{
    let mut j = i;
    while j < s.len() && s[j] != q
        invariant
            i <= j <= s@.len(),
            forall|k: int| i <= k < j ==> #[trigger] s@[k] != q,
        decreases s@.len() - j,
    {
        j = j + 1;
    }
    proof {
        lemma_run_of_exact(s@, i as int, not_char_pred(q), j - i);
    }
    j
}

/// The first capture found scanning positions `i..=n` left to right.
pub open spec fn leftmost_from(f: spec_fn(int) -> Option<Seq<char>>, i: int, n: int) -> Option<
    Seq<char>,
>
    decreases n + 1 - i,
{
    if i > n {
        None
    } else {
        match f(i) {
            Some(c) => Some(c),
            None => leftmost_from(f, i + 1, n),
        }
    }
}

pub proof fn lemma_leftmost_step(f: spec_fn(int) -> Option<Seq<char>>, i: int, n: int)
    ensures
        i > n ==> leftmost_from(f, i, n) is None,
        i <= n ==> leftmost_from(f, i, n) == match f(i) {
            Some(c) => Some(c),
            None => leftmost_from(f, i + 1, n),
        },
{
}

/// Matches a literal at `i`; returns the position after it.
pub fn literal_at(s: &[char], lit: &[char], i: usize) -> (r: Option<usize>)
    ensures
        occurs_at(s@, lit@, i as int) ==> (r matches Some(j) && j == i + lit@.len()),
        !occurs_at(s@, lit@, i as int) ==> r is None,
{
    let n = s.len();
    if matches_at(s, lit, i) {
        assert(i + lit@.len() <= n);
        Some(i + lit.len())
    } else {
        None
    }
}

// ---------- decimal digits ----------

/// Whether `c` is in Unicode category Nd, the class of the regex `\d`.
pub uninterp spec fn unicode_decimal_digit(c: char) -> bool;

/// `Regex::is_match` of `^\d$` on one character: whether it is a Unicode
/// decimal digit (category Nd). Of ASCII characters exactly `0`-`9` are.
#[verifier::external_body]
pub(crate) fn is_decimal_digit(c: char) -> (b: bool)
    ensures
        b == unicode_decimal_digit(c),
        c <= '\u{7f}' ==> (b == ('0' <= c && c <= '9')),
{
    let mut buf = [0u8; 4];
    regex::Regex::new(r"^\d$").expect("static regex").is_match(c.encode_utf8(&mut buf))
}

pub open spec fn digit_pred() -> spec_fn(char) -> bool {
    |c: char| unicode_decimal_digit(c)
}

pub(crate) fn digit_run(s: &[char], i: usize) -> (r: usize)
    requires
        i <= s@.len(),
    ensures
        i <= r <= s@.len(),
        r - i == run_of(s@, i as int, digit_pred()),
{
    let mut j = i;
    while j < s.len() && is_decimal_digit(s[j])
        invariant
            i <= j <= s@.len(),
            forall|k: int| i <= k < j ==> unicode_decimal_digit(#[trigger] s@[k]),
        decreases s@.len() - j,
    {
        j = j + 1;
    }
    proof {
        lemma_run_of_exact(s@, i as int, digit_pred(), j - i);
    }
    j
}

} // verus!
