//! Character-level text primitives shared by the scorer, the matcher and
//! the entity extractor: character classes, ASCII case folding, substring
//! search, maximal-run scanning, whitespace tokenization and trimming.
//!
//! Everything here works on sequences of Unicode scalar values, so all
//! offsets are character offsets, never byte offsets.

use vstd::prelude::*;
use vstd::string::StrSliceExecFns;

verus! {

// ---------------------------------------------------------------------
// Character classes
// ---------------------------------------------------------------------

/// The Unicode `White_Space` set, exactly as documented for
/// `char::is_whitespace`.
pub open spec fn is_space_char(c: char) -> bool {
    let u = c as u32;
    (0x09 <= u && u <= 0x0D) || u == 0x20 || u == 0x85 || u == 0xA0 || u == 0x1680 || (0x2000
        <= u && u <= 0x200A) || u == 0x2028 || u == 0x2029 || u == 0x202F || u == 0x205F || u
        == 0x3000
}

/// ASCII letters, digits and underscore: the word characters that bound
/// file names and numbers during extraction.
pub open spec fn is_word_char(c: char) -> bool {
    let u = c as u32;
    (0x30 <= u && u <= 0x39) || (0x41 <= u && u <= 0x5A) || (0x61 <= u && u <= 0x7A) || u == 0x5F
}

/// ASCII decimal digits.
pub open spec fn is_digit_char(c: char) -> bool {
    let u = c as u32;
    0x30 <= u && u <= 0x39
}

/// Characters allowed in an environment-variable name: ASCII upper-case
/// letters and underscore.
pub open spec fn is_env_char(c: char) -> bool {
    let u = c as u32;
    (0x41 <= u && u <= 0x5A) || u == 0x5F
}

pub fn space_char(c: char) -> (r: bool)
    ensures
        r == is_space_char(c),
{
    let u: u32 = c as u32;
    (0x09 <= u && u <= 0x0D) || u == 0x20 || u == 0x85 || u == 0xA0 || u == 0x1680 || (0x2000
        <= u && u <= 0x200A) || u == 0x2028 || u == 0x2029 || u == 0x202F || u == 0x205F || u
        == 0x3000
}

pub fn word_char(c: char) -> (r: bool)
    ensures
        r == is_word_char(c),
{
    let u: u32 = c as u32;
    (0x30 <= u && u <= 0x39) || (0x41 <= u && u <= 0x5A) || (0x61 <= u && u <= 0x7A) || u == 0x5F
}

pub fn digit_char(c: char) -> (r: bool)
    ensures
        r == is_digit_char(c),
{
    let u: u32 = c as u32;
    0x30 <= u && u <= 0x39
}

pub fn env_char(c: char) -> (r: bool)
    ensures
        r == is_env_char(c),
{
    let u: u32 = c as u32;
    (0x41 <= u && u <= 0x5A) || u == 0x5F
}

// ---------------------------------------------------------------------
// ASCII case folding (length preserving, so offsets stay valid)
// ---------------------------------------------------------------------

/// Maps an ASCII upper-case letter to its lower-case form and leaves
/// every other character unchanged.
pub open spec fn fold_char(c: char) -> char {
    match c {
        'A' => 'a',
        'B' => 'b',
        'C' => 'c',
        'D' => 'd',
        'E' => 'e',
        'F' => 'f',
        'G' => 'g',
        'H' => 'h',
        'I' => 'i',
        'J' => 'j',
        'K' => 'k',
        'L' => 'l',
        'M' => 'm',
        'N' => 'n',
        'O' => 'o',
        'P' => 'p',
        'Q' => 'q',
        'R' => 'r',
        'S' => 's',
        'T' => 't',
        'U' => 'u',
        'V' => 'v',
        'W' => 'w',
        'X' => 'x',
        'Y' => 'y',
        'Z' => 'z',
        _ => c,
    }
}

pub open spec fn fold_seq(s: Seq<char>) -> Seq<char> {
    Seq::new(s.len(), |i: int| fold_char(s[i]))
}

pub fn fold_char_x(c: char) -> (r: char)
    ensures
        r == fold_char(c),
{
    match c {
        'A' => 'a',
        'B' => 'b',
        'C' => 'c',
        'D' => 'd',
        'E' => 'e',
        'F' => 'f',
        'G' => 'g',
        'H' => 'h',
        'I' => 'i',
        'J' => 'j',
        'K' => 'k',
        'L' => 'l',
        'M' => 'm',
        'N' => 'n',
        'O' => 'o',
        'P' => 'p',
        'Q' => 'q',
        'R' => 'r',
        'S' => 's',
        'T' => 't',
        'U' => 'u',
        'V' => 'v',
        'W' => 'w',
        'X' => 'x',
        'Y' => 'y',
        'Z' => 'z',
        _ => c,
    }
}

pub fn fold_chars(s: &Vec<char>) -> (r: Vec<char>)
    ensures
        r@ == fold_seq(s@),
{
    let mut out: Vec<char> = Vec::new();
    let mut i: usize = 0;
    while i < s.len()
        invariant
            i <= s.len(),
            out@.len() == i,
            forall|k: int| 0 <= k < i ==> out@[k] == fold_char(s@[k]),
        decreases s.len() - i,
    {
        out.push(fold_char_x(s[i]));
        i += 1;
    }
    proof {
        assert(out@ =~= fold_seq(s@));
    }
    out
}

// ---------------------------------------------------------------------
// Unicode lower-casing (trusted) and &str -> Vec<char> conversion
// ---------------------------------------------------------------------

/// The sequence of characters that `str::to_lowercase` produces for `s`.
/// It depends on the characters of `s` alone.
pub uninterp spec fn lower_of(s: Seq<char>) -> Seq<char>;

/// Relies on `str::to_lowercase`: full Unicode lower-casing of a string,
/// a function of the input characters alone.
#[verifier::external_body]
pub fn lowercase(s: &str) -> (r: String)
    ensures
        r@ == lower_of(s@),
{
    s.to_lowercase()
}

/// Collects the characters of a string slice into a vector.
pub fn to_chars(s: &str) -> (r: Vec<char>)
    ensures
        r@ == s@,
{
    let n: usize = s.unicode_len();
    let mut out: Vec<char> = Vec::new();
    let mut i: usize = 0;
    while i < n
        invariant
            i <= n,
            n == s@.len(),
            out@ == s@.take(i as int),
        decreases n - i,
    {
        let c = s.get_char(i);
        out.push(c);
        proof {
            assert(out@ =~= s@.take(i + 1 as int));
        }
        i += 1;
    }
    proof {
        assert(s@.take(n as int) =~= s@);
    }
    out
}

// ---------------------------------------------------------------------
// Substring search
// ---------------------------------------------------------------------

/// `p` occurs in `s` at offset `i`.
pub open spec fn matches_at(s: Seq<char>, p: Seq<char>, i: int) -> bool {
    0 <= i && i + p.len() <= s.len() && s.subrange(i, i + p.len()) == p
}

/// `p` occurs somewhere in `s`.
pub open spec fn contains_seq(s: Seq<char>, p: Seq<char>) -> bool {
    exists|i: int| matches_at(s, p, i)
}

/// The first offset at or after `i` where `p` occurs in `s`.
pub open spec fn find_from(s: Seq<char>, p: Seq<char>, i: int) -> Option<int>
    decreases s.len() - i,
    when 0 <= i <= s.len()
{
    if i + p.len() > s.len() {
        None
    } else if s.subrange(i, i + p.len()) == p {
        Some(i)
    } else if i < s.len() {
        find_from(s, p, i + 1)
    } else {
        None
    }
}

pub proof fn lemma_find_from(s: Seq<char>, p: Seq<char>, i: int)
    requires
        0 <= i <= s.len(),
    ensures
        match find_from(s, p, i) {
            Some(k) => i <= k && matches_at(s, p, k) && forall|j: int|
                i <= j < k ==> !matches_at(s, p, j),
            None => forall|j: int| i <= j ==> !matches_at(s, p, j),
        },
    decreases s.len() - i,
{
    if i + p.len() > s.len() {
    } else if s.subrange(i, i + p.len()) == p {
    } else if i < s.len() {
        lemma_find_from(s, p, i + 1);
    }
}

/// A `find_from` hit from offset 0 is exactly containment.
pub proof fn lemma_find_contains(s: Seq<char>, p: Seq<char>)
    ensures
        contains_seq(s, p) <==> find_from(s, p, 0) is Some,
{
    lemma_find_from(s, p, 0);
    if find_from(s, p, 0) is None {
        assert forall|j: int| !matches_at(s, p, j) by {
            if 0 <= j {
            } else {
            }
        }
    }
}

/// Character-by-character comparison of `p` against `s` at offset `i`.
pub fn match_at(s: &Vec<char>, p: &Vec<char>, i: usize) -> (r: bool)
    requires
        i + p@.len() <= s@.len(),
    ensures
        r == (s@.subrange(i as int, i + p@.len()) == p@),
{
    let n: usize = s.len();
    let mut j: usize = 0;
    while j < p.len()
        invariant
            j <= p@.len(),
            i + p@.len() <= s@.len(),
            n == s@.len(),
            forall|k: int| 0 <= k < j ==> s@[i + k] == p@[k],
        decreases p.len() - j,
    {
        if s[i + j] != p[j] {
            proof {
                assert(s@.subrange(i as int, i + p@.len())[j as int] == s@[i + j]);
            }
            return false;
        }
        j += 1;
    }
    proof {
        assert(s@.subrange(i as int, i + p@.len()) =~= p@);
    }
    true
}

/// First occurrence of `p` in `s`, scanning left to right.
pub fn find_first(s: &Vec<char>, p: &Vec<char>) -> (r: Option<usize>)
    ensures
        match r {
            Some(k) => find_from(s@, p@, 0) == Some(k as int),
            None => find_from(s@, p@, 0) is None,
        },
{
    let mut i: usize = 0;
    while p.len() <= s.len() - i && i <= s.len()
        invariant
            i <= s@.len(),
            find_from(s@, p@, 0) == find_from(s@, p@, i as int),
        decreases s.len() - i,
    {
        if match_at(s, p, i) {
            return Some(i);
        }
        proof {
            if p@.len() == 0 {
                assert(s@.subrange(i as int, i as int) =~= p@);
            }
        }
        i += 1;
    }
    None
}

/// Whether `p` occurs anywhere in `s`.
pub fn contains_chars(s: &Vec<char>, p: &Vec<char>) -> (r: bool)
    ensures
        r == contains_seq(s@, p@),
{
    proof {
        lemma_find_contains(s@, p@);
    }
    let r = find_first(s, p);
    r.is_some()
}

/// The first offset at or after `i` holding the character `c`.
pub open spec fn find_char_from(s: Seq<char>, c: char, i: int) -> Option<int>
    decreases s.len() - i,
    when 0 <= i <= s.len()
{
    if i >= s.len() {
        None
    } else if s[i] == c {
        Some(i)
    } else {
        find_char_from(s, c, i + 1)
    }
}

pub proof fn lemma_find_char_from(s: Seq<char>, c: char, i: int)
    requires
        0 <= i <= s.len(),
    ensures
        match find_char_from(s, c, i) {
            Some(q) => i <= q < s.len() && s[q] == c && forall|j: int| i <= j < q ==> s[j] != c,
            None => forall|j: int| i <= j < s.len() ==> s[j] != c,
        },
    decreases s.len() - i,
{
    if i < s.len() && s[i] != c {
        lemma_find_char_from(s, c, i + 1);
    }
}

/// First occurrence of the character `c` at or after `start`.
pub fn find_char(s: &Vec<char>, c: char, start: usize) -> (r: Option<usize>)
    requires
        start <= s@.len(),
    ensures
        match r {
            Some(q) => find_char_from(s@, c, start as int) == Some(q as int),
            None => find_char_from(s@, c, start as int) is None,
        },
{
    let mut i: usize = start;
    while i < s.len()
        invariant
            start <= i <= s@.len(),
            find_char_from(s@, c, start as int) == find_char_from(s@, c, i as int),
        decreases s.len() - i,
    {
        if s[i] == c {
            return Some(i);
        }
        i += 1;
    }
    None
}

// ---------------------------------------------------------------------
// Maximal runs of a character class
// ---------------------------------------------------------------------

pub open spec fn nonspace_run(s: Seq<char>, i: int) -> nat
    decreases s.len() - i,
    when 0 <= i <= s.len()
{
    if i >= s.len() || is_space_char(s[i]) {
        0
    } else {
        1 + nonspace_run(s, i + 1)
    }
}

pub open spec fn digit_run(s: Seq<char>, i: int) -> nat
    decreases s.len() - i,
    when 0 <= i <= s.len()
{
    if i >= s.len() || !is_digit_char(s[i]) {
        0
    } else {
        1 + digit_run(s, i + 1)
    }
}

pub open spec fn word_run(s: Seq<char>, i: int) -> nat
    decreases s.len() - i,
    when 0 <= i <= s.len()
{
    if i >= s.len() || !is_word_char(s[i]) {
        0
    } else {
        1 + word_run(s, i + 1)
    }
}

pub open spec fn env_run(s: Seq<char>, i: int) -> nat
    decreases s.len() - i,
    when 0 <= i <= s.len()
{
    if i >= s.len() || !is_env_char(s[i]) {
        0
    } else {
        1 + env_run(s, i + 1)
    }
}

pub open spec fn space_run(s: Seq<char>, i: int) -> nat
    decreases s.len() - i,
    when 0 <= i <= s.len()
{
    if i >= s.len() || !is_space_char(s[i]) {
        0
    } else {
        1 + space_run(s, i + 1)
    }
}

pub proof fn lemma_nonspace_run(s: Seq<char>, i: int)
    requires
        0 <= i <= s.len(),
    ensures
        i + nonspace_run(s, i) <= s.len(),
        forall|j: int| i <= j < i + nonspace_run(s, i) ==> !is_space_char(s[j]),
        i + nonspace_run(s, i) == s.len() || is_space_char(s[i + nonspace_run(s, i)]),
    decreases s.len() - i,
{
    if i >= s.len() || is_space_char(s[i]) {
    } else {
        lemma_nonspace_run(s, i + 1);
    }
}

pub proof fn lemma_digit_run(s: Seq<char>, i: int)
    requires
        0 <= i <= s.len(),
    ensures
        i + digit_run(s, i) <= s.len(),
        forall|j: int| i <= j < i + digit_run(s, i) ==> is_digit_char(s[j]),
        i + digit_run(s, i) == s.len() || !is_digit_char(s[i + digit_run(s, i)]),
    decreases s.len() - i,
{
    if i >= s.len() || !is_digit_char(s[i]) {
    } else {
        lemma_digit_run(s, i + 1);
    }
}

pub proof fn lemma_word_run(s: Seq<char>, i: int)
    requires
        0 <= i <= s.len(),
    ensures
        i + word_run(s, i) <= s.len(),
        forall|j: int| i <= j < i + word_run(s, i) ==> is_word_char(s[j]),
        i + word_run(s, i) == s.len() || !is_word_char(s[i + word_run(s, i)]),
    decreases s.len() - i,
{
    if i >= s.len() || !is_word_char(s[i]) {
    } else {
        lemma_word_run(s, i + 1);
    }
}

pub proof fn lemma_env_run(s: Seq<char>, i: int)
    requires
        0 <= i <= s.len(),
    ensures
        i + env_run(s, i) <= s.len(),
        forall|j: int| i <= j < i + env_run(s, i) ==> is_env_char(s[j]),
        i + env_run(s, i) == s.len() || !is_env_char(s[i + env_run(s, i)]),
    decreases s.len() - i,
{
    if i >= s.len() || !is_env_char(s[i]) {
    } else {
        lemma_env_run(s, i + 1);
    }
}

pub proof fn lemma_space_run(s: Seq<char>, i: int)
    requires
        0 <= i <= s.len(),
    ensures
        i + space_run(s, i) <= s.len(),
        forall|j: int| i <= j < i + space_run(s, i) ==> is_space_char(s[j]),
        i + space_run(s, i) == s.len() || !is_space_char(s[i + space_run(s, i)]),
    decreases s.len() - i,
{
    if i >= s.len() || !is_space_char(s[i]) {
    } else {
        lemma_space_run(s, i + 1);
    }
}

pub fn scan_nonspace(s: &Vec<char>, start: usize) -> (j: usize)
    requires
        start <= s@.len(),
    ensures
        j as int == start + nonspace_run(s@, start as int),
{
    let mut j: usize = start;
    while j < s.len() && !space_char(s[j])
        invariant
            start <= j <= s@.len(),
            nonspace_run(s@, start as int) == (j - start) + nonspace_run(s@, j as int),
        decreases s.len() - j,
    {
        j += 1;
    }
    j
}

pub fn scan_digits(s: &Vec<char>, start: usize) -> (j: usize)
    requires
        start <= s@.len(),
    ensures
        j as int == start + digit_run(s@, start as int),
{
    let mut j: usize = start;
    while j < s.len() && digit_char(s[j])
        invariant
            start <= j <= s@.len(),
            digit_run(s@, start as int) == (j - start) + digit_run(s@, j as int),
        decreases s.len() - j,
    {
        j += 1;
    }
    j
}

pub fn scan_word(s: &Vec<char>, start: usize) -> (j: usize)
    requires
        start <= s@.len(),
    ensures
        j as int == start + word_run(s@, start as int),
{
    let mut j: usize = start;
    while j < s.len() && word_char(s[j])
        invariant
            start <= j <= s@.len(),
            word_run(s@, start as int) == (j - start) + word_run(s@, j as int),
        decreases s.len() - j,
    {
        j += 1;
    }
    j
}

pub fn scan_env(s: &Vec<char>, start: usize) -> (j: usize)
    requires
        start <= s@.len(),
    ensures
        j as int == start + env_run(s@, start as int),
{
    let mut j: usize = start;
    while j < s.len() && env_char(s[j])
        invariant
            start <= j <= s@.len(),
            env_run(s@, start as int) == (j - start) + env_run(s@, j as int),
        decreases s.len() - j,
    {
        j += 1;
    }
    j
}

pub fn scan_space(s: &Vec<char>, start: usize) -> (j: usize)
    requires
        start <= s@.len(),
    ensures
        j as int == start + space_run(s@, start as int),
{
    let mut j: usize = start;
    while j < s.len() && space_char(s[j])
        invariant
            start <= j <= s@.len(),
            space_run(s@, start as int) == (j - start) + space_run(s@, j as int),
        decreases s.len() - j,
    {
        j += 1;
    }
    j
}

// ---------------------------------------------------------------------
// Whitespace tokenization
// ---------------------------------------------------------------------

/// The whitespace-delimited tokens of `s` starting at offset `i`, in
/// order: each token is a maximal run of non-whitespace characters.
pub open spec fn tokens_from(s: Seq<char>, i: int) -> Seq<Seq<char>>
    decreases s.len() - i,
    when 0 <= i <= s.len()
    via tokens_from_dec
{
    if i >= s.len() {
        Seq::empty()
    } else if is_space_char(s[i]) {
        tokens_from(s, i + 1)
    } else {
        seq![s.subrange(i, i + nonspace_run(s, i))] + tokens_from(s, i + nonspace_run(s, i))
    }
}

#[via_fn]
proof fn tokens_from_dec(s: Seq<char>, i: int) {
    if 0 <= i < s.len() && !is_space_char(s[i]) {
        lemma_nonspace_run(s, i);
    }
}

pub open spec fn all_tokens(s: Seq<char>) -> Seq<Seq<char>> {
    tokens_from(s, 0)
}

/// Views of a vector of character vectors.
pub open spec fn tok_views(ts: Seq<Vec<char>>) -> Seq<Seq<char>> {
    Seq::new(ts.len(), |k: int| ts[k]@)
}

/// Splits `s` into its whitespace-delimited tokens.
pub fn tokenize(s: &Vec<char>) -> (r: Vec<Vec<char>>)
    ensures
        tok_views(r@) == all_tokens(s@),
{
    let mut out: Vec<Vec<char>> = Vec::new();
    let mut i: usize = 0;
    while i < s.len()
        invariant
            i <= s@.len(),
            all_tokens(s@) == tok_views(out@) + tokens_from(s@, i as int),
        decreases s.len() - i,
    {
        if space_char(s[i]) {
            i += 1;
        } else {
            proof {
                lemma_nonspace_run(s@, i as int);
            }
            let j = scan_nonspace(s, i);
            let mut tok: Vec<char> = Vec::new();
            let mut k: usize = i;
            while k < j
                invariant
                    i <= k <= j,
                    j <= s@.len(),
                    tok@ == s@.subrange(i as int, k as int),
                decreases j - k,
            {
                tok.push(s[k]);
                proof {
                    assert(tok@ =~= s@.subrange(i as int, k + 1 as int));
                }
                k += 1;
            }
            let ghost prev = tok_views(out@);
            out.push(tok);
            proof {
                assert(tok_views(out@) =~= prev + seq![s@.subrange(i as int, j as int)]);
            }
            i = j;
        }
    }
    proof {
        assert(tok_views(out@) =~= all_tokens(s@));
    }
    out
}

// ---------------------------------------------------------------------
// Distinct tokens and overlap counting
// ---------------------------------------------------------------------

/// Keeps the first occurrence of each token, in order.
pub open spec fn distinct_toks(ts: Seq<Seq<char>>) -> Seq<Seq<char>>
    decreases ts.len(),
{
    if ts.len() == 0 {
        Seq::empty()
    } else {
        let d = distinct_toks(ts.drop_last());
        if d.contains(ts.last()) {
            d
        } else {
            d.push(ts.last())
        }
    }
}

/// How many entries of `pd` occur in `its`.
pub open spec fn overlap_count(pd: Seq<Seq<char>>, its: Seq<Seq<char>>) -> nat
    decreases pd.len(),
{
    if pd.len() == 0 {
        0
    } else {
        overlap_count(pd.drop_last(), its) + if its.contains(pd.last()) {
            1nat
        } else {
            0nat
        }
    }
}

pub proof fn lemma_overlap_le(pd: Seq<Seq<char>>, its: Seq<Seq<char>>)
    ensures
        overlap_count(pd, its) <= pd.len(),
    decreases pd.len(),
{
    if pd.len() > 0 {
        lemma_overlap_le(pd.drop_last(), its);
    }
}

/// Character-vector equality.
pub fn eq_chars(a: &Vec<char>, b: &Vec<char>) -> (r: bool)
    ensures
        r == (a@ == b@),
{
    if a.len() != b.len() {
        return false;
    }
    let mut i: usize = 0;
    while i < a.len()
        invariant
            i <= a@.len(),
            a@.len() == b@.len(),
            forall|k: int| 0 <= k < i ==> a@[k] == b@[k],
        decreases a.len() - i,
    {
        if a[i] != b[i] {
            return false;
        }
        i += 1;
    }
    proof {
        assert(a@ =~= b@);
    }
    true
}

/// Membership of `t` in a token list.
pub fn contains_tok(ts: &Vec<Vec<char>>, t: &Vec<char>) -> (r: bool)
    ensures
        r == tok_views(ts@).contains(t@),
{
    let mut i: usize = 0;
    while i < ts.len()
        invariant
            i <= ts@.len(),
            forall|k: int| 0 <= k < i ==> ts@[k]@ != t@,
        decreases ts.len() - i,
    {
        if eq_chars(&ts[i], t) {
            proof {
                assert(tok_views(ts@)[i as int] == t@);
            }
            return true;
        }
        i += 1;
    }
    proof {
        if tok_views(ts@).contains(t@) {
            let k = choose|k: int| 0 <= k < tok_views(ts@).len() && tok_views(ts@)[k] == t@;
            assert(ts@[k]@ == t@);
        }
    }
    false
}

/// First occurrences of the tokens of `ts`, in order.
pub fn dedup_toks(ts: &Vec<Vec<char>>) -> (r: Vec<Vec<char>>)
    ensures
        tok_views(r@) == distinct_toks(tok_views(ts@)),
{
    let mut out: Vec<Vec<char>> = Vec::new();
    let mut i: usize = 0;
    while i < ts.len()
        invariant
            i <= ts@.len(),
            tok_views(out@) == distinct_toks(tok_views(ts@).take(i as int)),
        decreases ts.len() - i,
    {
        proof {
            assert(tok_views(ts@).take(i + 1 as int).drop_last() =~= tok_views(ts@).take(
                i as int,
            ));
            assert(tok_views(ts@).take(i + 1 as int).last() == ts@[i as int]@);
        }
        let ghost prev = tok_views(out@);
        let mut tok: Vec<char> = Vec::new();
        let mut k: usize = 0;
        while k < ts[i].len()
            invariant
                0 <= i < ts@.len(),
                k <= ts@[i as int]@.len(),
                tok@ == ts@[i as int]@.take(k as int),
            decreases ts@[i as int]@.len() - k,
        {
            tok.push(ts[i][k]);
            proof {
                assert(tok@ =~= ts@[i as int]@.take(k + 1 as int));
            }
            k += 1;
        }
        proof {
            assert(tok@ =~= ts@[i as int]@);
        }
        if !contains_tok(&out, &tok) {
            out.push(tok);
            proof {
                assert(tok_views(out@) =~= prev.push(ts@[i as int]@));
            }
        }
        i += 1;
    }
    proof {
        assert(tok_views(ts@).take(ts@.len() as int) =~= tok_views(ts@));
    }
    out
}

/// Counts how many tokens of `pd` occur in `its`.
pub fn count_overlap(pd: &Vec<Vec<char>>, its: &Vec<Vec<char>>) -> (r: usize)
    ensures
        r == overlap_count(tok_views(pd@), tok_views(its@)),
        r <= pd@.len(),
{
    let mut c: usize = 0;
    let mut i: usize = 0;
    while i < pd.len()
        invariant
            i <= pd@.len(),
            c <= i,
            c == overlap_count(tok_views(pd@).take(i as int), tok_views(its@)),
        decreases pd.len() - i,
    {
        proof {
            assert(tok_views(pd@).take(i + 1 as int).drop_last() =~= tok_views(pd@).take(i as int));
            assert(tok_views(pd@).take(i + 1 as int).last() == pd@[i as int]@);
        }
        if contains_tok(its, &pd[i]) {
            c += 1;
        }
        i += 1;
    }
    proof {
        assert(tok_views(pd@).take(pd@.len() as int) =~= tok_views(pd@));
        lemma_overlap_le(tok_views(pd@), tok_views(its@));
    }
    c
}

// ---------------------------------------------------------------------
// Trimming
// ---------------------------------------------------------------------

/// Count of whitespace characters at the end of `s[..j]`.
pub open spec fn trailing_spaces(s: Seq<char>, j: int) -> nat
    decreases j,
    when 0 <= j <= s.len()
{
    if j <= 0 || !is_space_char(s[j - 1]) {
        0
    } else {
        1 + trailing_spaces(s, j - 1)
    }
}

pub proof fn lemma_trailing_spaces(s: Seq<char>, j: int)
    requires
        0 <= j <= s.len(),
    ensures
        trailing_spaces(s, j) <= j,
        forall|k: int| j - trailing_spaces(s, j) <= k < j ==> is_space_char(s[k]),
        j == trailing_spaces(s, j) || !is_space_char(s[j - trailing_spaces(s, j) - 1]),
    decreases j,
{
    if j <= 0 || !is_space_char(s[j - 1]) {
    } else {
        lemma_trailing_spaces(s, j - 1);
    }
}

/// `s` with leading and trailing whitespace removed.
pub open spec fn trim_spec(s: Seq<char>) -> Seq<char> {
    if space_run(s, 0) == s.len() {
        Seq::empty()
    } else {
        s.subrange(space_run(s, 0) as int, s.len() - trailing_spaces(s, s.len() as int))
    }
}

} // verus!
