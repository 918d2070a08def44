//! String similarity scoring.
//!
//! `calculate_similarity` returns a score scaled by 1000 (`1000` is a
//! perfect score).  The stages, first hit wins: literal containment,
//! case-folded containment, token overlap with an early exit, and a
//! weighted combination of token overlap and a longest-common-
//! subsequence ratio.  All divisions are exact integer (truncating)
//! divisions of the rational formulas scaled by 1000.

use vstd::prelude::*;
use crate::text::{
    all_tokens, contains_chars, contains_seq, count_overlap, dedup_toks, distinct_toks,
    lemma_overlap_le, lower_of, lowercase, matches_at, overlap_count, to_chars, tok_views,
    tokenize,
};

verus! {

// ---------------------------------------------------------------------
// Arithmetic helpers
// ---------------------------------------------------------------------

pub proof fn lemma_div_le(x: int, y: int, c: int)
    by (nonlinear_arith)
    requires
        0 <= x,
        0 < y,
        x <= c * y,
    ensures
        x / y <= c,
{
}

pub proof fn lemma_div_nonneg(x: int, y: int)
    by (nonlinear_arith)
    requires
        0 <= x,
        0 < y,
    ensures
        0 <= x / y,
{
}

// ---------------------------------------------------------------------
// Longest common subsequence
// ---------------------------------------------------------------------

/// Length of the longest common subsequence of `a` and `b`.
pub open spec fn lcs(a: Seq<char>, b: Seq<char>) -> nat
    decreases a.len() + b.len(),
{
    if a.len() == 0 || b.len() == 0 {
        0
    } else if a.last() == b.last() {
        lcs(a.drop_last(), b.drop_last()) + 1
    } else {
        let x = lcs(a.drop_last(), b);
        let y = lcs(a, b.drop_last());
        if x >= y {
            x
        } else {
            y
        }
    }
}

pub proof fn lemma_lcs_le(a: Seq<char>, b: Seq<char>)
    ensures
        lcs(a, b) <= a.len(),
        lcs(a, b) <= b.len(),
    decreases a.len() + b.len(),
{
    if a.len() == 0 || b.len() == 0 {
    } else if a.last() == b.last() {
        lemma_lcs_le(a.drop_last(), b.drop_last());
    } else {
        lemma_lcs_le(a.drop_last(), b);
        lemma_lcs_le(a, b.drop_last());
    }
}

/// Length of the longest common subsequence, by dynamic programming
/// over two rolling rows.
pub fn longest_common_subsequence(s1: &str, s2: &str) -> (r: usize)
    ensures
        r == lcs(s1@, s2@),
{
    let a = to_chars(s1);
    let b = to_chars(s2);
    lcs_chars(&a, &b)
}

pub fn lcs_chars(a: &Vec<char>, b: &Vec<char>) -> (r: usize)
    ensures
        r == lcs(a@, b@),
{
    let m: usize = a.len();
    let n: usize = b.len();
    let mut prev: Vec<usize> = Vec::new();
    let mut curr: Vec<usize> = Vec::new();
    prev.push(0);
    curr.push(0);
    let mut k: usize = 0;
    while k < n
        invariant
            k <= n,
            prev@.len() == k + 1,
            curr@.len() == k + 1,
            forall|j: int| 0 <= j <= k ==> prev@[j] == 0 && curr@[j] == 0,
        decreases n - k,
    {
        prev.push(0);
        curr.push(0);
        k += 1;
    }
    proof {
        assert forall|j: int| 0 <= j <= n implies prev@[j] == lcs(a@.take(0), b@.take(j)) by {
            assert(a@.take(0).len() == 0);
        }
    }
    let mut i: usize = 0;
    while i < m
        invariant
            i <= m,
            m == a@.len(),
            n == b@.len(),
            prev@.len() == n + 1,
            curr@.len() == n + 1,
            curr@[0] == 0,
            forall|j: int| 0 <= j <= n ==> prev@[j] == lcs(a@.take(i as int), b@.take(j)),
        decreases m - i,
    {
        let mut jj: usize = 0;
        while jj < n
            invariant
                jj <= n,
                i < m,
                m == a@.len(),
                n == b@.len(),
                prev@.len() == n + 1,
                curr@.len() == n + 1,
                curr@[0] == 0,
                forall|j: int| 0 <= j <= n ==> prev@[j] == lcs(a@.take(i as int), b@.take(j)),
                forall|j: int| 0 <= j <= jj ==> curr@[j] == lcs(a@.take(i + 1), b@.take(j)),
            decreases n - jj,
        {
            let j: usize = jj + 1;
            proof {
                assert(a@.take(i + 1).len() > 0);
                assert(b@.take(j as int).len() > 0);
                assert(a@.take(i + 1).last() == a@[i as int]);
                assert(b@.take(j as int).last() == b@[j - 1]);
                assert(a@.take(i + 1).drop_last() =~= a@.take(i as int));
                assert(b@.take(j as int).drop_last() =~= b@.take(j - 1));
                lemma_lcs_le(a@.take(i as int), b@.take(j - 1));
            }
            let v: usize;
            if a[i] == b[j - 1] {
                v = prev[j - 1] + 1;
            } else {
                let x = prev[j];
                let y = curr[j - 1];
                v = if x >= y {
                    x
                } else {
                    y
                };
            }
            curr[j] = v;
            proof {
                assert(curr@[j as int] == lcs(a@.take(i + 1), b@.take(j as int)));
            }
            jj = j;
        }
        core::mem::swap(&mut prev, &mut curr);
        proof {
            assert(curr@[0] == lcs(a@.take(i + 1), b@.take(0))) by {
                assert(b@.take(0).len() == 0);
            }
        }
        i += 1;
    }
    proof {
        assert(a@.take(m as int) =~= a@);
        assert(b@.take(n as int) =~= b@);
    }
    prev[n]
}

// ---------------------------------------------------------------------
// Sequence similarity ratio
// ---------------------------------------------------------------------

/// Length-normalized LCS ratio, scaled by 1000: `2000 * lcs / (|a| + |b|)`,
/// with both-empty mapping to a perfect 1000 and exactly one empty to 0.
pub open spec fn ratio_spec(a: Seq<char>, b: Seq<char>) -> int {
    if a.len() == 0 && b.len() == 0 {
        1000
    } else if a.len() == 0 || b.len() == 0 {
        0
    } else {
        2000 * (lcs(a, b) as int) / ((a.len() + b.len()) as int)
    }
}

pub proof fn lemma_ratio_bounds(a: Seq<char>, b: Seq<char>)
    ensures
        0 <= ratio_spec(a, b) <= 1000,
{
    if a.len() == 0 && b.len() == 0 {
    } else if a.len() == 0 || b.len() == 0 {
    } else {
        lemma_lcs_le(a, b);
        let l = lcs(a, b) as int;
        let t = (a.len() + b.len()) as int;
        assert(2000 * l <= 1000 * t) by (nonlinear_arith)
            requires
                0 <= l,
                l <= a.len(),
                l <= b.len(),
                t == a.len() + b.len(),
        ;
        lemma_div_le(2000 * l, t, 1000);
        lemma_div_nonneg(2000 * l, t);
    }
}

fn sequence_ratio(a: &Vec<char>, b: &Vec<char>) -> (r: u32)
    ensures
        r as int == ratio_spec(a@, b@),
        r <= 1000,
{
    if a.len() == 0 && b.len() == 0 {
        return 1000;
    }
    if a.len() == 0 || b.len() == 0 {
        return 0;
    }
    let l = lcs_chars(a, b);
    proof {
        lemma_lcs_le(a@, b@);
        lemma_ratio_bounds(a@, b@);
    }
    let total: u128 = a.len() as u128 + b.len() as u128;
    let num: u128 = 2000u128 * (l as u128);
    let r: u128 = num / total;
    r as u32
}

// ---------------------------------------------------------------------
// The similarity score
// ---------------------------------------------------------------------

/// The similarity score of `inp` against `pat`, scaled by 1000.
///
/// Stages, first hit wins: empty pattern scores 0; literal containment
/// scores 1000; containment after Unicode lower-casing scores 950;
/// otherwise the score is built from the fraction of the pattern's
/// distinct whitespace tokens that occur among the input's tokens
/// (`ov` of `p`), with an early exit below a 3/10 overlap, and the LCS
/// ratio of the lower-cased strings.
pub open spec fn sim_spec(inp: Seq<char>, pat: Seq<char>) -> int {
    if pat.len() == 0 {
        0
    } else if contains_seq(inp, pat) {
        1000
    } else {
        let li = lower_of(inp);
        let lp = lower_of(pat);
        if contains_seq(li, lp) {
            950
        } else {
            let pd = distinct_toks(all_tokens(lp));
            if pd.len() == 0 {
                0
            } else {
                let ov = overlap_count(pd, all_tokens(li)) as int;
                let p = pd.len() as int;
                if 10 * ov < 3 * p {
                    600 * ov / p
                } else {
                    600 * ov / p + 400 * ratio_spec(li, lp) / 1000
                }
            }
        }
    }
}

pub proof fn lemma_sim_bounds(inp: Seq<char>, pat: Seq<char>)
    ensures
        0 <= sim_spec(inp, pat) <= 1000,
{
    if pat.len() == 0 || contains_seq(inp, pat) {
    } else {
        let li = lower_of(inp);
        let lp = lower_of(pat);
        if contains_seq(li, lp) {
        } else {
            let pd = distinct_toks(all_tokens(lp));
            if pd.len() == 0 {
            } else {
                let ov = overlap_count(pd, all_tokens(li)) as int;
                let p = pd.len() as int;
                lemma_overlap_le(pd, all_tokens(li));
                assert(600 * ov <= 600 * p) by (nonlinear_arith)
                    requires
                        0 <= ov <= p,
                ;
                lemma_div_le(600 * ov, p, 600);
                lemma_div_nonneg(600 * ov, p);
                lemma_ratio_bounds(li, lp);
                lemma_div_le(400 * ratio_spec(li, lp), 1000, 400);
                lemma_div_nonneg(400 * ratio_spec(li, lp), 1000);
            }
        }
    }
}

/// Similarity between `input` and `pattern`, scaled by 1000.
///
/// Not symmetric: containment is checked only in the direction
/// `input` contains `pattern`, so the two arguments play distinct
/// roles.
pub fn calculate_similarity(input: &str, pattern: &str) -> (r: u32)
    ensures
        r as int == sim_spec(input@, pattern@),
        r <= 1000,
{
    let ic = to_chars(input);
    let pc = to_chars(pattern);
    if pc.len() == 0 {
        return 0;
    }
    if contains_chars(&ic, &pc) {
        return 1000;
    }
    let lis = lowercase(input);
    let li = to_chars(lis.as_str());
    let lps = lowercase(pattern);
    let lp = to_chars(lps.as_str());
    if contains_chars(&li, &lp) {
        return 950;
    }
    let pt = tokenize(&lp);
    let pd = dedup_toks(&pt);
    if pd.len() == 0 {
        return 0;
    }
    let it = tokenize(&li);
    let ov = count_overlap(&pd, &it);
    let p = pd.len();
    let ovw: u128 = ov as u128;
    let pw: u128 = p as u128;
    proof {
        assert(600 * ovw <= 600 * pw) by (nonlinear_arith)
            requires
                0 <= ovw <= pw,
        ;
        lemma_div_le(600 * ovw as int, pw as int, 600);
        lemma_div_nonneg(600 * ovw as int, pw as int);
    }
    let overlap_part: u32 = (600u128 * ovw / pw) as u32;
    if 10 * ovw < 3 * pw {
        return overlap_part;
    }
    let ratio = sequence_ratio(&li, &lp);
    let seq_part: u32 = 400 * ratio / 1000;
    overlap_part + seq_part
}

/// A non-empty string always contains itself, so scoring a string
/// against itself yields the perfect score.
pub proof fn lemma_similarity_self(s: Seq<char>)
    requires
        s.len() > 0,
    ensures
        sim_spec(s, s) == 1000,
{
    assert(s.subrange(0, s.len() as int) =~= s);
    assert(matches_at(s, s, 0));
}

/// The empty pattern never matches anything: it scores 0 against every
/// input.
pub proof fn lemma_similarity_empty_pattern(s: Seq<char>)
    ensures
        sim_spec(s, Seq::<char>::empty()) == 0,
{
}

} // verus!
