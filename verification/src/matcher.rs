//! Intent matcher: scores input against every trigger and classifies
//! the outcome as a direct match, an ambiguous set of suggestions, or
//! no match.
//!
//! Scores and thresholds are scaled by 1000.  A trigger's final score
//! is the best similarity over its pattern and aliases, multiplied by
//! its weight and divided by 1000.

use vstd::prelude::*;
use vstd::string::StrSliceExecFns;
use crate::similarity::{calculate_similarity, lemma_div_le, lemma_div_nonneg, lemma_sim_bounds, sim_spec};
use crate::text::{lemma_space_run, lemma_trailing_spaces, lower_of, lowercase, scan_space,
    space_char, space_run, to_chars, trailing_spaces, trim_spec};
use crate::types::{AmbiguousMatch, AmbiguousMatchView, IntentMatch, IntentMatchView, ParseResult,
    ParseResultView, Trigger, TriggerView};

verus! {

/// Scores at or above this are returned as a direct match.
pub const CONFIDENCE_THRESHOLD: u64 = 900;

/// Scores below this are discarded entirely.
pub const MIN_CONFIDENCE: u64 = 500;

/// Lower bound of the ambiguity zone.
pub const AMBIGUITY_ZONE_START: u64 = 600;

/// Upper bound (exclusive) of the ambiguity zone.
pub const AMBIGUITY_ZONE_END: u64 = 900;

/// A scored trigger: its position in the trigger list and its final
/// score.
#[derive(Clone, Copy)]
pub struct Cand {
    pub idx: usize,
    pub score: u64,
}

pub open spec fn trig_views(ts: Seq<Trigger>) -> Seq<TriggerView> {
    Seq::new(ts.len(), |i: int| ts[i]@)
}

/// The matcher's input normalization: Unicode lower-casing, then
/// trimming surrounding whitespace.
pub open spec fn norm_spec(input: Seq<char>) -> Seq<char> {
    trim_spec(lower_of(input))
}

/// Best similarity over the pattern and the first `k` aliases.
pub open spec fn best_sim_upto(norm: Seq<char>, t: TriggerView, k: int) -> int
    decreases k,
    when 0 <= k <= t.aliases.len()
{
    if k <= 0 {
        sim_spec(norm, t.pattern)
    } else {
        let b = best_sim_upto(norm, t, k - 1);
        let a = sim_spec(norm, t.aliases[k - 1]);
        if a > b {
            a
        } else {
            b
        }
    }
}

/// Best similarity over the trigger's pattern and all its aliases.
pub open spec fn best_sim(norm: Seq<char>, t: TriggerView) -> int {
    best_sim_upto(norm, t, t.aliases.len() as int)
}

/// The trigger's weighted final score.
pub open spec fn final_score(norm: Seq<char>, t: TriggerView) -> int {
    best_sim(norm, t) * t.weight / 1000
}

pub proof fn lemma_best_sim_bounds(norm: Seq<char>, t: TriggerView, k: int)
    requires
        0 <= k <= t.aliases.len(),
    ensures
        0 <= best_sim_upto(norm, t, k) <= 1000,
        best_sim_upto(norm, t, k) >= sim_spec(norm, t.pattern),
    decreases k,
{
    if k <= 0 {
        lemma_sim_bounds(norm, t.pattern);
    } else {
        lemma_best_sim_bounds(norm, t, k - 1);
        lemma_sim_bounds(norm, t.aliases[k - 1]);
    }
}

pub proof fn lemma_final_score_bounds(norm: Seq<char>, t: TriggerView)
    requires
        t.weight >= 0,
    ensures
        0 <= final_score(norm, t) <= t.weight,
{
    lemma_best_sim_bounds(norm, t, t.aliases.len() as int);
    let b = best_sim(norm, t);
    assert(b * t.weight <= 1000 * t.weight) by (nonlinear_arith)
        requires
            0 <= b <= 1000,
            t.weight >= 0,
    ;
    assert(b * t.weight >= 0) by (nonlinear_arith)
        requires
            0 <= b,
            t.weight >= 0,
    ;
    lemma_div_le(b * t.weight, 1000, t.weight);
    lemma_div_nonneg(b * t.weight, 1000);
}

/// The candidates among the first `i` triggers whose final score
/// reaches `MIN_CONFIDENCE`, in trigger order.
pub open spec fn kept_upto(norm: Seq<char>, tv: Seq<TriggerView>, i: int) -> Seq<Cand>
    decreases i,
    when 0 <= i <= tv.len()
{
    if i <= 0 {
        Seq::empty()
    } else {
        let rest = kept_upto(norm, tv, i - 1);
        let sc = final_score(norm, tv[i - 1]);
        if sc >= MIN_CONFIDENCE {
            rest.push(Cand { idx: (i - 1) as usize, score: sc as u64 })
        } else {
            rest
        }
    }
}

/// Sort order: higher score first; on equal scores, the earlier
/// trigger first.  This is a strict total order on candidates with
/// distinct indices, so the sorted list is unique.
pub open spec fn precedes(a: Cand, b: Cand) -> bool {
    a.score > b.score || (a.score == b.score && a.idx < b.idx)
}

pub open spec fn insert_desc(s: Seq<Cand>, c: Cand) -> Seq<Cand>
    decreases s.len(),
{
    if s.len() == 0 {
        seq![c]
    } else if precedes(c, s[0]) {
        seq![c] + s
    } else {
        seq![s[0]] + insert_desc(s.drop_first(), c)
    }
}

pub open spec fn sort_desc(s: Seq<Cand>) -> Seq<Cand>
    decreases s.len(),
{
    if s.len() == 0 {
        Seq::empty()
    } else {
        insert_desc(sort_desc(s.drop_last()), s.last())
    }
}

pub proof fn lemma_insert_len(s: Seq<Cand>, c: Cand)
    ensures
        insert_desc(s, c).len() == s.len() + 1,
    decreases s.len(),
{
    if s.len() == 0 {
    } else if precedes(c, s[0]) {
    } else {
        lemma_insert_len(s.drop_first(), c);
    }
}

pub proof fn lemma_sort_len(s: Seq<Cand>)
    ensures
        sort_desc(s).len() == s.len(),
    decreases s.len(),
{
    if s.len() > 0 {
        lemma_sort_len(s.drop_last());
        lemma_insert_len(sort_desc(s.drop_last()), s.last());
    }
}

/// Where the first position preceded by `c` is known, insertion is a
/// plain splice at that position.
pub proof fn lemma_insert_at(s: Seq<Cand>, c: Cand, p: int)
    requires
        0 <= p <= s.len(),
        forall|q: int| 0 <= q < p ==> !precedes(c, s[q]),
        p == s.len() || precedes(c, s[p]),
    ensures
        insert_desc(s, c) == s.take(p) + seq![c] + s.skip(p),
    decreases p,
{
    if p == 0 {
        if s.len() == 0 {
            assert(insert_desc(s, c) =~= s.take(0) + seq![c] + s.skip(0));
        } else {
            assert(precedes(c, s[0]));
            assert(insert_desc(s, c) =~= s.take(0) + seq![c] + s.skip(0));
        }
    } else {
        assert(!precedes(c, s[0]));
        let d = s.drop_first();
        assert(forall|q: int| 0 <= q < p - 1 ==> d[q] == s[q + 1] && !precedes(c, d[q]));
        lemma_insert_at(d, c, p - 1);
        assert(insert_desc(s, c) == seq![s[0]] + insert_desc(d, c));
        assert(seq![s[0]] + (d.take(p - 1) + seq![c] + d.skip(p - 1)) =~= s.take(p) + seq![c]
            + s.skip(p));
    }
}

/// Every candidate records the score of the trigger it points at.
pub open spec fn cand_ok(c: Cand, norm: Seq<char>, tv: Seq<TriggerView>) -> bool {
    c.idx < tv.len() && c.score as int == final_score(norm, tv[c.idx as int]) && c.score
        >= MIN_CONFIDENCE
}

/// Trigger weights that fit the machine representation.
pub open spec fn weights_ok(tv: Seq<TriggerView>) -> bool {
    forall|k: int| 0 <= k < tv.len() ==> 0 <= #[trigger] tv[k].weight <= u64::MAX
}

pub proof fn lemma_kept_ok(norm: Seq<char>, tv: Seq<TriggerView>, i: int)
    requires
        0 <= i <= tv.len(),
        tv.len() <= usize::MAX,
        weights_ok(tv),
    ensures
        forall|k: int|
            0 <= k < kept_upto(norm, tv, i).len() ==> cand_ok(
                #[trigger] kept_upto(norm, tv, i)[k],
                norm,
                tv,
            ),
    decreases i,
{
    if i > 0 {
        lemma_kept_ok(norm, tv, i - 1);
        lemma_final_score_bounds(norm, tv[i - 1]);
        let sc = final_score(norm, tv[i - 1]);
        if sc >= MIN_CONFIDENCE {
            let c = Cand { idx: (i - 1) as usize, score: sc as u64 };
            assert(c.idx as int == i - 1);
            assert(c.score as int == sc);
            assert(cand_ok(c, norm, tv));
            assert(kept_upto(norm, tv, i) == kept_upto(norm, tv, i - 1).push(c));
        }
    }
}

pub proof fn lemma_insert_ok(s: Seq<Cand>, c: Cand, norm: Seq<char>, tv: Seq<TriggerView>)
    requires
        forall|k: int| 0 <= k < s.len() ==> cand_ok(#[trigger] s[k], norm, tv),
        cand_ok(c, norm, tv),
    ensures
        forall|k: int|
            0 <= k < insert_desc(s, c).len() ==> cand_ok(#[trigger] insert_desc(s, c)[k], norm, tv),
    decreases s.len(),
{
    if s.len() == 0 {
    } else if precedes(c, s[0]) {
    } else {
        assert(forall|k: int|
            0 <= k < s.drop_first().len() ==> cand_ok(#[trigger] s.drop_first()[k], norm, tv));
        lemma_insert_ok(s.drop_first(), c, norm, tv);
        assert(forall|k: int|
            0 <= k < insert_desc(s, c).len() ==> cand_ok(#[trigger] insert_desc(s, c)[k], norm, tv))
            by {
            assert(insert_desc(s, c) == seq![s[0]] + insert_desc(s.drop_first(), c));
        }
    }
}

pub proof fn lemma_sort_ok(s: Seq<Cand>, norm: Seq<char>, tv: Seq<TriggerView>)
    requires
        forall|k: int| 0 <= k < s.len() ==> cand_ok(#[trigger] s[k], norm, tv),
    ensures
        forall|k: int|
            0 <= k < sort_desc(s).len() ==> cand_ok(#[trigger] sort_desc(s)[k], norm, tv),
    decreases s.len(),
{
    if s.len() > 0 {
        assert(forall|k: int|
            0 <= k < s.drop_last().len() ==> cand_ok(#[trigger] s.drop_last()[k], norm, tv));
        lemma_sort_ok(s.drop_last(), norm, tv);
        lemma_insert_ok(sort_desc(s.drop_last()), s.last(), norm, tv);
    }
}

/// The first `n` sorted candidates whose score lies within 100 milli
/// of the best score, in order.
pub open spec fn close_upto(s: Seq<Cand>, best: int, n: int) -> Seq<Cand>
    decreases n,
    when 0 <= n <= s.len()
{
    if n <= 0 {
        Seq::empty()
    } else {
        let rest = close_upto(s, best, n - 1);
        if s[n - 1].score + 100 >= best {
            rest.push(s[n - 1])
        } else {
            rest
        }
    }
}

pub proof fn lemma_close_ok(s: Seq<Cand>, best: int, n: int, norm: Seq<char>, tv: Seq<TriggerView>)
    requires
        0 <= n <= s.len(),
        forall|k: int| 0 <= k < s.len() ==> cand_ok(#[trigger] s[k], norm, tv),
    ensures
        close_upto(s, best, n).len() <= n,
        forall|k: int|
            0 <= k < close_upto(s, best, n).len() ==> cand_ok(
                #[trigger] close_upto(s, best, n)[k],
                norm,
                tv,
            ),
    decreases n,
{
    if n > 0 {
        lemma_close_ok(s, best, n - 1, norm, tv);
    }
}

/// The match built for a scored trigger.
pub open spec fn mk_match_view(t: TriggerView, score: int, input: Seq<char>) -> IntentMatchView {
    IntentMatchView {
        intent_name: t.intent_name,
        provider_name: t.provider_name,
        confidence: score,
        trigger_pattern: t.pattern,
        original_input: input,
        entities: Seq::<crate::types::EntityView>::empty(),
        source: "rule_based"@,
    }
}

pub open spec fn suggestion_views(cs: Seq<Cand>, tv: Seq<TriggerView>, input: Seq<char>) -> Seq<
    IntentMatchView,
> {
    Seq::new(cs.len(), |k: int| mk_match_view(tv[cs[k].idx as int], cs[k].score as int, input))
}

/// The classification of `input` against `tv`, start to finish: score
/// and filter every trigger, sort the survivors by score (ties in
/// trigger order), then apply the confidence-zone policy.
pub open spec fn match_spec(input: Seq<char>, tv: Seq<TriggerView>) -> ParseResultView {
    if tv.len() == 0 {
        ParseResultView::NoMatch
    } else {
        let norm = norm_spec(input);
        let kept = kept_upto(norm, tv, tv.len() as int);
        if kept.len() == 0 {
            ParseResultView::NoMatch
        } else {
            let sorted = sort_desc(kept);
            let best = sorted[0].score as int;
            if best >= CONFIDENCE_THRESHOLD {
                ParseResultView::Match(mk_match_view(tv[sorted[0].idx as int], best, input))
            } else {
                let cap = if sorted.len() < 5 {
                    sorted.len() as int
                } else {
                    5
                };
                let close = close_upto(sorted, best, cap);
                if AMBIGUITY_ZONE_START <= best && best < AMBIGUITY_ZONE_END && close.len() > 1 {
                    ParseResultView::Ambiguous(
                        AmbiguousMatchView {
                            original_input: input,
                            suggestions: suggestion_views(close, tv, input),
                        },
                    )
                } else if best >= MIN_CONFIDENCE {
                    ParseResultView::Match(mk_match_view(tv[sorted[0].idx as int], best, input))
                } else {
                    ParseResultView::NoMatch
                }
            }
        }
    }
}

/// A single trigger of unit weight whose non-empty pattern equals the
/// normalized input is returned as a direct match whose confidence
/// reaches the direct-match threshold.
pub proof fn lemma_exact_pattern_matches(input: Seq<char>, t: TriggerView)
    requires
        t.pattern == norm_spec(input),
        t.pattern.len() > 0,
        t.weight == 1000,
    ensures
        match_spec(input, seq![t]) == ParseResultView::Match(mk_match_view(t, 1000, input)),
        mk_match_view(t, 1000, input).confidence >= CONFIDENCE_THRESHOLD,
{
    let tv = seq![t];
    let norm = norm_spec(input);
    crate::similarity::lemma_similarity_self(norm);
    lemma_best_sim_bounds(norm, t, t.aliases.len() as int);
    assert(best_sim(norm, t) == 1000);
    assert(final_score(norm, t) == 1000);
    let c = Cand { idx: 0usize, score: 1000u64 };
    assert(tv[0] == t);
    assert(kept_upto(norm, tv, 0) =~= Seq::<Cand>::empty());
    assert(kept_upto(norm, tv, 1) =~= seq![c]);
    assert(seq![c].drop_last() =~= Seq::<Cand>::empty());
    assert(sort_desc(Seq::<Cand>::empty()) =~= Seq::<Cand>::empty());
    assert(insert_desc(Seq::<Cand>::empty(), c) =~= seq![c]);
    assert(sort_desc(kept_upto(norm, tv, 1)) == seq![c]);
    assert(match_spec(input, tv) == ParseResultView::Match(mk_match_view(t, 1000, input)));
}

/// Two triggers whose final scores both lie in the ambiguity zone and
/// within 100 of each other are reported as ambiguous, with both
/// suggestions present in descending score order (the earlier trigger
/// first on a tie).
pub proof fn lemma_close_pair_is_ambiguous(input: Seq<char>, t0: TriggerView, t1: TriggerView)
    requires
        AMBIGUITY_ZONE_START <= final_score(norm_spec(input), t0) < AMBIGUITY_ZONE_END,
        AMBIGUITY_ZONE_START <= final_score(norm_spec(input), t1) < AMBIGUITY_ZONE_END,
        final_score(norm_spec(input), t0) - final_score(norm_spec(input), t1) <= 100,
        final_score(norm_spec(input), t1) - final_score(norm_spec(input), t0) <= 100,
    ensures
        ({
            let s0 = final_score(norm_spec(input), t0);
            let s1 = final_score(norm_spec(input), t1);
            let first = if s1 > s0 {
                mk_match_view(t1, s1, input)
            } else {
                mk_match_view(t0, s0, input)
            };
            let second = if s1 > s0 {
                mk_match_view(t0, s0, input)
            } else {
                mk_match_view(t1, s1, input)
            };
            &&& match_spec(input, seq![t0, t1]) == ParseResultView::Ambiguous(
                AmbiguousMatchView { original_input: input, suggestions: seq![first, second] },
            )
            &&& first.confidence >= second.confidence
        }),
{
    let tv = seq![t0, t1];
    let norm = norm_spec(input);
    let s0 = final_score(norm, t0);
    let s1 = final_score(norm, t1);
    let c0 = Cand { idx: 0usize, score: s0 as u64 };
    let c1 = Cand { idx: 1usize, score: s1 as u64 };
    assert(tv[0] == t0 && tv[1] == t1);
    assert(kept_upto(norm, tv, 0) =~= Seq::<Cand>::empty());
    assert(kept_upto(norm, tv, 1) =~= seq![c0]);
    assert(kept_upto(norm, tv, 2) =~= seq![c0, c1]);
    let kept = seq![c0, c1];
    assert(kept.drop_last() =~= seq![c0]);
    assert(seq![c0].drop_last() =~= Seq::<Cand>::empty());
    assert(sort_desc(Seq::<Cand>::empty()) =~= Seq::<Cand>::empty());
    assert(insert_desc(Seq::<Cand>::empty(), c0) =~= seq![c0]);
    assert(sort_desc(seq![c0]) == insert_desc(sort_desc(Seq::<Cand>::empty()), c0));
    let sorted = if precedes(c1, c0) {
        seq![c1, c0]
    } else {
        seq![c0, c1]
    };
    if precedes(c1, c0) {
        assert(insert_desc(seq![c0], c1) =~= seq![c1] + seq![c0]);
        assert(seq![c1] + seq![c0] =~= seq![c1, c0]);
    } else {
        assert(seq![c0].drop_first() =~= Seq::<Cand>::empty());
        assert(insert_desc(seq![c0], c1) =~= seq![c0] + insert_desc(Seq::<Cand>::empty(), c1));
        assert(seq![c0] + seq![c1] =~= seq![c0, c1]);
    }
    assert(sort_desc(kept) == sorted);
    let best = sorted[0].score as int;
    assert(best < CONFIDENCE_THRESHOLD);
    assert(close_upto(sorted, best, 0) =~= Seq::<Cand>::empty());
    assert(close_upto(sorted, best, 1) =~= seq![sorted[0]]);
    assert(sorted[1].score + 100 >= best);
    assert(close_upto(sorted, best, 2) =~= seq![sorted[0], sorted[1]]);
    assert(close_upto(sorted, best, 2) =~= sorted);
    let close = close_upto(sorted, best, 2);
    assert(close.len() == 2);
    let first = if s1 > s0 {
        mk_match_view(t1, s1, input)
    } else {
        mk_match_view(t0, s0, input)
    };
    let second = if s1 > s0 {
        mk_match_view(t0, s0, input)
    } else {
        mk_match_view(t1, s1, input)
    };
    assert(precedes(c1, c0) == (s1 > s0));
    assert(suggestion_views(close, tv, input) =~= seq![first, second]);
}

fn precedes_x(a: Cand, b: Cand) -> (r: bool)
    ensures
        r == precedes(a, b),
{
    a.score > b.score || (a.score == b.score && a.idx < b.idx)
}

/// Lower-cases and trims the input.
fn normalize(input: &str) -> (r: String)
    ensures
        r@ == norm_spec(input@),
{
    let ls = lowercase(input);
    let cv = to_chars(ls.as_str());
    let a = scan_space(&cv, 0);
    if a == cv.len() {
        return String::new();
    }
    proof {
        lemma_space_run(cv@, 0);
        lemma_trailing_spaces(cv@, cv@.len() as int);
    }
    let mut b: usize = cv.len();
    while b > 0 && space_char(cv[b - 1])
        invariant
            0 <= b <= cv@.len(),
            trailing_spaces(cv@, cv@.len() as int) == (cv@.len() - b) + trailing_spaces(
                cv@,
                b as int,
            ),
        decreases b,
    {
        b -= 1;
    }
    proof {
        assert(trailing_spaces(cv@, b as int) == 0);
        assert(trailing_spaces(cv@, cv@.len() as int) == cv@.len() - b);
        if b <= a {
            assert(crate::text::is_space_char(cv@[a as int]));
        }
    }
    let sub = ls.as_str().substring_char(a, b);
    sub.to_owned()
}

fn mk_match(t: &Trigger, score: u64, input: &str) -> (r: IntentMatch)
    ensures
        r@ == mk_match_view(t@, score as int, input@),
{
    IntentMatch::new(
        t.intent_name.clone(),
        t.provider_name.clone(),
        score,
        t.pattern.clone(),
        input.to_owned(),
        "rule_based".to_owned(),
    )
}

/// Match user input against a list of triggers.
///
/// Returns the best match, an ambiguous set of suggestions, or
/// `NoMatch` when no trigger scores at least `MIN_CONFIDENCE`.
pub fn match_intent(input: &str, triggers: &[Trigger]) -> (r: ParseResult)
    ensures
        r@ == match_spec(input@, trig_views(triggers@)),
        triggers@.len() == 0 ==> r@ is NoMatch,
{
    let ghost tvg = trig_views(triggers@);
    if triggers.len() == 0 {
        return ParseResult::NoMatch;
    }
    let norm = normalize(input);
    let mut cands: Vec<Cand> = Vec::new();
    let mut i: usize = 0;
    while i < triggers.len()
        invariant
            i <= triggers@.len(),
            tvg == trig_views(triggers@),
            norm@ == norm_spec(input@),
            cands@ == kept_upto(norm@, tvg, i as int),
        decreases triggers@.len() - i,
    {
        let t = &triggers[i];
        proof {
            assert(tvg[i as int] == triggers@[i as int]@);
        }
        let mut best: u32 = calculate_similarity(norm.as_str(), t.pattern.as_str());
        let mut k: usize = 0;
        while k < t.aliases.len()
            invariant
                k <= t.aliases@.len(),
                t == triggers@[i as int],
                0 <= i < triggers@.len(),
                tvg == trig_views(triggers@),
                tvg[i as int] == triggers@[i as int]@,
                norm@ == norm_spec(input@),
                best <= 1000,
                best as int == best_sim_upto(norm@, tvg[i as int], k as int),
            decreases t.aliases@.len() - k,
        {
            let a = calculate_similarity(norm.as_str(), t.aliases[k].as_str());
            if a > best {
                best = a;
            }
            k += 1;
        }
        let w: u64 = t.weight;
        proof {
            assert((best as u128) * (w as u128) <= 1000u128 * (u64::MAX as u128))
                by (nonlinear_arith)
                requires
                    best <= 1000,
                    w <= u64::MAX,
            ;
        }
        let num: u128 = (best as u128) * (w as u128);
        let fs128: u128 = num / 1000;
        proof {
            assert(fs128 <= w as u128) by (nonlinear_arith)
                requires
                    best <= 1000,
                    num == (best as u128) * (w as u128),
                    fs128 == num / 1000,
            ;
            assert(fs128 as int == final_score(norm@, tvg[i as int]));
        }
        let fs: u64 = fs128 as u64;
        if fs >= MIN_CONFIDENCE {
            cands.push(Cand { idx: i, score: fs });
        }
        i += 1;
    }
    proof {
        assert forall|k: int| 0 <= k < tvg.len() implies 0 <= #[trigger] tvg[k].weight
            <= u64::MAX by {
            assert(tvg[k] == triggers@[k]@);
        }
        lemma_kept_ok(norm@, tvg, tvg.len() as int);
    }
    if cands.len() == 0 {
        return ParseResult::NoMatch;
    }
    let mut sorted: Vec<Cand> = Vec::new();
    let mut k2: usize = 0;
    while k2 < cands.len()
        invariant
            k2 <= cands@.len(),
            sorted@ == sort_desc(cands@.take(k2 as int)),
            sorted@.len() == k2,
        decreases cands@.len() - k2,
    {
        let c = cands[k2];
        let mut p: usize = 0;
        while p < sorted.len() && !precedes_x(c, sorted[p])
            invariant
                p <= sorted@.len(),
                forall|q: int| 0 <= q < p ==> !precedes(c, sorted@[q]),
            decreases sorted@.len() - p,
        {
            p += 1;
        }
        proof {
            lemma_insert_at(sorted@, c, p as int);
            assert(cands@.take(k2 + 1).drop_last() =~= cands@.take(k2 as int));
            assert(cands@.take(k2 + 1).last() == cands@[k2 as int]);
        }
        let ghost old_sorted = sorted@;
        sorted.insert(p, c);
        proof {
            assert(sorted@ =~= old_sorted.take(p as int) + seq![c] + old_sorted.skip(p as int));
        }
        k2 += 1;
    }
    let ghost keptg = kept_upto(norm@, tvg, tvg.len() as int);
    proof {
        assert(cands@.take(cands@.len() as int) =~= cands@);
        lemma_sort_ok(keptg, norm@, tvg);
    }
    let best_cand = sorted[0];
    let best = best_cand.score;
    if best >= CONFIDENCE_THRESHOLD {
        return ParseResult::Match(mk_match(&triggers[best_cand.idx], best, input));
    }
    let cap: usize = if sorted.len() < 5 {
        sorted.len()
    } else {
        5
    };
    let mut close: Vec<Cand> = Vec::new();
    let mut q: usize = 0;
    while q < cap
        invariant
            q <= cap,
            cap <= sorted@.len(),
            sorted@ == sort_desc(keptg),
            close@ == close_upto(sorted@, best as int, q as int),
        decreases cap - q,
    {
        let sc = sorted[q];
        let within = if sc.score >= best {
            true
        } else {
            best - sc.score <= 100
        };
        if within {
            close.push(sc);
        }
        q += 1;
    }
    proof {
        lemma_close_ok(sorted@, best as int, cap as int, norm@, tvg);
    }
    if AMBIGUITY_ZONE_START <= best && best < AMBIGUITY_ZONE_END && close.len() > 1 {
        let mut sugg: Vec<IntentMatch> = Vec::new();
        let mut u: usize = 0;
        while u < close.len()
            invariant
                u <= close@.len(),
                tvg == trig_views(triggers@),
                forall|k: int| 0 <= k < close@.len() ==> cand_ok(#[trigger] close@[k], norm@, tvg),
                sugg@.len() == u,
                forall|k: int|
                    0 <= k < u ==> sugg@[k]@ == mk_match_view(
                        tvg[close@[k].idx as int],
                        close@[k].score as int,
                        input@,
                    ),
            decreases close@.len() - u,
        {
            let cc = close[u];
            proof {
                assert(cand_ok(close@[u as int], norm@, tvg));
                assert(tvg[cc.idx as int] == triggers@[cc.idx as int]@);
            }
            sugg.push(mk_match(&triggers[cc.idx], cc.score, input));
            u += 1;
        }
        let am = AmbiguousMatch { original_input: input.to_owned(), suggestions: sugg };
        proof {
            assert(am@.suggestions =~= suggestion_views(close@, tvg, input@));
        }
        return ParseResult::Ambiguous(am);
    }
    if best >= MIN_CONFIDENCE {
        return ParseResult::Match(mk_match(&triggers[best_cand.idx], best, input));
    }
    ParseResult::NoMatch
}

} // verus!
