//! Entity extraction from user input.
//!
//! A fixed, ordered rule set scans the text for special path keywords,
//! quoted paths, environment variables, file names, numbers with a
//! unit, and plain numbers.  All offsets are half-open character
//! offsets into the source text.
//!
//! Rule order is load-bearing: the number-with-unit rule runs before
//! the plain-number rule, and the recorded start offsets of its
//! matches suppress plain-number duplicates at the same position.

use vstd::prelude::*;
use vstd::string::StrSliceExecFns;
use crate::text::{digit_run, env_run, eq_chars, find_char, find_char_from, find_from, find_first,
    lemma_find_char_from,
    fold_chars, fold_seq, is_word_char, lemma_digit_run, lemma_env_run, lemma_find_from,
    lemma_space_run, lemma_word_run, scan_digits, scan_env, scan_space, scan_word, space_run,
    to_chars, word_char, word_run};
use crate::types::{Entity, EntityView};

verus! {

// ---------------------------------------------------------------------
// Views and well-formedness
// ---------------------------------------------------------------------

pub open spec fn ent_views(es: Seq<Entity>) -> Seq<EntityView> {
    Seq::new(es.len(), |i: int| es[i]@)
}

/// The span invariant of every extracted entity: a half-open character
/// range inside the source text.
pub open spec fn entity_wf(e: EntityView, n: int) -> bool {
    0 <= e.start <= e.end <= n
}

pub open spec fn all_wf(es: Seq<EntityView>, n: int) -> bool {
    forall|k: int| 0 <= k < es.len() ==> entity_wf(#[trigger] es[k], n)
}

// ---------------------------------------------------------------------
// Word boundaries
// ---------------------------------------------------------------------

/// A word boundary in front of offset `p`.
pub open spec fn at_boundary(s: Seq<char>, p: int) -> bool {
    p == 0 || !is_word_char(s[p - 1])
}

// ---------------------------------------------------------------------
// Quoted paths
// ---------------------------------------------------------------------

/// A quoted span opens at `p`: `s[p]` is the quote, at least one other
/// character follows before the next quote, which closes the span.
/// Returns the offset of the closing quote.
pub open spec fn quote_end(s: Seq<char>, p: int, qc: char) -> Option<int> {
    if 0 <= p < s.len() && s[p] == qc {
        match find_char_from(s, qc, p + 1) {
            Some(q) => if q > p + 1 {
                Some(q)
            } else {
                None
            },
            None => None,
        }
    } else {
        None
    }
}

pub open spec fn quote_entity(s: Seq<char>, p: int, q: int) -> EntityView {
    EntityView {
        entity_type: "path"@,
        value: s.subrange(p + 1, q),
        original: s.subrange(p, q + 1),
        start: p,
        end: q + 1,
    }
}

/// All quoted-path entities at or after `p`, left to right, each scan
/// resuming after the closing quote.
pub open spec fn scan_quotes(s: Seq<char>, p: int, qc: char) -> Seq<EntityView>
    decreases s.len() - p,
    when 0 <= p
    via scan_quotes_dec
{
    if p >= s.len() {
        Seq::empty()
    } else {
        match quote_end(s, p, qc) {
            Some(q) => seq![quote_entity(s, p, q)] + scan_quotes(s, q + 1, qc),
            None => scan_quotes(s, p + 1, qc),
        }
    }
}

#[via_fn]
proof fn scan_quotes_dec(s: Seq<char>, p: int, qc: char) {
    if 0 <= p < s.len() {
        if quote_end(s, p, qc) is Some {
            crate::text::lemma_find_char_from(s, qc, p + 1);
        }
    }
}

pub proof fn lemma_scan_quotes_wf(s: Seq<char>, p: int, qc: char)
    requires
        0 <= p,
    ensures
        all_wf(scan_quotes(s, p, qc), s.len() as int),
    decreases s.len() - p,
{
    if p >= s.len() {
    } else {
        match quote_end(s, p, qc) {
            Some(q) => {
                crate::text::lemma_find_char_from(s, qc, p + 1);
                lemma_scan_quotes_wf(s, q + 1, qc);
            },
            None => {
                lemma_scan_quotes_wf(s, p + 1, qc);
            },
        }
    }
}

// ---------------------------------------------------------------------
// Environment variables
// ---------------------------------------------------------------------

/// `%NAME%` at `p`: a per-cent sign, a non-empty run of upper-case
/// letters and underscores, and a closing per-cent sign, whose offset
/// is returned.
pub open spec fn env_end(s: Seq<char>, p: int) -> Option<int> {
    if 0 <= p < s.len() && s[p] == '%' {
        let r = env_run(s, p + 1) as int;
        if r >= 1 && p + 1 + r < s.len() && s[p + 1 + r] == '%' {
            Some(p + 1 + r)
        } else {
            None
        }
    } else {
        None
    }
}

pub open spec fn env_entity(s: Seq<char>, p: int, q: int) -> EntityView {
    EntityView {
        entity_type: "envvar"@,
        value: s.subrange(p + 1, q),
        original: s.subrange(p, q + 1),
        start: p,
        end: q + 1,
    }
}

pub open spec fn scan_envs(s: Seq<char>, p: int) -> Seq<EntityView>
    decreases s.len() - p,
    when 0 <= p
{
    if p >= s.len() {
        Seq::empty()
    } else {
        match env_end(s, p) {
            Some(q) => seq![env_entity(s, p, q)] + scan_envs(s, q + 1),
            None => scan_envs(s, p + 1),
        }
    }
}

pub proof fn lemma_scan_envs_wf(s: Seq<char>, p: int)
    requires
        0 <= p,
    ensures
        all_wf(scan_envs(s, p), s.len() as int),
    decreases s.len() - p,
{
    if p >= s.len() {
    } else {
        match env_end(s, p) {
            Some(q) => {
                lemma_scan_envs_wf(s, q + 1);
            },
            None => {
                lemma_scan_envs_wf(s, p + 1);
            },
        }
    }
}

// ---------------------------------------------------------------------
// File names
// ---------------------------------------------------------------------

/// The recognized file extensions.
pub open spec fn is_ext(t: Seq<char>) -> bool {
    t == "txt"@ || t == "pdf"@ || t == "doc"@ || t == "docx"@ || t == "jpg"@ || t == "png"@ || t
        == "log"@ || t == "json"@ || t == "xml"@ || t == "py"@ || t == "exe"@
}

/// A file name at `p`: a word boundary, a non-empty word run, a dot,
/// and a final word run that is a known extension (the maximal run, so
/// a word boundary follows).  Returns the end of the whole name.
pub open spec fn file_end(s: Seq<char>, p: int) -> Option<int> {
    if 0 <= p < s.len() && at_boundary(s, p) {
        let w = word_run(s, p) as int;
        if w >= 1 && p + w < s.len() && s[p + w] == '.' {
            let v = word_run(s, p + w + 1) as int;
            if v >= 1 && is_ext(s.subrange(p + w + 1, p + w + 1 + v)) {
                Some(p + w + 1 + v)
            } else {
                None
            }
        } else {
            None
        }
    } else {
        None
    }
}

pub open spec fn file_entity(s: Seq<char>, p: int, q: int) -> EntityView {
    EntityView {
        entity_type: "file"@,
        value: s.subrange(p, q),
        original: s.subrange(p, q),
        start: p,
        end: q,
    }
}

pub open spec fn scan_files(s: Seq<char>, p: int) -> Seq<EntityView>
    decreases s.len() - p,
    when 0 <= p
    via scan_files_dec
{
    if p >= s.len() {
        Seq::empty()
    } else {
        match file_end(s, p) {
            Some(q) => seq![file_entity(s, p, q)] + scan_files(s, q),
            None => scan_files(s, p + 1),
        }
    }
}

#[via_fn]
proof fn scan_files_dec(s: Seq<char>, p: int) {
    if 0 <= p < s.len() && file_end(s, p) is Some {
        lemma_word_run(s, p);
        let w = word_run(s, p) as int;
        if w >= 1 && p + w < s.len() && s[p + w] == '.' {
            lemma_word_run(s, p + w + 1);
        }
    }
}

pub proof fn lemma_scan_files_wf(s: Seq<char>, p: int)
    requires
        0 <= p,
    ensures
        all_wf(scan_files(s, p), s.len() as int),
    decreases s.len() - p,
{
    if p >= s.len() {
    } else {
        match file_end(s, p) {
            Some(q) => {
                lemma_word_run(s, p);
                let w = word_run(s, p) as int;
                if w >= 1 && p + w < s.len() && s[p + w] == '.' {
                    lemma_word_run(s, p + w + 1);
                }
                lemma_scan_files_wf(s, q);
            },
            None => {
                lemma_scan_files_wf(s, p + 1);
            },
        }
    }
}

// ---------------------------------------------------------------------
// Numbers with a unit
// ---------------------------------------------------------------------

pub open spec fn prefix_at(s: Seq<char>, q: int, u: Seq<char>) -> bool {
    0 <= q && q + u.len() <= s.len() && s.subrange(q, q + u.len()) == u
}

/// The first unit of the fixed list that starts at `q`, and its
/// length.
pub open spec fn unit_at(s: Seq<char>, q: int) -> Option<int> {
    if prefix_at(s, q, "gb"@) {
        Some("gb"@.len() as int)
    } else if prefix_at(s, q, "mb"@) {
        Some("mb"@.len() as int)
    } else if prefix_at(s, q, "kb"@) {
        Some("kb"@.len() as int)
    } else if prefix_at(s, q, "percent"@) {
        Some("percent"@.len() as int)
    } else if prefix_at(s, q, "%"@) {
        Some("%"@.len() as int)
    } else {
        None
    }
}

/// A number with a unit at `p`: a word boundary, a non-empty digit
/// run, optional whitespace, then a unit.  Returns the digit-run
/// length and the end of the whole match.
pub open spec fn unit_num_end(s: Seq<char>, p: int) -> Option<(int, int)> {
    if 0 <= p < s.len() && at_boundary(s, p) {
        let d = digit_run(s, p) as int;
        if d >= 1 {
            let q = p + d + space_run(s, p + d) as int;
            match unit_at(s, q) {
                Some(ul) => Some((d, q + ul)),
                None => None,
            }
        } else {
            None
        }
    } else {
        None
    }
}

/// A number-with-unit match is reported as a plain `number` entity
/// whose value is the digits alone and whose original text keeps the
/// unit.
pub open spec fn unit_entity(s: Seq<char>, p: int, d: int, q: int) -> EntityView {
    EntityView {
        entity_type: "number"@,
        value: s.subrange(p, p + d),
        original: s.subrange(p, q),
        start: p,
        end: q,
    }
}

pub open spec fn scan_units(s: Seq<char>, p: int) -> Seq<EntityView>
    decreases s.len() - p,
    when 0 <= p
    via scan_units_dec
{
    if p >= s.len() {
        Seq::empty()
    } else {
        match unit_num_end(s, p) {
            Some(dq) => seq![unit_entity(s, p, dq.0, dq.1)] + scan_units(s, dq.1),
            None => scan_units(s, p + 1),
        }
    }
}

#[via_fn]
proof fn scan_units_dec(s: Seq<char>, p: int) {
}

pub proof fn lemma_scan_units_wf(s: Seq<char>, p: int)
    requires
        0 <= p,
    ensures
        all_wf(scan_units(s, p), s.len() as int),
    decreases s.len() - p,
{
    if p >= s.len() {
    } else {
        match unit_num_end(s, p) {
            Some(dq) => {
                lemma_scan_units_wf(s, dq.1);
            },
            None => {
                lemma_scan_units_wf(s, p + 1);
            },
        }
    }
}

/// The start offsets of a list of entities.
pub open spec fn starts_of(es: Seq<EntityView>) -> Seq<int> {
    Seq::new(es.len(), |k: int| es[k].start)
}

// ---------------------------------------------------------------------
// Plain numbers
// ---------------------------------------------------------------------

/// A stand-alone number at `p`: word boundaries on both sides of a
/// non-empty digit run.  Returns the end of the run.
pub open spec fn num_end(s: Seq<char>, p: int) -> Option<int> {
    if 0 <= p < s.len() && at_boundary(s, p) {
        let d = digit_run(s, p) as int;
        if d >= 1 && (p + d == s.len() || !is_word_char(s[p + d])) {
            Some(p + d)
        } else {
            None
        }
    } else {
        None
    }
}

pub open spec fn num_entity(s: Seq<char>, p: int, q: int) -> EntityView {
    EntityView {
        entity_type: "number"@,
        value: s.subrange(p, q),
        original: s.subrange(p, q),
        start: p,
        end: q,
    }
}

/// Plain-number entities at or after `p`, skipping any whose start was
/// already claimed by a number-with-unit match.
pub open spec fn scan_numbers(s: Seq<char>, p: int, banned: Seq<int>) -> Seq<EntityView>
    decreases s.len() - p,
    when 0 <= p
    via scan_numbers_dec
{
    if p >= s.len() {
        Seq::empty()
    } else {
        match num_end(s, p) {
            Some(q) => (if banned.contains(p) {
                Seq::empty()
            } else {
                seq![num_entity(s, p, q)]
            }) + scan_numbers(s, q, banned),
            None => scan_numbers(s, p + 1, banned),
        }
    }
}

#[via_fn]
proof fn scan_numbers_dec(s: Seq<char>, p: int, banned: Seq<int>) {
    if 0 <= p < s.len() && num_end(s, p) is Some {
        lemma_digit_run(s, p);
    }
}

pub proof fn lemma_scan_numbers_wf(s: Seq<char>, p: int, banned: Seq<int>)
    requires
        0 <= p,
    ensures
        all_wf(scan_numbers(s, p, banned), s.len() as int),
    decreases s.len() - p,
{
    if p >= s.len() {
    } else {
        match num_end(s, p) {
            Some(q) => {
                lemma_digit_run(s, p);
                lemma_scan_numbers_wf(s, q, banned);
            },
            None => {
                lemma_scan_numbers_wf(s, p + 1, banned);
            },
        }
    }
}

// ---------------------------------------------------------------------
// Special path keywords
// ---------------------------------------------------------------------

/// The special-path entity for one keyword, if the keyword occurs in
/// the case-folded text: it is reported at its first occurrence.
pub open spec fn special_one(folded: Seq<char>, kw: Seq<char>) -> Seq<EntityView> {
    match find_from(folded, kw, 0) {
        Some(k) => seq![
            EntityView {
                entity_type: "special_path"@,
                value: kw,
                original: kw,
                start: k,
                end: k + kw.len(),
            },
        ],
        None => Seq::empty(),
    }
}

/// The fixed keyword table, in its fixed emission order.
pub open spec fn special_spec(folded: Seq<char>) -> Seq<EntityView> {
    special_one(folded, "desktop"@) + special_one(folded, "downloads"@) + special_one(
        folded,
        "documents"@,
    ) + special_one(folded, "temp"@) + special_one(folded, "appdata"@) + special_one(
        folded,
        "userprofile"@,
    ) + special_one(folded, "home"@)
}

// ---------------------------------------------------------------------
// The whole rule set
// ---------------------------------------------------------------------

/// Every entity extracted from `text`, in emission order: special
/// paths over the case-folded text, then double-quoted and
/// single-quoted paths, environment variables, file names, numbers
/// with units, and plain numbers with duplicate starts suppressed.
pub open spec fn extract_spec(text: Seq<char>) -> Seq<EntityView> {
    let folded = fold_seq(text);
    let units = scan_units(text, 0);
    special_spec(folded) + scan_quotes(text, 0, '"') + scan_quotes(text, 0, '\'') + scan_envs(
        text,
        0,
    ) + scan_files(text, 0) + units + scan_numbers(text, 0, starts_of(units))
}

// ---------------------------------------------------------------------
// Well-formedness of the whole result
// ---------------------------------------------------------------------

pub proof fn lemma_all_wf_concat(a: Seq<EntityView>, b: Seq<EntityView>, n: int)
    requires
        all_wf(a, n),
        all_wf(b, n),
    ensures
        all_wf(a + b, n),
{
    assert forall|k: int| 0 <= k < (a + b).len() implies entity_wf(#[trigger] (a + b)[k], n) by {
        if k < a.len() {
            assert((a + b)[k] == a[k]);
        } else {
            assert((a + b)[k] == b[k - a.len()]);
        }
    }
}

pub proof fn lemma_special_one_wf(folded: Seq<char>, kw: Seq<char>)
    ensures
        all_wf(special_one(folded, kw), folded.len() as int),
{
    lemma_find_from(folded, kw, 0);
}

pub proof fn lemma_extract_wf(text: Seq<char>)
    ensures
        all_wf(extract_spec(text), text.len() as int),
{
    let folded = fold_seq(text);
    assert(folded.len() == text.len());
    lemma_special_one_wf(folded, "desktop"@);
    lemma_special_one_wf(folded, "downloads"@);
    lemma_special_one_wf(folded, "documents"@);
    lemma_special_one_wf(folded, "temp"@);
    lemma_special_one_wf(folded, "appdata"@);
    lemma_special_one_wf(folded, "userprofile"@);
    lemma_special_one_wf(folded, "home"@);
    lemma_all_wf_concat(special_one(folded, "desktop"@), special_one(folded, "downloads"@),
        text.len() as int);
    lemma_all_wf_concat(special_one(folded, "desktop"@) + special_one(folded, "downloads"@),
        special_one(folded, "documents"@), text.len() as int);
    lemma_all_wf_concat(special_one(folded, "desktop"@) + special_one(folded, "downloads"@)
        + special_one(folded, "documents"@), special_one(folded, "temp"@), text.len() as int);
    lemma_all_wf_concat(special_one(folded, "desktop"@) + special_one(folded, "downloads"@)
        + special_one(folded, "documents"@) + special_one(folded, "temp"@), special_one(folded,
        "appdata"@), text.len() as int);
    lemma_all_wf_concat(special_one(folded, "desktop"@) + special_one(folded, "downloads"@)
        + special_one(folded, "documents"@) + special_one(folded, "temp"@) + special_one(folded,
        "appdata"@), special_one(folded, "userprofile"@), text.len() as int);
    lemma_all_wf_concat(special_one(folded, "desktop"@) + special_one(folded, "downloads"@)
        + special_one(folded, "documents"@) + special_one(folded, "temp"@) + special_one(folded,
        "appdata"@) + special_one(folded, "userprofile"@), special_one(folded, "home"@),
        text.len() as int);
    assert(all_wf(special_spec(folded), text.len() as int));
    lemma_scan_quotes_wf(text, 0, '"');
    lemma_scan_quotes_wf(text, 0, '\'');
    lemma_scan_envs_wf(text, 0);
    lemma_scan_files_wf(text, 0);
    lemma_scan_units_wf(text, 0);
    lemma_scan_numbers_wf(text, 0, starts_of(scan_units(text, 0)));
    let s1 = special_spec(folded);
    let s2 = scan_quotes(text, 0, '"');
    let s3 = scan_quotes(text, 0, '\'');
    let s4 = scan_envs(text, 0);
    let s5 = scan_files(text, 0);
    let s6 = scan_units(text, 0);
    let s7 = scan_numbers(text, 0, starts_of(s6));
    lemma_all_wf_concat(s1, s2, text.len() as int);
    lemma_all_wf_concat(s1 + s2, s3, text.len() as int);
    lemma_all_wf_concat(s1 + s2 + s3, s4, text.len() as int);
    lemma_all_wf_concat(s1 + s2 + s3 + s4, s5, text.len() as int);
    lemma_all_wf_concat(s1 + s2 + s3 + s4 + s5, s6, text.len() as int);
    lemma_all_wf_concat(s1 + s2 + s3 + s4 + s5 + s6, s7, text.len() as int);
}

// ---------------------------------------------------------------------
// Executable scanners
// ---------------------------------------------------------------------

fn extract_quotes(text: &str, s: &Vec<char>, qc: char) -> (r: Vec<Entity>)
    requires
        s@ == text@,
    ensures
        ent_views(r@) == scan_quotes(s@, 0, qc),
{
    let mut out: Vec<Entity> = Vec::new();
    let mut p: usize = 0;
    while p < s.len()
        invariant
            p <= s@.len(),
            s@ == text@,
            scan_quotes(s@, 0, qc) == ent_views(out@) + scan_quotes(s@, p as int, qc),
        decreases s@.len() - p,
    {
        let mut step: usize = 1;
        if s[p] == qc {
            match find_char(s, qc, p + 1) {
                Some(q) => {
                    if q > p + 1 {
                        proof {
                            lemma_find_char_from(s@, qc, p + 1 as int);
                        }
                        let ghost prev = ent_views(out@);
                        let val = text.substring_char(p + 1, q).to_owned();
                        let orig = text.substring_char(p, q + 1).to_owned();
                        out.push(Entity::new("path".to_owned(), val, orig, p, q + 1));
                        proof {
                            assert(ent_views(out@) =~= prev.push(
                                quote_entity(s@, p as int, q as int),
                            ));
                            assert(ent_views(out@) + scan_quotes(s@, q + 1 as int, qc) =~= prev
                                + scan_quotes(s@, p as int, qc));
                        }
                        step = q + 1 - p;
                    }
                },
                None => {},
            }
        }
        p += step;
    }
    out
}

fn extract_envs(text: &str, s: &Vec<char>) -> (r: Vec<Entity>)
    requires
        s@ == text@,
    ensures
        ent_views(r@) == scan_envs(s@, 0),
{
    let mut out: Vec<Entity> = Vec::new();
    let mut p: usize = 0;
    while p < s.len()
        invariant
            p <= s@.len(),
            s@ == text@,
            scan_envs(s@, 0) == ent_views(out@) + scan_envs(s@, p as int),
        decreases s@.len() - p,
    {
        let mut step: usize = 1;
        if s[p] == '%' {
            proof {
                lemma_env_run(s@, p + 1 as int);
            }
            let r = scan_env(s, p + 1);
            if r > p + 1 && r < s.len() && s[r] == '%' {
                let ghost prev = ent_views(out@);
                let val = text.substring_char(p + 1, r).to_owned();
                let orig = text.substring_char(p, r + 1).to_owned();
                out.push(Entity::new("envvar".to_owned(), val, orig, p, r + 1));
                proof {
                    assert(ent_views(out@) =~= prev.push(env_entity(s@, p as int, r as int)));
                    assert(ent_views(out@) + scan_envs(s@, r + 1 as int) =~= prev + scan_envs(
                        s@,
                        p as int,
                    ));
                }
                step = r + 1 - p;
            }
        }
        p += step;
    }
    out
}

fn is_ext_x(s: &Vec<char>, a: usize, b: usize) -> (r: bool)
    requires
        a <= b <= s@.len(),
    ensures
        r == is_ext(s@.subrange(a as int, b as int)),
{
    let mut sub: Vec<char> = Vec::new();
    let mut k: usize = a;
    while k < b
        invariant
            a <= k <= b <= s@.len(),
            sub@ == s@.subrange(a as int, k as int),
        decreases b - k,
    {
        sub.push(s[k]);
        proof {
            assert(sub@ =~= s@.subrange(a as int, k + 1 as int));
        }
        k += 1;
    }
    eq_chars(&sub, &to_chars("txt")) || eq_chars(&sub, &to_chars("pdf")) || eq_chars(
        &sub,
        &to_chars("doc"),
    ) || eq_chars(&sub, &to_chars("docx")) || eq_chars(&sub, &to_chars("jpg")) || eq_chars(
        &sub,
        &to_chars("png"),
    ) || eq_chars(&sub, &to_chars("log")) || eq_chars(&sub, &to_chars("json")) || eq_chars(
        &sub,
        &to_chars("xml"),
    ) || eq_chars(&sub, &to_chars("py")) || eq_chars(&sub, &to_chars("exe"))
}

fn extract_files(text: &str, s: &Vec<char>) -> (r: Vec<Entity>)
    requires
        s@ == text@,
    ensures
        ent_views(r@) == scan_files(s@, 0),
{
    let mut out: Vec<Entity> = Vec::new();
    let mut p: usize = 0;
    while p < s.len()
        invariant
            p <= s@.len(),
            s@ == text@,
            scan_files(s@, 0) == ent_views(out@) + scan_files(s@, p as int),
        decreases s@.len() - p,
    {
        let mut step: usize = 1;
        let boundary = p == 0 || !word_char(s[p - 1]);
        if boundary {
            proof {
                lemma_word_run(s@, p as int);
            }
            let w_end = scan_word(s, p);
            if w_end > p && w_end < s.len() && s[w_end] == '.' {
                proof {
                    lemma_word_run(s@, w_end + 1 as int);
                }
                let v_end = scan_word(s, w_end + 1);
                if v_end > w_end + 1 && is_ext_x(s, w_end + 1, v_end) {
                    let ghost prev = ent_views(out@);
                    let orig = text.substring_char(p, v_end).to_owned();
                    let val = text.substring_char(p, v_end).to_owned();
                    out.push(Entity::new("file".to_owned(), val, orig, p, v_end));
                    proof {
                        assert(ent_views(out@) =~= prev.push(
                            file_entity(s@, p as int, v_end as int),
                        ));
                        assert(ent_views(out@) + scan_files(s@, v_end as int) =~= prev + scan_files(
                            s@,
                            p as int,
                        ));
                    }
                    step = v_end - p;
                }
            }
        }
        p += step;
    }
    out
}

fn prefix_x(s: &Vec<char>, q: usize, w: &Vec<char>) -> (r: bool)
    requires
        q <= s@.len(),
    ensures
        r == prefix_at(s@, q as int, w@),
{
    if s.len() - q >= w.len() {
        crate::text::match_at(s, w, q)
    } else {
        false
    }
}

fn unit_at_x(s: &Vec<char>, q: usize) -> (r: Option<usize>)
    requires
        q <= s@.len(),
    ensures
        match r {
            Some(ul) => unit_at(s@, q as int) == Some(ul as int) && q + ul <= s@.len(),
            None => unit_at(s@, q as int) is None,
        },
{
    let gb = to_chars("gb");
    if prefix_x(s, q, &gb) {
        return Some(gb.len());
    }
    let mb = to_chars("mb");
    if prefix_x(s, q, &mb) {
        return Some(mb.len());
    }
    let kb = to_chars("kb");
    if prefix_x(s, q, &kb) {
        return Some(kb.len());
    }
    let pc = to_chars("percent");
    if prefix_x(s, q, &pc) {
        return Some(pc.len());
    }
    let ps = to_chars("%");
    if prefix_x(s, q, &ps) {
        return Some(ps.len());
    }
    None
}

fn extract_units(text: &str, s: &Vec<char>) -> (r: Vec<Entity>)
    requires
        s@ == text@,
    ensures
        ent_views(r@) == scan_units(s@, 0),
{
    let mut out: Vec<Entity> = Vec::new();
    let mut p: usize = 0;
    while p < s.len()
        invariant
            p <= s@.len(),
            s@ == text@,
            scan_units(s@, 0) == ent_views(out@) + scan_units(s@, p as int),
        decreases s@.len() - p,
    {
        let mut step: usize = 1;
        let boundary = p == 0 || !word_char(s[p - 1]);
        if boundary {
            proof {
                lemma_digit_run(s@, p as int);
            }
            let d_end = scan_digits(s, p);
            if d_end > p {
                proof {
                    lemma_space_run(s@, d_end as int);
                }
                let sp_end = scan_space(s, d_end);
                match unit_at_x(s, sp_end) {
                    Some(ul) => {
                        let endp = sp_end + ul;
                        let ghost prev = ent_views(out@);
                        let val = text.substring_char(p, d_end).to_owned();
                        let orig = text.substring_char(p, endp).to_owned();
                        out.push(Entity::new("number".to_owned(), val, orig, p, endp));
                        proof {
                            assert(ent_views(out@) =~= prev.push(
                                unit_entity(s@, p as int, d_end - p, endp as int),
                            ));
                            assert(ent_views(out@) + scan_units(s@, endp as int) =~= prev
                                + scan_units(s@, p as int));
                        }
                        step = endp - p;
                    },
                    None => {},
                }
            }
        }
        p += step;
    }
    out
}

fn start_banned_x(units: &Vec<Entity>, p: usize) -> (r: bool)
    ensures
        r == starts_of(ent_views(units@)).contains(p as int),
{
    let mut u: usize = 0;
    while u < units.len()
        invariant
            u <= units@.len(),
            forall|k: int| 0 <= k < u ==> units@[k]@.start != p as int,
        decreases units@.len() - u,
    {
        if units[u].start == p {
            proof {
                assert(starts_of(ent_views(units@))[u as int] == p as int);
            }
            return true;
        }
        u += 1;
    }
    proof {
        if starts_of(ent_views(units@)).contains(p as int) {
            let k = choose|k: int|
                0 <= k < starts_of(ent_views(units@)).len() && starts_of(ent_views(units@))[k]
                    == p as int;
            assert(units@[k]@.start == p as int);
        }
    }
    false
}

fn extract_numbers(text: &str, s: &Vec<char>, units: &Vec<Entity>) -> (r: Vec<Entity>)
    requires
        s@ == text@,
    ensures
        ent_views(r@) == scan_numbers(s@, 0, starts_of(ent_views(units@))),
{
    let ghost banned = starts_of(ent_views(units@));
    let mut out: Vec<Entity> = Vec::new();
    let mut p: usize = 0;
    while p < s.len()
        invariant
            p <= s@.len(),
            s@ == text@,
            banned == starts_of(ent_views(units@)),
            scan_numbers(s@, 0, banned) == ent_views(out@) + scan_numbers(s@, p as int, banned),
        decreases s@.len() - p,
    {
        let mut step: usize = 1;
        let boundary = p == 0 || !word_char(s[p - 1]);
        if boundary {
            proof {
                lemma_digit_run(s@, p as int);
            }
            let d_end = scan_digits(s, p);
            if d_end > p && (d_end == s.len() || !word_char(s[d_end])) {
                let ghost prev = ent_views(out@);
                if !start_banned_x(units, p) {
                    let val = text.substring_char(p, d_end).to_owned();
                    let orig = text.substring_char(p, d_end).to_owned();
                    out.push(Entity::new("number".to_owned(), val, orig, p, d_end));
                    proof {
                        assert(ent_views(out@) =~= prev.push(
                            num_entity(s@, p as int, d_end as int),
                        ));
                    }
                }
                proof {
                    assert(ent_views(out@) + scan_numbers(s@, d_end as int, banned) =~= prev
                        + scan_numbers(s@, p as int, banned));
                }
                step = d_end - p;
            }
        }
        p += step;
    }
    out
}

fn push_special(out: &mut Vec<Entity>, folded: &Vec<char>, kw: &str)
    ensures
        ent_views(final(out)@) == ent_views(old(out)@) + special_one(folded@, kw@),
{
    let kv = to_chars(kw);
    let n: usize = folded.len();
    let ghost prev = ent_views(out@);
    match find_first(folded, &kv) {
        Some(k) => {
            proof {
                lemma_find_from(folded@, kv@, 0);
                assert(k + kv@.len() <= n);
            }
            out.push(
                Entity::new("special_path".to_owned(), kw.to_owned(), kw.to_owned(), k, k
                    + kv.len()),
            );
            proof {
                assert(ent_views(out@) =~= prev + special_one(folded@, kw@));
            }
        },
        None => {
            proof {
                assert(ent_views(out@) =~= prev + special_one(folded@, kw@));
            }
        },
    }
}

// ---------------------------------------------------------------------
// The extractor
// ---------------------------------------------------------------------

/// Extract entities from user input.
///
/// The rule set is fixed and built into the extractor, so construction
/// cannot fail.
pub struct EntityExtractor {}

impl EntityExtractor {
    pub fn new() -> (r: Self)
        ensures
            r == (EntityExtractor {  }),
    {
        EntityExtractor {  }
    }

    /// Scans `text` with every rule and returns the entities in
    /// emission order.  The result is a function of `text` alone, so
    /// repeated calls yield identical entity lists in identical order,
    /// and every entity's span lies inside the text.
    pub fn extract(&self, text: &str) -> (r: Vec<Entity>)
        ensures
            ent_views(r@) == extract_spec(text@),
            all_wf(ent_views(r@), text@.len() as int),
    {
        let tc = to_chars(text);
        let folded = fold_chars(&tc);
        let mut out: Vec<Entity> = Vec::new();
        push_special(&mut out, &folded, "desktop");
        push_special(&mut out, &folded, "downloads");
        push_special(&mut out, &folded, "documents");
        push_special(&mut out, &folded, "temp");
        push_special(&mut out, &folded, "appdata");
        push_special(&mut out, &folded, "userprofile");
        push_special(&mut out, &folded, "home");
        proof {
            assert(ent_views(out@) =~= special_spec(fold_seq(text@)));
        }
        let ghost sp = ent_views(out@);
        let mut qd = extract_quotes(text, &tc, '"');
        let ghost qdv = ent_views(qd@);
        out.append(&mut qd);
        proof {
            assert(ent_views(out@) =~= sp + qdv);
        }
        let ghost acc1 = ent_views(out@);
        let mut qs = extract_quotes(text, &tc, '\'');
        let ghost qsv = ent_views(qs@);
        out.append(&mut qs);
        proof {
            assert(ent_views(out@) =~= acc1 + qsv);
        }
        let ghost acc2 = ent_views(out@);
        let mut ev = extract_envs(text, &tc);
        let ghost evv = ent_views(ev@);
        out.append(&mut ev);
        proof {
            assert(ent_views(out@) =~= acc2 + evv);
        }
        let ghost acc3 = ent_views(out@);
        let mut fl = extract_files(text, &tc);
        let ghost flv = ent_views(fl@);
        out.append(&mut fl);
        proof {
            assert(ent_views(out@) =~= acc3 + flv);
        }
        let ghost acc4 = ent_views(out@);
        let mut un = extract_units(text, &tc);
        let ghost unv = ent_views(un@);
        let mut nm = extract_numbers(text, &tc, &un);
        let ghost nmv = ent_views(nm@);
        out.append(&mut un);
        proof {
            assert(ent_views(out@) =~= acc4 + unv);
        }
        let ghost acc5 = ent_views(out@);
        out.append(&mut nm);
        proof {
            assert(ent_views(out@) =~= acc5 + nmv);
            assert(ent_views(out@) =~= extract_spec(text@));
            lemma_extract_wf(text@);
        }
        out
    }
}

impl Default for EntityExtractor {
    fn default() -> (r: Self)
        ensures
            r == (EntityExtractor {  }),
    {
        EntityExtractor::new()
    }
}

} // verus!
