//! Ranking registered scripts against a free-text query and requested
//! tags: phrase and per-term matches on weighted fields, fuzzy fallbacks,
//! a coverage bonus, and soft tag boosts.
use vstd::prelude::*;
use skim::fuzzy_matcher::FuzzyMatcher;
use crate::config::opt_string_view;
use crate::order::{lemma_seq_lt_total, lemma_seq_lt_trans};
use crate::config::strings_view;
use crate::paths::{file_name, file_name_of, to_unix_style, unix_style};
use crate::registry::{DEFAULT_MCP_SEARCH_LIMIT, MAX_MCP_SEARCH_LIMIT, Script, ScriptView, scripts_view};
use crate::text::{
    ascii_lower, ascii_lower_exec, chars_eq, chars_lt, chars_of, contains_exec, contains_sub,
    eq_ignore_ascii_case, eq_ignore_ascii_case_exec, push_str, seq_lt, trim, trim_str,
};

verus! {

pub const PHRASE_BONUS: i64 = 30000;

pub const REQUESTED_TAG_BONUS: i64 = 12000;

pub const COVERAGE_BONUS: i64 = 10000;

/// What `str::to_lowercase` returns for `s` (the Unicode lowercase
/// mapping, with the final-sigma rule).
pub uninterp spec fn str_lowercase(s: Seq<char>) -> Seq<char>;

/// All scalars of `s` are ASCII.
pub open spec fn all_ascii(s: Seq<char>) -> bool {
    forall|i: int| 0 <= i < s.len() ==> (#[trigger] s[i] as u32) < 128
}

/// `str::to_lowercase`. An ASCII text is lowered letter by letter, as
/// `A`..`Z` lower to `a`..`z` in Unicode.
#[verifier::external_body]
pub(crate) fn lowercase(s: &str) -> (r: String)
    ensures
        r@ == str_lowercase(s@),
        all_ascii(s@) ==> r@ == s@.map_values(|c: char| ascii_lower(c)),
{
    s.to_lowercase()
}

/// What `char::is_alphanumeric` answers for `c`.
pub uninterp spec fn char_alphanumeric(c: char) -> bool;

pub open spec fn is_ascii_alnum(c: char) -> bool {
    ('a' <= c && c <= 'z') || ('A' <= c && c <= 'Z') || ('0' <= c && c <= '9')
}

/// `char::is_alphanumeric`: alphabetic or numeric in the Unicode sense;
/// among ASCII scalars exactly the letters and digits.
#[verifier::external_body]
fn alphanumeric(c: char) -> (r: bool)
    ensures
        r == char_alphanumeric(c),
        (c as u32) < 128 ==> r == is_ascii_alnum(c),
{
    c.is_alphanumeric()
}

/// The score of skim's fuzzy matcher, ignoring case, for `pattern`
/// against `choice`, or `None` when the pattern does not match.
pub uninterp spec fn skim_score(choice: Seq<char>, pattern: Seq<char>) -> Option<i64>;

/// `SkimMatcherV2::default().ignore_case().fuzzy_match(choice, pattern)`.
#[verifier::external_body]
fn fuzzy_score(choice: &str, pattern: &str) -> (r: Option<i64>)
    ensures
        r == skim_score(choice@, pattern@),
{
    skim::fuzzy_matcher::skim::SkimMatcherV2::default().ignore_case().fuzzy_match(choice, pattern)
}

/// `x` limited to the range of `i64`.
pub open spec fn sat(x: int) -> int {
    if x > i64::MAX {
        i64::MAX as int
    } else if x < i64::MIN {
        i64::MIN as int
    } else {
        x
    }
}

fn sat_add(a: i64, b: i64) -> (r: i64)
    ensures
        r == sat(a + b),
{
    let s = (a as i128) + (b as i128);
    if s > i64::MAX as i128 {
        i64::MAX
    } else if s < i64::MIN as i128 {
        i64::MIN
    } else {
        s as i64
    }
}

/// The name shown for a script: the final component of its path, or the
/// whole path when there is none.
pub open spec fn script_label(s: ScriptView) -> Seq<char> {
    match file_name_of(s.path) {
        Some(n) => n,
        None => s.path,
    }
}

pub fn script_name(script: &Script) -> (r: String)
    ensures
        r@ == script_label(script@),
{
    match file_name(script.path.as_str()) {
        Some(n) => n,
        None => script.path.clone(),
    }
}

/// `parts` joined with single spaces.
pub open spec fn join_spaces(parts: Seq<Seq<char>>) -> Seq<char>
    decreases parts.len(),
{
    if parts.len() == 0 {
        Seq::empty()
    } else if parts.len() == 1 {
        parts[0]
    } else {
        join_spaces(parts.drop_last()).push(' ') + parts.last()
    }
}

fn join_with_spaces(parts: &Vec<String>) -> (r: String)
    ensures
        r@ == join_spaces(crate::config::strings_view(parts@)),
{
    let ghost pv = crate::config::strings_view(parts@);
    let mut s = String::new();
    let mut i: usize = 0;
    while i < parts.len()
        invariant
            i <= parts.len(),
            pv == crate::config::strings_view(parts@),
            s@ == join_spaces(pv.take(i as int)),
        decreases parts.len() - i,
    {
        proof {
            assert(pv.take(i + 1).drop_last() =~= pv.take(i as int));
            assert(pv.take(i + 1).last() == pv[i as int]);
        }
        if i > 0 {
            s.push(' ');
        } else {
            assert(s@ =~= Seq::<char>::empty());
        }
        push_str(&mut s, parts[i].as_str());
        i += 1;
    }
    assert(pv.take(parts@.len() as int) =~= pv);
    s
}

pub open spec fn comment_text(s: ScriptView) -> Seq<char> {
    match s.comment {
        Some(c) => c,
        None => Seq::empty(),
    }
}

/// The text a whole-query fuzzy match runs against: name, path, command,
/// comment and tags, separated by spaces.
pub open spec fn search_text(s: ScriptView) -> Seq<char> {
    s.name.push(' ') + unix_style(s.path).push(' ') + s.command.push(' ') + comment_text(s).push(' ')
        + join_spaces(s.tags)
}

pub fn script_search_text(script: &Script) -> (r: String)
    ensures
        r@ == search_text(script@),
{
    let mut s = script.name.name.clone();
    s.push(' ');
    let p = to_unix_style(script.path.as_str());
    push_str(&mut s, p.as_str());
    s.push(' ');
    push_str(&mut s, script.command.as_str());
    s.push(' ');
    match &script.comment {
        Some(c) => push_str(&mut s, c.as_str()),
        None => {},
    }
    s.push(' ');
    let t = join_with_spaces(&script.tags);
    push_str(&mut s, t.as_str());
    assert(comment_text(script@) == match script.comment {
        Some(c) => c@,
        None => Seq::<char>::empty(),
    });
    assert(s@ =~= search_text(script@));
    s
}

/// The weighted fields a query is matched against.
pub open spec fn fields_of(s: ScriptView) -> Seq<(Seq<char>, int)> {
    seq![
        (script_label(s), 6000int),
        (comment_text(s), 4000int),
        (join_spaces(s.tags), 8000int),
        (unix_style(s.path), 2000int),
        (s.command, 1000int),
    ]
}

pub open spec fn max_with(r: Option<int>, v: int) -> int {
    match r {
        Some(x) => if x >= v {
            x
        } else {
            v
        },
        None => v,
    }
}

/// Best value `bonus + weight` among the first `k` fields whose lowercase
/// form contains `needle`.
pub open spec fn best_containing(fields: Seq<(Seq<char>, int)>, needle: Seq<char>, bonus: int, k: int) -> Option<int>
    decreases k,
{
    if k <= 0 {
        None
    } else {
        let r = best_containing(fields, needle, bonus, k - 1);
        if contains_sub(str_lowercase(fields[k - 1].0), needle) {
            Some(max_with(r, bonus + fields[k - 1].1))
        } else {
            r
        }
    }
}

/// Best fuzzy value among the first `k` fields: skim's score of `term`,
/// when it reaches eight per scalar of the term, plus a quarter of the
/// field's weight.
pub open spec fn best_fuzzy(fields: Seq<(Seq<char>, int)>, term: Seq<char>, k: int) -> Option<int>
    decreases k,
{
    if k <= 0 {
        None
    } else {
        let r = best_fuzzy(fields, term, k - 1);
        match skim_score(fields[k - 1].0, term) {
            Some(v) => if v >= term.len() * 8 {
                Some(max_with(r, sat(v + fields[k - 1].1 / 4)))
            } else {
                r
            },
            None => r,
        }
    }
}

/// What one query term adds: the weight of the best field containing it,
/// else its best fuzzy value.
pub open spec fn term_gain(fields: Seq<(Seq<char>, int)>, term: Seq<char>) -> Option<int> {
    match best_containing(fields, str_lowercase(term), 0, 5) {
        Some(w) => Some(w),
        None => best_fuzzy(fields, term, 5),
    }
}

/// Score accumulated over `terms` from `start`, and the number of terms
/// that matched.
pub open spec fn terms_gain(fields: Seq<(Seq<char>, int)>, terms: Seq<Seq<char>>, start: int) -> (int, int)
    decreases terms.len(),
{
    if terms.len() == 0 {
        (start, 0)
    } else {
        let (s, m) = terms_gain(fields, terms.drop_last(), start);
        match term_gain(fields, terms.last()) {
            Some(g) => (sat(s + g), m + 1),
            None => (s, m),
        }
    }
}

/// The score of a script for `query` and its `terms`, and whether it
/// matched: a phrase bonus for the best field holding the whole query,
/// per-term gains, a coverage bonus proportional to the share of matched
/// terms, and, when nothing else matched, a fuzzy match of the whole
/// query against the script's search text.
pub open spec fn query_score(s: ScriptView, query: Option<Seq<char>>, terms: Seq<Seq<char>>) -> (int, bool) {
    match query {
        None => (0, false),
        Some(q) => {
            let f = fields_of(s);
            let base = match best_containing(f, str_lowercase(q), PHRASE_BONUS as int, 5) {
                Some(p) => p,
                None => 0,
            };
            let (g, m) = terms_gain(f, terms, base);
            let score = if terms.len() > 0 && m > 0 {
                sat(g + (COVERAGE_BONUS * m) / (terms.len() as int))
            } else {
                g
            };
            let phrase = score >= PHRASE_BONUS;
            if !phrase && m == 0 {
                match skim_score(search_text(s), q) {
                    Some(v) => if v >= q.len() * 8 {
                        (v as int, true)
                    } else {
                        (score, phrase || m > 0)
                    },
                    None => (score, phrase || m > 0),
                }
            } else {
                (score, phrase || m > 0)
            }
        },
    }
}

struct Field {
    text: String,
    lower: String,
    weight: i64,
}

fn fields_exec(script: &Script) -> (f: Vec<Field>)
    ensures
        f@.len() == 5,
        forall|k: int| 0 <= k < 5 ==> (#[trigger] f@[k]).text@ == fields_of(script@)[k].0 && f@[k].weight
            == fields_of(script@)[k].1 && f@[k].lower@ == str_lowercase(f@[k].text@),
{
    let name = script_name(script);
    let comment = match &script.comment {
        Some(c) => c.clone(),
        None => String::new(),
    };
    let tags = join_with_spaces(&script.tags);
    let path = to_unix_style(script.path.as_str());
    let command = script.command.clone();
    let mut f: Vec<Field> = Vec::new();
    let l = lowercase(name.as_str());
    f.push(Field { text: name, lower: l, weight: 6000 });
    let l = lowercase(comment.as_str());
    f.push(Field { text: comment, lower: l, weight: 4000 });
    let l = lowercase(tags.as_str());
    f.push(Field { text: tags, lower: l, weight: 8000 });
    let l = lowercase(path.as_str());
    f.push(Field { text: path, lower: l, weight: 2000 });
    let l = lowercase(command.as_str());
    f.push(Field { text: command, lower: l, weight: 1000 });
    assert(comment_text(script@) == match script.comment {
        Some(c) => c@,
        None => Seq::<char>::empty(),
    });
    f
}

fn best_containing_exec(f: &Vec<Field>, needle: &Vec<char>, bonus: i64, Ghost(fv): Ghost<Seq<(Seq<char>, int)>>) -> (r: Option<i64>)
    requires
        f@.len() == 5,
        fv.len() == 5,
        0 <= bonus <= PHRASE_BONUS,
        forall|k: int| 0 <= k < 5 ==> (#[trigger] f@[k]).text@ == fv[k].0 && f@[k].weight == fv[k].1
            && f@[k].lower@ == str_lowercase(f@[k].text@) && 0 <= f@[k].weight <= 8000,
    ensures
        match r {
            Some(x) => best_containing(fv, needle@, bonus as int, 5) == Some(x as int),
            None => best_containing(fv, needle@, bonus as int, 5) is None,
        },
{
    let mut best: Option<i64> = None;
    let mut k: usize = 0;
    while k < 5
        invariant
            k <= 5,
            f@.len() == 5,
            0 <= bonus <= PHRASE_BONUS,
            forall|j: int| 0 <= j < 5 ==> (#[trigger] f@[j]).text@ == fv[j].0 && f@[j].weight == fv[j].1
                && f@[j].lower@ == str_lowercase(f@[j].text@) && 0 <= f@[j].weight <= 8000,
            match best {
                Some(x) => best_containing(fv, needle@, bonus as int, k as int) == Some(x as int) && 0 <= x <= 38000,
                None => best_containing(fv, needle@, bonus as int, k as int) is None,
            },
        decreases 5 - k,
    {
        let lv = chars_of(f[k].lower.as_str());
        if contains_exec(&lv, needle) {
            let v = bonus + f[k].weight;
            best = match best {
                Some(x) => if x >= v {
                    Some(x)
                } else {
                    Some(v)
                },
                None => Some(v),
            };
        }
        k += 1;
    }
    best
}

fn best_fuzzy_exec(f: &Vec<Field>, term: &str, Ghost(fv): Ghost<Seq<(Seq<char>, int)>>) -> (r: Option<i64>)
    requires
        f@.len() == 5,
        fv.len() == 5,
        forall|k: int| 0 <= k < 5 ==> (#[trigger] f@[k]).text@ == fv[k].0 && f@[k].weight == fv[k].1
            && 0 <= f@[k].weight <= 8000,
    ensures
        match r {
            Some(x) => best_fuzzy(fv, term@, 5) == Some(x as int),
            None => best_fuzzy(fv, term@, 5) is None,
        },
{
    let tv = chars_of(term);
    let mut best: Option<i64> = None;
    let mut k: usize = 0;
    while k < 5
        invariant
            k <= 5,
            f@.len() == 5,
            tv@ == term@,
            forall|j: int| 0 <= j < 5 ==> (#[trigger] f@[j]).text@ == fv[j].0 && f@[j].weight == fv[j].1
                && 0 <= f@[j].weight <= 8000,
            match best {
                Some(x) => best_fuzzy(fv, term@, k as int) == Some(x as int),
                None => best_fuzzy(fv, term@, k as int) is None,
            },
        decreases 5 - k,
    {
        match fuzzy_score(f[k].text.as_str(), term) {
            Some(v) => {
                if (v as i128) >= (tv.len() as i128) * 8 {
                    let v2 = sat_add(v, f[k].weight / 4);
                    best = match best {
                        Some(x) => if x >= v2 {
                            Some(x)
                        } else {
                            Some(v2)
                        },
                        None => Some(v2),
                    };
                }
            },
            None => {},
        }
        k += 1;
    }
    best
}


pub open spec fn opt_str_view(q: Option<&str>) -> Option<Seq<char>> {
    match q {
        Some(s) => Some(s@),
        None => None,
    }
}

/// Scores a script against a query already trimmed and non-empty, with
/// the query's terms.
pub fn score_query(script: &Script, query: Option<&str>, terms: &Vec<String>) -> (r: (i64, bool))
    ensures
        (r.0 as int, r.1) == query_score(script@, opt_str_view(query), strings_view(terms@)),
{
    let q = match query {
        None => return (0, false),
        Some(q) => q,
    };
    let f = fields_exec(script);
    let ghost fv = fields_of(script@);
    let ghost tv = strings_view(terms@);
    let qlow = lowercase(q);
    let ql = chars_of(qlow.as_str());
    let base: i64 = match best_containing_exec(&f, &ql, PHRASE_BONUS, Ghost(fv)) {
        Some(p) => p,
        None => 0,
    };
    let mut score: i64 = base;
    let mut matched: usize = 0;
    let mut i: usize = 0;
    while i < terms.len()
        invariant
            i <= terms.len(),
            matched <= i,
            f@.len() == 5,
            fv == fields_of(script@),
            tv == strings_view(terms@),
            forall|k: int| 0 <= k < 5 ==> (#[trigger] f@[k]).text@ == fv[k].0 && f@[k].weight == fv[k].1
                && f@[k].lower@ == str_lowercase(f@[k].text@) && 0 <= f@[k].weight <= 8000,
            (score as int, matched as int) == terms_gain(fv, tv.take(i as int), base as int),
        decreases terms.len() - i,
    {
        let term = terms[i].as_str();
        let tl = chars_of(lowercase(term).as_str());
        let gain = match best_containing_exec(&f, &tl, 0, Ghost(fv)) {
            Some(w) => Some(w),
            None => best_fuzzy_exec(&f, term, Ghost(fv)),
        };
        proof {
            assert(tv.take(i + 1).drop_last() =~= tv.take(i as int));
            assert(tv.take(i + 1).last() == tv[i as int]);
        }
        match gain {
            Some(g) => {
                matched += 1;
                score = sat_add(score, g);
            },
            None => {},
        }
        i += 1;
    }
    assert(tv.take(terms@.len() as int) =~= tv);
    if terms.len() > 0 && matched > 0 {
        let bonus = (10000i128 * (matched as i128)) / (terms.len() as i128);
        proof {
            assert(10000 * matched <= 10000 * terms.len()) by (nonlinear_arith)
                requires matched <= terms.len();
            assert(bonus <= 10000) by (nonlinear_arith)
                requires bonus == (10000 * matched) / (terms.len() as int), 10000 * matched <= 10000 * terms.len(), terms.len() > 0;
            assert(bonus >= 0) by (nonlinear_arith)
                requires bonus == (10000 * matched) / (terms.len() as int), matched >= 0, terms.len() > 0;
        }
        score = sat_add(score, bonus as i64);
    }
    let phrase = score >= PHRASE_BONUS;
    if !phrase && matched == 0 {
        let text = script_search_text(script);
        let qv = chars_of(q);
        match fuzzy_score(text.as_str(), q) {
            Some(v) => {
                if (v as i128) >= (qv.len() as i128) * 8 {
                    return (v, true);
                }
            },
            None => {},
        }
    }
    (score, phrase || matched > 0)
}

/// What one requested tag adds: the full bonus when a tag equals it up
/// to ASCII case, half of it when one contains the other once lowercased.
pub open spec fn tag_gain(tags: Seq<Seq<char>>, requested: Seq<char>) -> int {
    let r = trim(requested);
    if exists|k: int| 0 <= k < tags.len() && eq_ignore_ascii_case(#[trigger] tags[k], r) {
        REQUESTED_TAG_BONUS as int
    } else if exists|k: int|
        0 <= k < tags.len() && (contains_sub(str_lowercase(#[trigger] tags[k]), str_lowercase(r))
            || contains_sub(str_lowercase(r), str_lowercase(tags[k]))) {
        (REQUESTED_TAG_BONUS / 2) as int
    } else {
        0
    }
}

/// Tag score over the requested tags, and how many of them matched.
pub open spec fn tags_score(tags: Seq<Seq<char>>, requested: Seq<Seq<char>>) -> (int, int)
    decreases requested.len(),
{
    if requested.len() == 0 {
        (0, 0)
    } else {
        let (s, m) = tags_score(tags, requested.drop_last());
        let g = tag_gain(tags, requested.last());
        if g > 0 {
            (sat(s + g), m + 1)
        } else {
            (s, m)
        }
    }
}

fn tag_gain_exec(tags: &Vec<String>, requested: &str) -> (g: i64)
    ensures
        g == tag_gain(strings_view(tags@), requested@),
{
    let ghost tv = strings_view(tags@);
    let r = trim_str(requested);
    let rc = chars_of(r.as_str());
    let mut k: usize = 0;
    while k < tags.len()
        invariant
            k <= tags.len(),
            tv == strings_view(tags@),
            rc@ == trim(requested@),
            forall|j: int| 0 <= j < k ==> !eq_ignore_ascii_case(#[trigger] tv[j], trim(requested@)),
        decreases tags.len() - k,
    {
        let tc = chars_of(tags[k].as_str());
        if eq_ignore_ascii_case_exec(&tc, &rc) {
            assert(tc@ == tv[k as int]);
            assert(eq_ignore_ascii_case(tv[k as int], trim(requested@)));
            return REQUESTED_TAG_BONUS;
        }
        k += 1;
    }
    let rl = chars_of(lowercase(r.as_str()).as_str());
    k = 0;
    while k < tags.len()
        invariant
            k <= tags.len(),
            tv == strings_view(tags@),
            rl@ == str_lowercase(trim(requested@)),
            forall|j: int| 0 <= j < tags.len() ==> !eq_ignore_ascii_case(#[trigger] tv[j], trim(requested@)),
            forall|j: int| 0 <= j < k ==> !(contains_sub(str_lowercase(#[trigger] tv[j]), str_lowercase(trim(requested@)))
                || contains_sub(str_lowercase(trim(requested@)), str_lowercase(tv[j]))),
        decreases tags.len() - k,
    {
        let tl = chars_of(lowercase(tags[k].as_str()).as_str());
        if contains_exec(&tl, &rl) || contains_exec(&rl, &tl) {
            assert(tl@ == str_lowercase(tv[k as int]));
            return REQUESTED_TAG_BONUS / 2;
        }
        k += 1;
    }
    0
}

/// Scores a script's tags against the requested tags.
pub fn score_requested_tags(script: &Script, requested: &Vec<String>) -> (r: (i64, bool))
    ensures
        r.0 as int == tags_score(script@.tags, strings_view(requested@)).0,
        r.1 == (tags_score(script@.tags, strings_view(requested@)).1 > 0),
{
    let ghost rv = strings_view(requested@);
    let mut score: i64 = 0;
    let mut matched: usize = 0;
    let mut i: usize = 0;
    while i < requested.len()
        invariant
            i <= requested.len(),
            matched <= i,
            rv == strings_view(requested@),
            (score as int, matched as int) == tags_score(script@.tags, rv.take(i as int)),
        decreases requested.len() - i,
    {
        let g = tag_gain_exec(&script.tags, requested[i].as_str());
        proof {
            assert(rv.take(i + 1).drop_last() =~= rv.take(i as int));
            assert(rv.take(i + 1).last() == rv[i as int]);
        }
        if g > 0 {
            matched += 1;
            score = sat_add(score, g);
        }
        i += 1;
    }
    assert(rv.take(requested@.len() as int) =~= rv);
    (score, matched > 0)
}

/// Words that carry no meaning in a search request.
pub open spec fn stop_words() -> Seq<Seq<char>> {
    seq![
        "a"@, "an"@, "the"@, "to"@, "for"@, "with"@, "and"@, "or"@, "of"@, "in"@, "on"@, "tool"@,
        "script"@, "need"@, "want"@, "find"@, "use"@, "please"@,
    ]
}

pub open spec fn ascii_lower_seq(s: Seq<char>) -> Seq<char> {
    s.map_values(|c: char| ascii_lower(c))
}

pub open spec fn is_stop(term: Seq<char>) -> bool {
    stop_words().contains(ascii_lower_seq(term))
}

/// Whether `term`, ASCII-lowercased, is a stop word.
pub fn is_stop_word(term: &str) -> (b: bool)
    ensures
        b == is_stop(term@),
{
    let v = chars_of(term);
    let mut low: Vec<char> = Vec::new();
    let mut i: usize = 0;
    while i < v.len()
        invariant
            i <= v.len(),
            v@ == term@,
            low@ == ascii_lower_seq(v@.take(i as int)),
        decreases v.len() - i,
    {
        low.push(ascii_lower_exec(v[i]));
        i += 1;
        assert(low@ =~= ascii_lower_seq(v@.take(i as int)));
    }
    assert(v@.take(v@.len() as int) =~= v@);
    let words: Vec<&str> = vec![
        "a", "an", "the", "to", "for", "with", "and", "or", "of", "in", "on", "tool", "script",
        "need", "want", "find", "use", "please",
    ];
    assert(words@.len() == 18);
    let ghost sw = stop_words();
    assert forall|k: int| 0 <= k < 18 implies #[trigger] words@[k]@ == sw[k] by {}
    let mut k: usize = 0;
    while k < words.len()
        invariant
            k <= words.len(),
            words@.len() == 18,
            sw == stop_words(),
            low@ == ascii_lower_seq(term@),
            forall|j: int| 0 <= j < 18 ==> #[trigger] words@[j]@ == sw[j],
            forall|j: int| 0 <= j < k ==> #[trigger] sw[j] != low@,
        decreases words.len() - k,
    {
        let w = chars_of(words[k]);
        if chars_eq(&w, &low) {
            assert(sw[k as int] == low@);
            assert(low@ == ascii_lower_seq(term@));
            assert(sw.contains(ascii_lower_seq(term@)));
            return true;
        }
        k += 1;
    }
    false
}

/// A query scalar that belongs to a term.
pub open spec fn is_term_char(c: char) -> bool {
    char_alphanumeric(c) || c == '_' || c == '-'
}

/// The pieces of `s` between separators (`str::split` with a predicate):
/// empty pieces included, one piece more than there are separators.
pub open spec fn split_pieces(s: Seq<char>) -> Seq<Seq<char>>
    decreases s.len(),
{
    if s.len() == 0 {
        seq![Seq::empty()]
    } else {
        let r = split_pieces(s.drop_last());
        if !is_term_char(s.last()) {
            r.push(Seq::empty())
        } else {
            r.update(r.len() - 1, r.last().push(s.last()))
        }
    }
}

pub proof fn lemma_split_nonempty(s: Seq<char>)
    ensures
        split_pieces(s).len() >= 1,
    decreases s.len(),
{
    if s.len() > 0 {
        lemma_split_nonempty(s.drop_last());
    }
}

/// The pieces kept as terms: trimmed, at least two scalars, not stop words.
pub open spec fn kept_terms(pieces: Seq<Seq<char>>) -> Seq<Seq<char>>
    decreases pieces.len(),
{
    if pieces.len() == 0 {
        Seq::empty()
    } else {
        let r = kept_terms(pieces.drop_last());
        let t = trim(pieces.last());
        if t.len() >= 2 && !is_stop(t) {
            r.push(t)
        } else {
            r
        }
    }
}

pub open spec fn query_term_list(q: Seq<char>) -> Seq<Seq<char>> {
    kept_terms(split_pieces(q))
}

fn keep_piece(out: &mut Vec<String>, piece: &Vec<char>)
    ensures
        strings_view(final(out)@) == if trim(piece@).len() >= 2 && !is_stop(trim(piece@)) {
            strings_view(old(out)@).push(trim(piece@))
        } else {
            strings_view(old(out)@)
        },
{
    let s = crate::text::string_of(piece);
    let t = trim_str(s.as_str());
    let tv = chars_of(t.as_str());
    if tv.len() >= 2 && !is_stop_word(t.as_str()) {
        let ghost ob = out@;
        out.push(t);
        assert(strings_view(out@) =~= strings_view(ob).push(t@));
    }
}

/// The terms of a query.
pub fn query_terms(query: &str) -> (r: Vec<String>)
    ensures
        strings_view(r@) == query_term_list(query@),
{
    let v = chars_of(query);
    let mut out: Vec<String> = Vec::new();
    let mut cur: Vec<char> = Vec::new();
    let ghost mut done: Seq<Seq<char>> = Seq::empty();
    let mut i: usize = 0;
    while i < v.len()
        invariant
            i <= v.len(),
            v@ == query@,
            split_pieces(v@.take(i as int)) == done.push(cur@),
            strings_view(out@) == kept_terms(done),
        decreases v.len() - i,
    {
        let c = v[i];
        proof {
            assert(v@.take(i + 1).drop_last() =~= v@.take(i as int));
            assert(v@.take(i + 1).last() == c);
        }
        if !(alphanumeric(c) || c == '_' || c == '-') {
            keep_piece(&mut out, &cur);
            proof {
                assert(done.push(cur@).drop_last() =~= done);
                done = done.push(cur@);
            }
            cur = Vec::new();
            assert(split_pieces(v@.take(i + 1)) =~= done.push(cur@));
        } else {
            let ghost cb = cur@;
            cur.push(c);
            assert(split_pieces(v@.take(i + 1)) =~= done.push(cur@));
        }
        i += 1;
    }
    assert(v@.take(v@.len() as int) =~= v@);
    keep_piece(&mut out, &cur);
    proof {
        let all = done.push(cur@);
        assert(all.drop_last() =~= done);
    }
    out
}

/// The query once trimmed, when anything is left.
pub open spec fn effective_query(query: Option<Seq<char>>) -> Option<Seq<char>> {
    match query {
        Some(q) => if trim(q).len() > 0 {
            Some(trim(q))
        } else {
            None
        },
        None => None,
    }
}

/// A ranked search result: the position of the script and its score.
pub struct SearchMatch {
    pub index: usize,
    pub score: i64,
}

/// The score of script `s`, when the query or the tags matched.
pub open spec fn script_score(s: ScriptView, q: Option<Seq<char>>, terms: Seq<Seq<char>>, tags: Seq<Seq<char>>) -> Option<int> {
    let (qs, qm) = query_score(s, q, terms);
    let (ts, tm) = tags_score(s.tags, tags);
    if qm || tm > 0 {
        Some(sat(qs + ts))
    } else {
        None
    }
}

/// The matching scripts among the first `k`, in order, as (position, score).
pub open spec fn candidates(v: Seq<ScriptView>, q: Option<Seq<char>>, terms: Seq<Seq<char>>, tags: Seq<Seq<char>>, k: int) -> Seq<(int, int)>
    decreases k,
{
    if k <= 0 {
        Seq::empty()
    } else {
        let r = candidates(v, q, terms, tags, k - 1);
        match script_score(v[k - 1], q, terms, tags) {
            Some(sc) => r.push((k - 1, sc)),
            None => r,
        }
    }
}

/// Result order: higher score first, then by script name.
pub open spec fn match_before(v: Seq<ScriptView>, a: (int, int), b: (int, int)) -> bool {
    a.1 > b.1 || (a.1 == b.1 && seq_lt(v[a.0].name, v[b.0].name))
}

pub open spec fn match_tie(v: Seq<ScriptView>, a: (int, int), b: (int, int)) -> bool {
    a.1 == b.1 && v[a.0].name == v[b.0].name
}

/// `out` is `cands` in result order, ties kept in candidate order.
pub open spec fn ranked(v: Seq<ScriptView>, cands: Seq<(int, int)>, out: Seq<(int, int)>) -> bool {
    exists|idx: Seq<int>|
        #![trigger crate::sync::is_permutation(idx, cands.len() as int)]
        crate::sync::is_permutation(idx, cands.len() as int) && out.len() == cands.len() && (forall|k: int|
            0 <= k < out.len() ==> #[trigger] out[k] == cands[idx[k]]) && (forall|a: int, b: int|
            0 <= a < b < out.len() ==> match_before(v, #[trigger] out[a], #[trigger] out[b]) || (match_tie(v, out[a], out[b])
                && idx[a] < idx[b]))
}

/// Number of results returned: the requested limit or the default,
/// brought into `1..=10`.
pub open spec fn result_limit(limit: Option<usize>) -> int {
    let l = match limit {
        Some(l) => l as int,
        None => DEFAULT_MCP_SEARCH_LIMIT as int,
    };
    if l < 1 {
        1
    } else if l > MAX_MCP_SEARCH_LIMIT {
        MAX_MCP_SEARCH_LIMIT as int
    } else {
        l
    }
}

pub open spec fn matches_view(m: Seq<SearchMatch>) -> Seq<(int, int)> {
    m.map_values(|x: SearchMatch| (x.index as int, x.score as int))
}

proof fn lemma_match_not_before(v: Seq<ScriptView>, a: (int, int), x: (int, int))
    requires
        !match_before(v, x, a),
    ensures
        match_before(v, a, x) || match_tie(v, a, x),
{
    lemma_seq_lt_total(v[a.0].name, v[x.0].name);
}

proof fn lemma_match_trans(v: Seq<ScriptView>, x: (int, int), y: (int, int), z: (int, int))
    requires
        match_before(v, x, y),
        match_before(v, y, z) || match_tie(v, y, z),
    ensures
        match_before(v, x, z),
{
    lemma_seq_lt_trans(v[x.0].name, v[y.0].name, v[z.0].name);
}

fn match_before_exec(scripts: &Vec<Script>, a: &SearchMatch, b: &SearchMatch) -> (r: bool)
    requires
        a.index < scripts@.len(),
        b.index < scripts@.len(),
    ensures
        r == match_before(scripts_view(scripts@), (a.index as int, a.score as int), (b.index as int, b.score as int)),
{
    if a.score != b.score {
        return a.score > b.score;
    }
    let an = chars_of(scripts[a.index].name.as_str());
    let bn = chars_of(scripts[b.index].name.as_str());
    chars_lt(&an, &bn)
}

/// Sorts matches into result order, ties kept in input order.
fn rank_matches(scripts: &Vec<Script>, ms: Vec<SearchMatch>) -> (out: Vec<SearchMatch>)
    requires
        forall|k: int| 0 <= k < ms@.len() ==> (#[trigger] ms@[k]).index < scripts@.len(),
    ensures
        ranked(scripts_view(scripts@), matches_view(ms@), matches_view(out@)),
        forall|k: int| 0 <= k < out@.len() ==> (#[trigger] out@[k]).index < scripts@.len(),
{
    let ghost sv = scripts_view(scripts@);
    let ghost iv = matches_view(ms@);
    let ghost n = ms@.len() as int;
    let len0 = ms.len();
    assert(n == len0);
    let mut rest = ms;
    let mut out: Vec<SearchMatch> = Vec::new();
    let ghost mut idx: Seq<int> = Seq::empty();
    let mut i: usize = 0;
    while rest.len() > 0
        invariant
            i <= n,
            n <= usize::MAX,
            iv.len() == n,
            sv == scripts_view(scripts@),
            rest@.len() == n - i,
            forall|j: int| 0 <= j < n - i ==> (#[trigger] rest@[j]).index < scripts@.len() && (rest@[j].index as int,
                rest@[j].score as int) == iv[i + j],
            out@.len() == i,
            forall|k: int| 0 <= k < i ==> (#[trigger] out@[k]).index < scripts@.len(),
            idx.len() == i,
            forall|k: int| 0 <= k < i ==> 0 <= #[trigger] idx[k] < i,
            forall|a: int, b: int| 0 <= a < b < i ==> #[trigger] idx[a] != #[trigger] idx[b],
            forall|k: int| 0 <= k < i ==> #[trigger] matches_view(out@)[k] == iv[idx[k]],
            forall|a: int, b: int| 0 <= a < b < i ==> match_before(sv, #[trigger] matches_view(out@)[a], #[trigger] matches_view(out@)[b])
                || (match_tie(sv, matches_view(out@)[a], matches_view(out@)[b]) && idx[a] < idx[b]),
        decreases rest@.len(),
    {
        let ghost rb = rest@;
        let s = rest.remove(0);
        proof {
            assert forall|j: int| 0 <= j < n - i - 1 implies (#[trigger] rest@[j]).index < scripts@.len() && (rest@[j].index as int,
                rest@[j].score as int) == iv[i + 1 + j] by {
                assert(rest@[j] == rb[j + 1]);
                assert((rb[j + 1].index as int, rb[j + 1].score as int) == iv[i + (j + 1)]);
            }
            assert(rb[0] == s);
            assert((rb[0].index as int, rb[0].score as int) == iv[i + 0]);
        }
        let ghost sx = (s.index as int, s.score as int);
        let mut p: usize = 0;
        while p < out.len()
            invariant
                p <= out.len(),
                s.index < scripts@.len(),
                sx == (s.index as int, s.score as int),
                sv == scripts_view(scripts@),
                forall|k: int| 0 <= k < out@.len() ==> (#[trigger] out@[k]).index < scripts@.len(),
                forall|a: int| 0 <= a < p ==> !match_before(sv, sx, #[trigger] matches_view(out@)[a]),
            ensures
                p <= out.len(),
                forall|a: int| 0 <= a < p ==> !match_before(sv, sx, #[trigger] matches_view(out@)[a]),
                p < out.len() ==> match_before(sv, sx, matches_view(out@)[p as int]),
            decreases out.len() - p,
        {
            if match_before_exec(scripts, &s, &out[p]) {
                break;
            }
            p += 1;
        }
        let ghost ob = matches_view(out@);
        let ghost ib = idx;
        let ghost obr = out@;
        out.insert(p, s);
        proof {
            idx = ib.insert(p as int, i as int);
            let ov = matches_view(out@);
            assert(ov =~= ob.insert(p as int, sx));
            assert forall|k: int| 0 <= k < i + 1 implies (#[trigger] out@[k]).index < scripts@.len() by {
                if k < p { assert(out@[k] == obr[k]); } else if k > p { assert(out@[k] == obr[k - 1]); }
            }
            assert forall|k: int| 0 <= k < i + 1 implies 0 <= #[trigger] idx[k] < i + 1 by {
                if k < p { assert(idx[k] == ib[k]); } else if k > p { assert(idx[k] == ib[k - 1]); }
            }
            assert forall|a: int, b: int| 0 <= a < b < i + 1 implies #[trigger] idx[a] != #[trigger] idx[b] by {
                if a < p && b < p { assert(idx[a] == ib[a] && idx[b] == ib[b]); }
                else if a < p && b == p { assert(idx[a] == ib[a]); }
                else if a < p { assert(idx[a] == ib[a] && idx[b] == ib[b - 1]); }
                else if a == p { assert(idx[b] == ib[b - 1]); }
                else { assert(idx[a] == ib[a - 1] && idx[b] == ib[b - 1]); }
            }
            assert forall|k: int| 0 <= k < i + 1 implies #[trigger] ov[k] == iv[idx[k]] by {
                if k < p { assert(ov[k] == ob[k] && idx[k] == ib[k]); }
                else if k > p { assert(ov[k] == ob[k - 1] && idx[k] == ib[k - 1]); }
            }
            assert forall|a: int, b: int| 0 <= a < b < i + 1 implies match_before(sv, #[trigger] ov[a], #[trigger] ov[b])
                || (match_tie(sv, ov[a], ov[b]) && idx[a] < idx[b]) by {
                if a < p && b < p {
                    assert(ov[a] == ob[a] && ov[b] == ob[b] && idx[a] == ib[a] && idx[b] == ib[b]);
                } else if a < p && b == p {
                    assert(ov[a] == ob[a] && idx[a] == ib[a]);
                    lemma_match_not_before(sv, ob[a], sx);
                } else if a < p {
                    assert(ov[a] == ob[a] && ov[b] == ob[b - 1] && idx[a] == ib[a] && idx[b] == ib[b - 1]);
                } else if a == p {
                    assert(ov[b] == ob[b - 1]);
                    if b - 1 > p {
                        lemma_match_trans(sv, sx, ob[p as int], ob[b - 1]);
                    }
                } else {
                    assert(ov[a] == ob[a - 1] && ov[b] == ob[b - 1] && idx[a] == ib[a - 1] && idx[b] == ib[b - 1]);
                }
            }
        }
        i += 1;
    }
    proof {
        assert(crate::sync::is_permutation(idx, n));
    }
    out
}

/// The scripts that match a search, in order, with their scores.
pub open spec fn search_candidates(v: Seq<ScriptView>, query: Option<Seq<char>>, tags: Seq<Seq<char>>) -> Seq<(int, int)> {
    let eq = effective_query(query);
    let terms = match eq {
        Some(q) => query_term_list(q),
        None => Seq::empty(),
    };
    candidates(v, eq, terms, tags, v.len() as int)
}

/// Searches the scripts: those the query or the requested tags match,
/// best first (by score, then name), at most `limit` of them (default 5,
/// brought into 1..=10).
pub fn search_skills(scripts: &Vec<Script>, query: Option<&str>, tags: &Vec<String>, limit: Option<usize>) -> (r: Vec<SearchMatch>)
    ensures
        exists|full: Seq<(int, int)>|
            #![trigger ranked(scripts_view(scripts@), search_candidates(scripts_view(scripts@), opt_str_view(query), strings_view(tags@)), full)]
            ranked(scripts_view(scripts@), search_candidates(scripts_view(scripts@), opt_str_view(query), strings_view(tags@)), full)
                && matches_view(r@) == full.take(
                if full.len() < result_limit(limit) {
                    full.len() as int
                } else {
                    result_limit(limit)
                },
            ),
        forall|k: int| 0 <= k < r@.len() ==> (#[trigger] r@[k]).index < scripts@.len(),
{
    let ghost sv = scripts_view(scripts@);
    let trimmed: Option<String> = match query {
        Some(q) => {
            let t = trim_str(q);
            if t.as_str().is_empty() {
                None
            } else {
                Some(t)
            }
        },
        None => None,
    };
    let ghost eq = effective_query(opt_str_view(query));
    assert(match trimmed { Some(t) => eq == Some(t@), None => eq is None });
    let terms: Vec<String> = match &trimmed {
        Some(t) => query_terms(t.as_str()),
        None => Vec::new(),
    };
    let ghost tv = match eq { Some(q) => query_term_list(q), None => Seq::<Seq<char>>::empty() };
    assert(strings_view(terms@) =~= tv);
    let ghost rv = strings_view(tags@);
    let mut ms: Vec<SearchMatch> = Vec::new();
    let mut i: usize = 0;
    while i < scripts.len()
        invariant
            i <= scripts.len(),
            sv == scripts_view(scripts@),
            strings_view(terms@) == tv,
            rv == strings_view(tags@),
            match trimmed { Some(t) => eq == Some(t@), None => eq is None },
            matches_view(ms@) == candidates(sv, eq, tv, rv, i as int),
            forall|k: int| 0 <= k < ms@.len() ==> (#[trigger] ms@[k]).index < i,
        decreases scripts.len() - i,
    {
        let (qs, qm) = match &trimmed {
            Some(t) => score_query(&scripts[i], Some(t.as_str()), &terms),
            None => score_query(&scripts[i], None, &terms),
        };
        let (ts, tm) = score_requested_tags(&scripts[i], tags);
        let ghost mb = ms@;
        if qm || tm {
            ms.push(SearchMatch { index: i, score: sat_add(qs, ts) });
            assert(matches_view(ms@) =~= matches_view(mb).push((i as int, sat(qs + ts))));
        }
        i += 1;
    }
    assert(matches_view(ms@) == search_candidates(sv, opt_str_view(query), rv));
    let mut ranked_ms = rank_matches(scripts, ms);
    let lim: usize = match limit {
        Some(l) => l,
        None => DEFAULT_MCP_SEARCH_LIMIT,
    };
    let lim = if lim < 1 {
        1
    } else if lim > MAX_MCP_SEARCH_LIMIT {
        MAX_MCP_SEARCH_LIMIT
    } else {
        lim
    };
    let ghost full = matches_view(ranked_ms@);
    assert(ranked(sv, search_candidates(sv, opt_str_view(query), rv), full));
    ranked_ms.truncate(lim);
    assert(matches_view(ranked_ms@) =~= full.take(if full.len() < lim { full.len() as int } else { lim as int }));
    ranked_ms
}
} // verus!
