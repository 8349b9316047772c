//! Searching an index of skills: by substring of name, description or
//! tags, by tags, by exact name, and by fuzzy score.
use vstd::prelude::*;
use fuzzy_matcher::FuzzyMatcher;
use crate::config::strings_view;
use crate::order::{score_sorted, sort_by_score_desc};
use crate::search::{lowercase, str_lowercase};
use crate::skill::{Index, Skill, SkillView, skills_view};
use crate::text::{chars_of, contains_exec, contains_sub, str_eq};

verus! {

/// The lowercase scalars of `s` (see [`crate::search::str_lowercase`]).
fn lower(s: &str) -> (r: Vec<char>)
    ensures
        r@ == str_lowercase(s@),
{
    let l = lowercase(s);
    chars_of(l.as_str())
}

/// The score of the `fuzzy-matcher` crate's default skim matcher (smart
/// case) for `pattern` against `choice`, or `None` when it does not match.
pub uninterp spec fn matcher_score(choice: Seq<char>, pattern: Seq<char>) -> Option<i64>;

/// `fuzzy_matcher::skim::SkimMatcherV2::default().fuzzy_match(choice, pattern)`.
#[verifier::external_body]
fn fuzzy_match(choice: &str, pattern: &str) -> (r: Option<i64>)
    ensures
        r == matcher_score(choice@, pattern@),
{
    fuzzy_matcher::skim::SkimMatcherV2::default().fuzzy_match(choice, pattern)
}

/// Searches the skills of an index.
pub struct SkillSearcher {
    pub index: Index,
}

/// Skill `s` has `needle` (already lowercase) in its lowercase name,
/// description or one of its tags.
pub open spec fn text_match(s: SkillView, needle: Seq<char>) -> bool {
    ||| contains_sub(str_lowercase(s.name), needle)
    ||| contains_sub(str_lowercase(s.description), needle)
    ||| exists|k: int| 0 <= k < s.tags.len() && contains_sub(str_lowercase(#[trigger] s.tags[k]), needle)
}

/// One of the skill's lowercase tags contains one of the lowercase
/// requested tags.
pub open spec fn tag_match(s: SkillView, tags: Seq<Seq<char>>) -> bool {
    exists|k: int, j: int|
        0 <= k < s.tags.len() && 0 <= j < tags.len() && contains_sub(
            str_lowercase(#[trigger] s.tags[k]),
            str_lowercase(#[trigger] tags[j]),
        )
}

/// Positions, below `k`, of the skills that satisfy `p`, in order.
pub open spec fn positions(v: Seq<SkillView>, p: spec_fn(SkillView) -> bool, k: int) -> Seq<int>
    decreases k,
{
    if k <= 0 {
        Seq::empty()
    } else {
        let r = positions(v, p, k - 1);
        if p(v[k - 1]) {
            r.push(k - 1)
        } else {
            r
        }
    }
}

/// `r` lists the skills of `v` at the positions `pos`.
pub open spec fn picks(v: Seq<Skill>, pos: Seq<int>, r: Seq<&Skill>) -> bool {
    r.len() == pos.len() && forall|j: int| 0 <= j < r.len() ==> *(#[trigger] r[j]) == v[pos[j]]
}

/// `x` divided by two, rounding toward zero (`i64` division).
pub open spec fn half(x: int) -> int {
    if x >= 0 {
        x / 2
    } else {
        -((-x) / 2)
    }
}

/// The fuzzy score of a skill: the better of the name's score and half the
/// description's, a missing score counting as zero.
pub open spec fn fuzzy_value(s: SkillView, query: Seq<char>) -> int {
    let n = match matcher_score(s.name, query) {
        Some(v) => v as int,
        None => 0,
    };
    let d = match matcher_score(s.description, query) {
        Some(v) => half(v as int),
        None => 0,
    };
    if n >= d {
        n
    } else {
        d
    }
}

/// Skills with a positive fuzzy score, as (position, score), in order.
pub open spec fn fuzzy_candidates(v: Seq<SkillView>, query: Seq<char>, k: int) -> Seq<(usize, i64)>
    decreases k,
{
    if k <= 0 {
        Seq::empty()
    } else {
        let r = fuzzy_candidates(v, query, k - 1);
        if fuzzy_value(v[k - 1], query) > 0 {
            r.push(((k - 1) as usize, fuzzy_value(v[k - 1], query) as i64))
        } else {
            r
        }
    }
}

fn any_tag_contains(tags: &Vec<String>, needle: &Vec<char>) -> (b: bool)
    ensures
        b == exists|k: int| 0 <= k < tags@.len() && contains_sub(str_lowercase(#[trigger] strings_view(tags@)[k]), needle@),
{
    let mut k: usize = 0;
    while k < tags.len()
        invariant
            k <= tags.len(),
            forall|j: int| 0 <= j < k ==> !contains_sub(str_lowercase(#[trigger] strings_view(tags@)[j]), needle@),
        decreases tags.len() - k,
    {
        let t = lower(tags[k].as_str());
        assert(strings_view(tags@)[k as int] == tags@[k as int]@);
        if contains_exec(&t, needle) {
            return true;
        }
        k += 1;
    }
    false
}

impl SkillSearcher {
    pub fn new(index: Index) -> (s: SkillSearcher)
        ensures
            s.index == index,
    {
        SkillSearcher { index }
    }

    /// The skills whose name, description or a tag contains `query`,
    /// ignoring case, in index order.
    pub fn search(&self, query: &str) -> (r: Vec<&Skill>)
        ensures
            picks(
                self.index.skills@,
                positions(
                    skills_view(self.index.skills@),
                    |s: SkillView| text_match(s, str_lowercase(query@)),
                    self.index.skills@.len() as int,
                ),
                r@,
            ),
    {
        let ghost v = skills_view(self.index.skills@);
        let ghost p = |s: SkillView| text_match(s, str_lowercase(query@));
        let ql = lower(query);
        let skills = &self.index.skills;
        let mut out: Vec<&Skill> = Vec::new();
        let mut i: usize = 0;
        while i < skills.len()
            invariant
                i <= skills.len(),
                skills == &self.index.skills,
                v == skills_view(skills@),
                p == (|s: SkillView| text_match(s, str_lowercase(query@))),
                ql@ == str_lowercase(query@),
                picks(skills@, positions(v, p, i as int), out@),
            decreases skills.len() - i,
        {
            let s = &skills[i];
            let n = lower(s.name.as_str());
            let d = lower(s.description.as_str());
            let t_hit = any_tag_contains(&s.tags, &ql);
            let hit = contains_exec(&n, &ql) || contains_exec(&d, &ql) || t_hit;
            proof {
                assert(v[i as int] == s@);
                if t_hit {
                    let k = choose|k: int| 0 <= k < s.tags@.len() && contains_sub(str_lowercase(#[trigger] strings_view(s.tags@)[k]), ql@);
                    assert(contains_sub(str_lowercase(v[i as int].tags[k]), ql@));
                }
                assert(hit == text_match(v[i as int], ql@));
            }
            let ghost ob = out@;
            if hit {
                out.push(s);
                proof {
                    let pos = positions(v, p, i + 1);
                    assert(pos == positions(v, p, i as int).push(i as int));
                    assert forall|j: int| 0 <= j < out@.len() implies *(#[trigger] out@[j]) == skills@[pos[j]] by {
                        if j < ob.len() {
                            assert(out@[j] == ob[j]);
                        }
                    }
                }
            }
            i += 1;
        }
        out
    }

    /// The skills one of whose tags contains one of `tags`, ignoring case,
    /// in index order.
    pub fn search_by_tags(&self, tags: &Vec<String>) -> (r: Vec<&Skill>)
        ensures
            picks(
                self.index.skills@,
                positions(
                    skills_view(self.index.skills@),
                    |s: SkillView| tag_match(s, strings_view(tags@)),
                    self.index.skills@.len() as int,
                ),
                r@,
            ),
    {
        let ghost v = skills_view(self.index.skills@);
        let ghost tv = strings_view(tags@);
        let ghost p = |s: SkillView| tag_match(s, tv);
        let mut lowered: Vec<Vec<char>> = Vec::new();
        let mut j: usize = 0;
        while j < tags.len()
            invariant
                j <= tags.len(),
                tv == strings_view(tags@),
                lowered@.len() == j,
                forall|m: int| 0 <= m < j ==> (#[trigger] lowered@[m])@ == str_lowercase(tv[m]),
            decreases tags.len() - j,
        {
            lowered.push(lower(tags[j].as_str()));
            j += 1;
        }
        let skills = &self.index.skills;
        let mut out: Vec<&Skill> = Vec::new();
        let mut i: usize = 0;
        while i < skills.len()
            invariant
                i <= skills.len(),
                skills == &self.index.skills,
                v == skills_view(skills@),
                tv == strings_view(tags@),
                p == (|s: SkillView| tag_match(s, tv)),
                lowered@.len() == tags@.len(),
                forall|m: int| 0 <= m < tags@.len() ==> (#[trigger] lowered@[m])@ == str_lowercase(tv[m]),
                picks(skills@, positions(v, p, i as int), out@),
            decreases skills.len() - i,
        {
            let s = &skills[i];
            let ghost sv = s@;
            let mut hit = false;
            let mut k: usize = 0;
            while k < s.tags.len() && !hit
                invariant
                    k <= s.tags.len(),
                    sv == s@,
                    lowered@.len() == tv.len(),
                    forall|m: int| 0 <= m < tv.len() ==> (#[trigger] lowered@[m])@ == str_lowercase(tv[m]),
                    hit ==> tag_match(sv, tv),
                    !hit ==> forall|a: int, b: int| 0 <= a < k && 0 <= b < tv.len() ==> !contains_sub(
                        str_lowercase(#[trigger] sv.tags[a]),
                        str_lowercase(#[trigger] tv[b]),
                    ),
                decreases s.tags.len() - k, (if hit { 0int } else { 1int }),
            {
                let st = lower(s.tags[k].as_str());
                assert(st@ == str_lowercase(sv.tags[k as int]));
                let mut m: usize = 0;
                while m < lowered.len() && !hit
                    invariant
                        m <= lowered.len(),
                        k < s.tags.len(),
                        sv == s@,
                        st@ == str_lowercase(sv.tags[k as int]),
                        lowered@.len() == tv.len(),
                        forall|q: int| 0 <= q < tv.len() ==> (#[trigger] lowered@[q])@ == str_lowercase(tv[q]),
                        hit ==> tag_match(sv, tv),
                        !hit ==> forall|b: int| 0 <= b < m ==> !contains_sub(
                            str_lowercase(sv.tags[k as int]),
                            str_lowercase(#[trigger] tv[b]),
                        ),
                    decreases lowered.len() - m, (if hit { 0int } else { 1int }),
                {
                    if contains_exec(&st, &lowered[m]) {
                        hit = true;
                        assert(contains_sub(str_lowercase(sv.tags[k as int]), str_lowercase(tv[m as int])));
                    }
                    m += 1;
                }
                if !hit {
                    k += 1;
                }
            }
            proof {
                assert(v[i as int] == sv);
            }
            let ghost ob = out@;
            if hit {
                out.push(s);
                proof {
                    let pos = positions(v, p, i + 1);
                    assert(pos == positions(v, p, i as int).push(i as int));
                    assert forall|j2: int| 0 <= j2 < out@.len() implies *(#[trigger] out@[j2]) == skills@[pos[j2]] by {
                        if j2 < ob.len() {
                            assert(out@[j2] == ob[j2]);
                        }
                    }
                }
            }
            i += 1;
        }
        out
    }

    /// The first skill named exactly `name`.
    pub fn get_by_name(&self, name: &str) -> (r: Option<&Skill>)
        ensures
            match r {
                Some(s) => exists|i: int|
                    0 <= i < self.index.skills@.len() && *s == self.index.skills@[i] && s.name@ == name@ && forall|
                        j: int,
                    | 0 <= j < i ==> (#[trigger] self.index.skills@[j]).name@ != name@,
                None => forall|j: int| 0 <= j < self.index.skills@.len() ==> (#[trigger] self.index.skills@[j]).name@ != name@,
            },
    {
        let skills = &self.index.skills;
        let mut i: usize = 0;
        while i < skills.len()
            invariant
                i <= skills.len(),
                skills == &self.index.skills,
                forall|j: int| 0 <= j < i ==> (#[trigger] skills@[j]).name@ != name@,
            decreases skills.len() - i,
        {
            if str_eq(skills[i].name.as_str(), name) {
                return Some(&skills[i]);
            }
            i += 1;
        }
        None
    }

    /// The skills with a positive fuzzy score for `query` and their scores,
    /// best first, equal scores in index order.
    pub fn fuzzy_search(&self, query: &str) -> (r: Vec<(&Skill, i64)>)
        ensures
            exists|order: Seq<(usize, i64)>|
                #![trigger score_sorted(fuzzy_candidates(skills_view(self.index.skills@), query@, self.index.skills@.len() as int), order)]
                score_sorted(fuzzy_candidates(skills_view(self.index.skills@), query@, self.index.skills@.len() as int), order)
                    && r@.len() == order.len() && forall|k: int|
                    0 <= k < r@.len() ==> *(#[trigger] r@[k]).0 == self.index.skills@[order[k].0 as int] && r@[k].1
                        == order[k].1,
    {
        let ghost v = skills_view(self.index.skills@);
        let skills = &self.index.skills;
        let mut scored: Vec<(usize, i64)> = Vec::new();
        let mut i: usize = 0;
        while i < skills.len()
            invariant
                i <= skills.len(),
                skills == &self.index.skills,
                v == skills_view(skills@),
                scored@ == fuzzy_candidates(v, query@, i as int),
                forall|k: int| 0 <= k < scored@.len() ==> (#[trigger] scored@[k]).0 < i,
            decreases skills.len() - i,
        {
            let s = &skills[i];
            let n: i64 = match fuzzy_match(s.name.as_str(), query) {
                Some(x) => x,
                None => 0,
            };
            let d: i64 = match fuzzy_match(s.description.as_str(), query) {
                Some(x) => if x >= 0 {
                    x / 2
                } else {
                    let h = ((x as i128) / 2) as i64;
                    h
                },
                None => 0,
            };
            let best = if n >= d {
                n
            } else {
                d
            };
            proof {
                assert(v[i as int] == s@);
            }
            if best > 0 {
                scored.push((i, best));
            }
            i += 1;
        }
        let ordered = sort_by_score_desc(scored);
        let ghost cands = fuzzy_candidates(v, query@, skills@.len() as int);
        proof {
            assert(score_sorted(cands, ordered@));
        }
        let mut out: Vec<(&Skill, i64)> = Vec::new();
        let mut k: usize = 0;
        while k < ordered.len()
            invariant
                k <= ordered.len(),
                skills == &self.index.skills,
                score_sorted(cands, ordered@),
                forall|m: int| 0 <= m < ordered@.len() ==> (#[trigger] ordered@[m]).0 < skills@.len(),
                out@.len() == k,
                forall|m: int| 0 <= m < k ==> *(#[trigger] out@[m]).0 == skills@[ordered@[m].0 as int] && out@[m].1
                    == ordered@[m].1,
            decreases ordered.len() - k,
        {
            let (idx, sc) = ordered[k];
            out.push((&skills[idx], sc));
            k += 1;
        }
        out
    }
}

} // verus!
