//! From parsed skills to an index: every skill gets a valid tool name,
//! colliding names are made unique (or reported, in strict mode), and the
//! skills are ordered by name and path.
use vstd::prelude::*;
use crate::config::{copy_string, opt_string_view, strings_view};
use crate::skill::{Index, ParseError, Skill, SkillHeader, SkillView, distinct_arg_names, args_view, schema_of, errors_view, index_version, skill_auto_name, skills_view, sync_stamp};
use crate::order::{lemma_seq_lt_asym, lemma_seq_lt_irreflexive, lemma_seq_lt_total, lemma_seq_lt_trans};
use crate::text::{chars_eq, chars_lt, chars_of, push_str, seq_lt, str_eq};
use crate::tool_name::{sanitize, short_path_hash, stable_hash, validate_explicit_tool_name};

verus! {

pub open spec fn invalid_tool_name_reason() -> Seq<char> {
    "Invalid tool_name. Normalization produced an empty identifier."@
}

pub open spec fn duplicate_tool_name_reason(name: Seq<char>) -> Seq<char> {
    "Duplicate tool_name '"@ + name + "'."@
}

/// The tool name a skill gets before collisions are considered: its
/// explicit name normalised; the automatic name when it has none, or when
/// normalisation leaves nothing outside strict mode; nothing in strict
/// mode for an explicit name that normalises to nothing.
pub open spec fn first_tool_name(s: SkillView, strict: bool) -> Option<Seq<char>> {
    match s.tool_name {
        Some(e) => if sanitize(e).len() > 0 {
            Some(sanitize(e))
        } else if strict {
            None
        } else {
            Some(skill_auto_name(s))
        },
        None => Some(skill_auto_name(s)),
    }
}

pub open spec fn first_names(v: Seq<SkillView>, strict: bool) -> Seq<Option<Seq<char>>> {
    v.map_values(|s: SkillView| first_tool_name(s, strict))
}

pub open spec fn paths_of(v: Seq<SkillView>) -> Seq<Seq<char>> {
    v.map_values(|s: SkillView| s.path)
}

/// Entry `i` has a name and another entry has the same one.
pub open spec fn is_dup(names: Seq<Option<Seq<char>>>, i: int) -> bool {
    names[i] is Some && exists|j: int| 0 <= j < names.len() && j != i && #[trigger] names[j] == names[i]
}

/// No entry before `i` has the name of entry `i`.
pub open spec fn first_occurrence(names: Seq<Option<Seq<char>>>, i: int) -> bool {
    forall|j: int| 0 <= j < i ==> #[trigger] names[j] != names[i]
}

/// The tool name entry `i` ends with: its first name when no other entry
/// shares it; when one does, nothing in strict mode and otherwise the name
/// followed by `_` and the hash of the entry's path.
pub open spec fn final_tool_name(names: Seq<Option<Seq<char>>>, paths: Seq<Seq<char>>, i: int, strict: bool) -> Option<Seq<char>> {
    if !is_dup(names, i) {
        names[i]
    } else if strict {
        None
    } else {
        Some(names[i]->0.push('_') + stable_hash(paths[i]))
    }
}

/// Strict mode: one error per skill whose explicit name normalises to
/// nothing, in the order of the skills.
pub open spec fn invalid_errors(v: Seq<SkillView>, strict: bool) -> Seq<(Seq<char>, Seq<char>)>
    decreases v.len(),
{
    if v.len() == 0 {
        Seq::empty()
    } else {
        let r = invalid_errors(v.drop_last(), strict);
        if strict && v.last().tool_name is Some && sanitize(v.last().tool_name->0).len() == 0 {
            r.push((v.last().path, invalid_tool_name_reason()))
        } else {
            r
        }
    }
}

/// One duplicate error for each of the first `k` entries named `key`.
pub open spec fn group_errors(names: Seq<Option<Seq<char>>>, paths: Seq<Seq<char>>, key: Seq<char>, k: int) -> Seq<(Seq<char>, Seq<char>)>
    decreases k,
{
    if k <= 0 {
        Seq::empty()
    } else {
        let r = group_errors(names, paths, key, k - 1);
        if names[k - 1] == Some(key) {
            r.push((paths[k - 1], duplicate_tool_name_reason(key)))
        } else {
            r
        }
    }
}

/// Duplicate errors, a group per shared name, the groups in the order in
/// which their names first occur among the first `k` entries, each group
/// in the order of the entries.
pub open spec fn dup_errors(names: Seq<Option<Seq<char>>>, paths: Seq<Seq<char>>, k: int) -> Seq<(Seq<char>, Seq<char>)>
    decreases k,
{
    if k <= 0 {
        Seq::empty()
    } else {
        let r = dup_errors(names, paths, k - 1);
        if is_dup(names, k - 1) && first_occurrence(names, k - 1) {
            r + group_errors(names, paths, names[k - 1]->0, names.len() as int)
        } else {
            r
        }
    }
}

/// All errors of tool-name finalisation.
pub open spec fn finalize_errors(v: Seq<SkillView>, strict: bool) -> Seq<(Seq<char>, Seq<char>)> {
    if strict {
        invalid_errors(v, strict) + dup_errors(first_names(v, strict), paths_of(v), v.len() as int)
    } else {
        invalid_errors(v, strict)
    }
}

/// `s` with its tool name replaced by `t`.
pub open spec fn with_tool_name(s: SkillView, t: Option<Seq<char>>) -> SkillView {
    SkillView {
        name: s.name,
        description: s.description,
        path: s.path,
        tags: s.tags,
        command_template: s.command_template,
        parameters: s.parameters,
        checksum: s.checksum,
        tool_name: t,
    }
}

/// Whether two optional strings are equal.
fn opt_eq(a: &Option<String>, b: &Option<String>) -> (r: bool)
    ensures
        r == (opt_string_view(*a) == opt_string_view(*b)),
{
    match (a, b) {
        (Some(x), Some(y)) => str_eq(x.as_str(), y.as_str()),
        (None, None) => true,
        _ => false,
    }
}

fn first_tool_name_exec(s: &Skill, strict: bool) -> (r: Option<String>)
    ensures
        opt_string_view(r) == first_tool_name(s@, strict),
{
    match &s.tool_name {
        Some(e) => match validate_explicit_tool_name(e.as_str()) {
            Some(v) => Some(v),
            None => if strict {
                None
            } else {
                Some(s.fallback_tool_name())
            },
        },
        None => Some(s.fallback_tool_name()),
    }
}

/// Gives every skill a final tool name and reports, in strict mode, the
/// skills whose names are invalid or shared.
pub fn finalize_tool_names(skills: &mut Vec<Skill>, strict: bool) -> (errors: Vec<ParseError>)
    ensures
        final(skills)@.len() == old(skills)@.len(),
        forall|i: int| 0 <= i < old(skills)@.len() ==> #[trigger] skills_view(final(skills)@)[i]
            == with_tool_name(
            skills_view(old(skills)@)[i],
            final_tool_name(
                first_names(skills_view(old(skills)@), strict),
                paths_of(skills_view(old(skills)@)),
                i,
                strict,
            ),
        ),
        errors_view(errors@) == finalize_errors(skills_view(old(skills)@), strict),
{
    let ghost ov = skills_view(skills@);
    let ghost nv = first_names(ov, strict);
    let ghost pv = paths_of(ov);
    let n = skills.len();
    let mut names: Vec<Option<String>> = Vec::new();
    let mut errors: Vec<ParseError> = Vec::new();
    let mut i: usize = 0;
    while i < n
        invariant
            i <= n,
            n == skills.len(),
            skills_view(skills@) == ov,
            nv == first_names(ov, strict),
            names@.len() == i,
            forall|k: int| 0 <= k < i ==> #[trigger] opt_string_view(names@[k]) == nv[k],
            errors_view(errors@) == invalid_errors(ov.take(i as int), strict),
        decreases n - i,
    {
        let f = first_tool_name_exec(&skills[i], strict);
        let ghost before = errors@;
        proof {
            assert(ov.take(i + 1).drop_last() =~= ov.take(i as int));
            assert(ov.take(i + 1).last() == ov[i as int]);
        }
        if strict && f.is_none() {
            errors.push(ParseError::new(copy_string(&skills[i].path), "Invalid tool_name. Normalization produced an empty identifier.".to_owned()));
            proof {
                assert(errors_view(errors@) =~= errors_view(before).push((ov[i as int].path, invalid_tool_name_reason())));
            }
        }
        let ghost nb = names@;
        names.push(f);
        proof {
            assert forall|k: int| 0 <= k < i + 1 implies #[trigger] opt_string_view(names@[k]) == nv[k] by {
                if k < i {
                    assert(names@[k] == nb[k]);
                }
            }
        }
        i += 1;
    }
    assert(ov.take(n as int) =~= ov);
    let ghost invalid = errors_view(errors@);
    let mut dups: Vec<bool> = Vec::new();
    i = 0;
    while i < n
        invariant
            i <= n,
            names@.len() == n,
            nv.len() == n,
            forall|k: int| 0 <= k < n ==> #[trigger] opt_string_view(names@[k]) == nv[k],
            dups@.len() == i,
            forall|k: int| 0 <= k < i ==> #[trigger] dups@[k] == is_dup(nv, k),
        decreases n - i,
    {
        let mut found = false;
        let mut j: usize = 0;
        while j < n
            invariant
                i < n,
                j <= n,
                names@.len() == n,
                nv.len() == n,
                forall|k: int| 0 <= k < n ==> #[trigger] opt_string_view(names@[k]) == nv[k],
                found == (nv[i as int] is Some && exists|j2: int| 0 <= j2 < j && j2 != i && #[trigger] nv[j2] == nv[i as int]),
            decreases n - j,
        {
            if j != i && names[i].is_some() && opt_eq(&names[j], &names[i]) {
                found = true;
            }
            proof {
                assert(opt_string_view(names@[j as int]) == nv[j as int]);
                assert(opt_string_view(names@[i as int]) == nv[i as int]);
            }
            j += 1;
        }
        dups.push(found);
        i += 1;
    }
    if strict {
        i = 0;
        while i < n
            invariant
                i <= n,
                strict,
                names@.len() == n,
                nv.len() == n,
                pv.len() == n,
                pv == paths_of(ov),
                skills_view(skills@) == ov,
                n == skills.len(),
                forall|k: int| 0 <= k < n ==> #[trigger] opt_string_view(names@[k]) == nv[k],
                dups@.len() == n,
                forall|k: int| 0 <= k < n ==> #[trigger] dups@[k] == is_dup(nv, k),
                errors_view(errors@) == invalid + dup_errors(nv, pv, i as int),
            decreases n - i,
        {
            proof {
                assert(opt_string_view(names@[i as int]) == nv[i as int]);
            }
            if dups[i] {
                let mut first = true;
                let mut j: usize = 0;
                while j < i
                    invariant
                        i < n,
                        j <= i,
                        names@.len() == n,
                        nv.len() == n,
                        forall|k: int| 0 <= k < n ==> #[trigger] opt_string_view(names@[k]) == nv[k],
                        first == (forall|j2: int| 0 <= j2 < j ==> #[trigger] nv[j2] != nv[i as int]),
                    decreases i - j,
                {
                    proof {
                        assert(opt_string_view(names@[j as int]) == nv[j as int]);
                        assert(opt_string_view(names@[i as int]) == nv[i as int]);
                    }
                    if opt_eq(&names[j], &names[i]) {
                        first = false;
                    }
                    j += 1;
                }
                if first {
                    match &names[i] {
                        Some(key) => {
                            let ghost base = errors_view(errors@);
                            let mut k: usize = 0;
                            while k < n
                                invariant
                                    i < n,
                                    k <= n,
                                    names@.len() == n,
                                    nv.len() == n,
                                    pv.len() == n,
                                    pv == paths_of(ov),
                                    skills_view(skills@) == ov,
                                    n == skills.len(),
                                    forall|m: int| 0 <= m < n ==> #[trigger] opt_string_view(names@[m]) == nv[m],
                                    nv[i as int] == Some(key@),
                                    errors_view(errors@) == base + group_errors(nv, pv, key@, k as int),
                                decreases n - k,
                            {
                                proof {
                                    assert(opt_string_view(names@[k as int]) == nv[k as int]);
                                }
                                let ghost eb = errors@;
                                if opt_eq(&names[k], &names[i]) {
                                    let mut reason = "Duplicate tool_name '".to_owned();
                                    push_str(&mut reason, key.as_str());
                                    push_str(&mut reason, "'.");
                                    errors.push(ParseError::new(copy_string(&skills[k].path), reason));
                                    proof {
                                        assert(pv[k as int] == skills@[k as int].path@);
                                        assert(errors_view(errors@) =~= errors_view(eb).push((pv[k as int], duplicate_tool_name_reason(key@))));
                                    }
                                }
                                k += 1;
                            }
                            proof {
                                assert(errors_view(errors@) =~= invalid + (dup_errors(nv, pv, i as int) + group_errors(nv, pv, key@, n as int)));
                            }
                        },
                        None => {},
                    }
                }
            }
            i += 1;
        }
    }
    let ghost gen = errors_view(errors@);
    proof {
        assert(gen == finalize_errors(ov, strict));
    }
    let mut rest: Vec<Skill> = Vec::new();
    std::mem::swap(&mut rest, skills);
    let ghost orig = rest@;
    let mut out: Vec<Skill> = Vec::new();
    i = 0;
    while i < n
        invariant
            i <= n,
            n == orig.len(),
            skills_view(orig) == ov,
            rest@ == orig.subrange(i as int, n as int),
            names@.len() == n,
            nv.len() == n,
            pv == paths_of(ov),
            forall|k: int| 0 <= k < n ==> #[trigger] opt_string_view(names@[k]) == nv[k],
            dups@.len() == n,
            forall|k: int| 0 <= k < n ==> #[trigger] dups@[k] == is_dup(nv, k),
            out@.len() == i,
            forall|k: int| 0 <= k < i ==> #[trigger] skills_view(out@)[k] == with_tool_name(ov[k], final_tool_name(nv, pv, k, strict)),
        decreases n - i,
    {
        let mut s = rest.remove(0);
        assert(s == orig[i as int]);
        proof {
            assert(opt_string_view(names@[i as int]) == nv[i as int]);
        }
        let t: Option<String> = if !dups[i] {
            match &names[i] {
                Some(x) => Some(copy_string(x)),
                None => None,
            }
        } else if strict {
            None
        } else {
            match &names[i] {
                Some(x) => {
                    let mut u = copy_string(x);
                    u.push('_');
                    let h = short_path_hash(s.path.as_str());
                    push_str(&mut u, h.as_str());
                    Some(u)
                },
                None => None,
            }
        };
        s.tool_name = t;
        let ghost ob = out@;
        out.push(s);
        proof {
            assert(rest@ =~= orig.subrange(i + 1, n as int));
            assert forall|k: int| 0 <= k < i + 1 implies #[trigger] skills_view(out@)[k] == with_tool_name(ov[k], final_tool_name(nv, pv, k, strict)) by {
                if k < i {
                    assert(out@[k] == ob[k]);
                    assert(skills_view(ob)[k] == with_tool_name(ov[k], final_tool_name(nv, pv, k, strict)));
                }
            }
        }
        i += 1;
    }
    *skills = out;
    errors
}


/// `a` comes before `b` by name, then by path.
pub open spec fn name_path_lt(a: SkillView, b: SkillView) -> bool {
    seq_lt(a.name, b.name) || (a.name == b.name && seq_lt(a.path, b.path))
}

/// `v`, whose entries came from the positions `idx` of the input, is in
/// name-then-path order, with equal keys in input order.
pub open spec fn stably_sorted(v: Seq<SkillView>, idx: Seq<int>) -> bool {
    forall|a: int, b: int| 0 <= a < b < v.len() ==> name_path_lt(#[trigger] v[a], #[trigger] v[b]) || (
    v[a].name == v[b].name && v[a].path == v[b].path && idx[a] < idx[b])
}

/// `idx` lists each of `0..n` once.
pub open spec fn is_permutation(idx: Seq<int>, n: int) -> bool {
    &&& idx.len() == n
    &&& forall|k: int| 0 <= k < n ==> 0 <= #[trigger] idx[k] < n
    &&& forall|a: int, b: int| 0 <= a < b < n ==> #[trigger] idx[a] != #[trigger] idx[b]
}

/// `out` is `input` sorted stably by name, then path.
pub open spec fn sorted_by_name_and_path(input: Seq<SkillView>, out: Seq<SkillView>) -> bool {
    exists|idx: Seq<int>|
        #![trigger is_permutation(idx, input.len() as int)]
        is_permutation(idx, input.len() as int) && (forall|k: int| 0 <= k < out.len() ==> #[trigger] out[k] == input[idx[k]])
            && out.len() == input.len() && stably_sorted(out, idx)
}

fn name_path_lt_exec(a: &Skill, b: &Skill) -> (r: bool)
    ensures
        r == name_path_lt(a@, b@),
{
    let an = chars_of(a.name.as_str());
    let bn = chars_of(b.name.as_str());
    if chars_lt(&an, &bn) {
        return true;
    }
    if !chars_eq(&an, &bn) {
        return false;
    }
    let ap = chars_of(a.path.as_str());
    let bp = chars_of(b.path.as_str());
    chars_lt(&ap, &bp)
}

/// Sorts skills by name, then path, keeping skills with equal keys in
/// their input order.
pub fn sort_by_name_and_path(skills: Vec<Skill>) -> (out: Vec<Skill>)
    ensures
        sorted_by_name_and_path(skills_view(skills@), skills_view(out@)),
{
    let ghost iv = skills_view(skills@);
    let ghost n = skills@.len() as int;
    let len0 = skills.len();
    assert(n == len0);
    let mut rest = skills;
    let mut out: Vec<Skill> = Vec::new();
    let ghost mut idx: Seq<int> = Seq::empty();
    let mut i: usize = 0;
    while rest.len() > 0
        invariant
            i <= n,
            n <= usize::MAX,
            iv.len() == n,
            skills_view(rest@) == iv.subrange(i as int, n),
            rest@.len() == n - i,
            out@.len() == i,
            idx.len() == i,
            forall|k: int| 0 <= k < i ==> 0 <= #[trigger] idx[k] < i,
            forall|a: int, b: int| 0 <= a < b < i ==> #[trigger] idx[a] != #[trigger] idx[b],
            forall|k: int| 0 <= k < i ==> #[trigger] skills_view(out@)[k] == iv[idx[k]],
            stably_sorted(skills_view(out@), idx),
        decreases rest@.len(),
    {
        let ghost rb = rest@;
        let s = rest.remove(0);
        proof {
            assert(rest@ =~= rb.subrange(1, rb.len() as int));
            assert forall|k: int| 0 <= k < rest@.len() implies #[trigger] skills_view(rest@)[k] == iv.subrange(i + 1, n)[k] by {
                assert(rest@[k] == rb[k + 1]);
                assert(skills_view(rb)[k + 1] == iv.subrange(i as int, n)[k + 1]);
            }
            assert(skills_view(rest@) =~= iv.subrange(i + 1, n));
            assert(skills_view(rb)[0] == s@);
            assert(s@ == iv[i as int]);
        }
        let mut p: usize = 0;
        while p < out.len()
            invariant
                p <= out.len(),
                forall|a: int| 0 <= a < p ==> !name_path_lt(s@, #[trigger] skills_view(out@)[a]),
            ensures
                p <= out.len(),
                forall|a: int| 0 <= a < p ==> !name_path_lt(s@, #[trigger] skills_view(out@)[a]),
                p < out.len() ==> name_path_lt(s@, skills_view(out@)[p as int]),
            decreases out.len() - p,
        {
            if name_path_lt_exec(&s, &out[p]) {
                break;
            }
            p += 1;
        }
        let ghost ob = skills_view(out@);
        let ghost ib = idx;
        out.insert(p, s);
        proof {
            idx = ib.insert(p as int, i as int);
            let ov = skills_view(out@);
            assert(ov =~= ob.insert(p as int, s@));
            assert forall|k: int| 0 <= k < i + 1 implies 0 <= #[trigger] idx[k] < i + 1 by {
                if k < p { assert(idx[k] == ib[k]); } else if k > p { assert(idx[k] == ib[k - 1]); }
            }
            assert forall|a: int, b: int| 0 <= a < b < i + 1 implies #[trigger] idx[a] != #[trigger] idx[b] by {
                if a < p && b < p { assert(idx[a] == ib[a] && idx[b] == ib[b]); }
                else if a < p && b == p { assert(idx[a] == ib[a]); }
                else if a < p { assert(idx[a] == ib[a] && idx[b] == ib[b - 1]); }
                else if a == p { assert(idx[b] == ib[b - 1]); }
                else { assert(idx[a] == ib[a - 1] && idx[b] == ib[b - 1]); }
            }
            assert forall|k: int| 0 <= k < i + 1 implies #[trigger] ov[k] == iv[idx[k]] by {
                if k < p { assert(ov[k] == ob[k] && idx[k] == ib[k]); }
                else if k > p { assert(ov[k] == ob[k - 1] && idx[k] == ib[k - 1]); }
            }
            assert forall|a: int, b: int| 0 <= a < b < ov.len() implies name_path_lt(#[trigger] ov[a], #[trigger] ov[b]) || (
                ov[a].name == ov[b].name && ov[a].path == ov[b].path && idx[a] < idx[b]) by {
                let x = s@;
                if a < p && b < p {
                    assert(ov[a] == ob[a] && ov[b] == ob[b] && idx[a] == ib[a] && idx[b] == ib[b]);
                } else if a < p && b == p {
                    assert(ov[a] == ob[a] && idx[a] == ib[a]);
                    lemma_np(ob[a], x);
                } else if a < p {
                    assert(ov[a] == ob[a] && ov[b] == ob[b - 1] && idx[a] == ib[a] && idx[b] == ib[b - 1]);
                } else if a == p {
                    assert(ov[b] == ob[b - 1]);
                    assert(name_path_lt(x, ob[p as int]));
                    if b - 1 > p {
                        let y = ob[p as int];
                        let z = ob[b - 1];
                        lemma_np_trans(x, y, z);
                    }
                } else {
                    assert(ov[a] == ob[a - 1] && ov[b] == ob[b - 1] && idx[a] == ib[a - 1] && idx[b] == ib[b - 1]);
                }
            }
        }
        i += 1;
    }
    proof {
        assert(is_permutation(idx, n));
    }
    out
}

proof fn lemma_np(a: SkillView, x: SkillView)
    requires
        !name_path_lt(x, a),
    ensures
        name_path_lt(a, x) || (a.name == x.name && a.path == x.path),
{
    lemma_seq_lt_total(a.name, x.name);
    lemma_seq_lt_total(a.path, x.path);
}

proof fn lemma_np_trans(x: SkillView, y: SkillView, z: SkillView)
    requires
        name_path_lt(x, y),
        name_path_lt(y, z) || (y.name == z.name && y.path == z.path),
    ensures
        name_path_lt(x, z),
{
    lemma_seq_lt_trans(x.name, y.name, z.name);
    lemma_seq_lt_trans(x.path, y.path, z.path);
}


/// What one file contributes to a sync.
pub enum SyncEntry {
    Parsed(Skill),
    Failed(ParseError),
    Skipped,
}

/// The outcome of reading and parsing one file, as a sync entry: a skill
/// when a header was found, nothing when the file has no header, and a
/// failure only in strict mode.
pub fn sync_entry(path: String, outcome: Result<Option<SkillHeader>, String>, strict: bool) -> (e: SyncEntry)
    requires
        outcome matches Ok(Some(h)) ==> distinct_arg_names(args_view(h.args@)),
    ensures
        match outcome {
            Ok(Some(h)) => e matches SyncEntry::Parsed(s) && s@.name == h.name@ && s@.path == path@
                && s@.description == h.description@ && s@.tool_name == opt_string_view(h.tool_name)
                && s@.tags == strings_view(h.tags@)
                && s@.command_template == opt_string_view(h.command_template)
                && (h.args@.len() == 0 ==> s@.parameters is None)
                && (h.args@.len() > 0 ==> (s@.parameters matches Some(p) && schema_of(args_view(h.args@), p)))
                && s@.checksum is None,
            Ok(None) => e is Skipped,
            Err(m) => if strict {
                e matches SyncEntry::Failed(f) && f@ == (path@, m@)
            } else {
                e is Skipped
            },
        },
{
    match outcome {
        Ok(Some(header)) => SyncEntry::Parsed(Skill::from_header(header, path)),
        Ok(None) => SyncEntry::Skipped,
        Err(message) => if strict {
            SyncEntry::Failed(ParseError::new(path, message))
        } else {
            SyncEntry::Skipped
        },
    }
}

/// The skills among the entries, in order.
pub open spec fn parsed_skills(e: Seq<SyncEntry>) -> Seq<SkillView>
    decreases e.len(),
{
    if e.len() == 0 {
        Seq::empty()
    } else {
        let r = parsed_skills(e.drop_last());
        match e.last() {
            SyncEntry::Parsed(s) => r.push(s@),
            _ => r,
        }
    }
}

/// The failures among the entries, in order.
pub open spec fn failed_entries(e: Seq<SyncEntry>) -> Seq<(Seq<char>, Seq<char>)>
    decreases e.len(),
{
    if e.len() == 0 {
        Seq::empty()
    } else {
        let r = failed_entries(e.drop_last());
        match e.last() {
            SyncEntry::Failed(f) => r.push(f@),
            _ => r,
        }
    }
}

/// Every skill of `v` with its final tool name.
pub open spec fn finalized(v: Seq<SkillView>, strict: bool) -> Seq<SkillView> {
    Seq::new(v.len(), |i: int| with_tool_name(v[i], final_tool_name(first_names(v, strict), paths_of(v), i, strict)))
}

/// The skills of `v` that have a tool name, in order.
pub open spec fn named_only(v: Seq<SkillView>) -> Seq<SkillView>
    decreases v.len(),
{
    if v.len() == 0 {
        Seq::empty()
    } else {
        let r = named_only(v.drop_last());
        if v.last().tool_name is Some {
            r.push(v.last())
        } else {
            r
        }
    }
}

/// The skills that go into the index: in strict mode those left without a
/// tool name are dropped.
pub open spec fn indexed_skills(e: Seq<SyncEntry>, strict: bool) -> Seq<SkillView> {
    let f = finalized(parsed_skills(e), strict);
    if strict {
        named_only(f)
    } else {
        f
    }
}

/// Builds the index from the entries of a sync: the skills with final
/// tool names, ordered by name and path, and the errors: failed entries
/// first, then those of tool-name finalisation.
pub fn build_index(entries: Vec<SyncEntry>, strict: bool) -> (r: (Index, Vec<ParseError>))
    ensures
        r.0.version@ == index_version(),
        exists|secs: u64| r.0.last_sync@ == sync_stamp(secs as nat),
        sorted_by_name_and_path(indexed_skills(entries@, strict), skills_view(r.0.skills@)),
        errors_view(r.1@) == failed_entries(entries@) + finalize_errors(parsed_skills(entries@), strict),
{
    let ghost ev = entries@;
    let ghost n = entries@.len() as int;
    let mut rest = entries;
    let mut skills: Vec<Skill> = Vec::new();
    let mut errors: Vec<ParseError> = Vec::new();
    let ghost mut i: int = 0;
    while rest.len() > 0
        invariant
            0 <= i <= n,
            ev.len() == n,
            rest@ == ev.subrange(i, n),
            skills_view(skills@) == parsed_skills(ev.take(i)),
            errors_view(errors@) == failed_entries(ev.take(i)),
        decreases rest@.len(),
    {
        let ghost rb = rest@;
        let entry = rest.remove(0);
        proof {
            assert(rest@ =~= ev.subrange(i + 1, n));
            assert(entry == ev[i]);
            assert(ev.take(i + 1).drop_last() =~= ev.take(i));
            assert(ev.take(i + 1).last() == ev[i]);
        }
        let ghost sb = skills@;
        let ghost eb = errors@;
        match entry {
            SyncEntry::Parsed(s) => {
                skills.push(s);
                proof {
                    assert(skills_view(skills@) =~= skills_view(sb).push(skills@.last()@));
                }
            },
            SyncEntry::Failed(f) => {
                errors.push(f);
                proof {
                    assert(errors_view(errors@) =~= errors_view(eb).push(errors@.last()@));
                }
            },
            SyncEntry::Skipped => {},
        }
        proof {
            i = i + 1;
        }
    }
    assert(ev.take(n) =~= ev);
    let ghost pv = skills_view(skills@);
    let finalize = finalize_tool_names(&mut skills, strict);
    assert(skills_view(skills@) =~= finalized(pv, strict));
    let ghost eb = errors@;
    let mut fe = finalize;
    errors.append(&mut fe);
    assert(errors_view(errors@) =~= errors_view(eb) + errors_view(finalize@));
    let kept = if strict {
        keep_named(skills)
    } else {
        skills
    };
    let sorted = sort_by_name_and_path(kept);
    let mut index = Index::new();
    index.skills = sorted;
    (index, errors)
}

/// The skills that have a tool name, in order.
pub fn keep_named(skills: Vec<Skill>) -> (out: Vec<Skill>)
    ensures
        skills_view(out@) == named_only(skills_view(skills@)),
{
    let ghost fv = skills_view(skills@);
    let ghost m = fv.len() as int;
    let mut out: Vec<Skill> = Vec::new();
    let mut rest = skills;
    let ghost mut k: int = 0;
    while rest.len() > 0
        invariant
            0 <= k <= m,
            fv.len() == m,
            rest@.len() == m - k,
            forall|j: int| 0 <= j < m - k ==> #[trigger] rest@[j]@ == fv[k + j],
            skills_view(out@) == named_only(fv.take(k)),
        decreases rest@.len(),
    {
        let ghost rb = rest@;
        let s = rest.remove(0);
        proof {
            assert forall|j: int| 0 <= j < m - k - 1 implies #[trigger] rest@[j]@ == fv[k + 1 + j] by {
                assert(rest@[j] == rb[j + 1]);
                assert(rb[j + 1]@ == fv[k + (j + 1)]);
            }
            assert(rb[0]@ == fv[k + 0]);
            assert(fv.take(k + 1).drop_last() =~= fv.take(k));
            assert(fv.take(k + 1).last() == fv[k]);
        }
        let ghost ob = out@;
        if s.tool_name.is_some() {
            out.push(s);
            proof {
                assert(skills_view(out@) =~= skills_view(ob).push(out@.last()@));
            }
        }
        proof {
            k = k + 1;
        }
    }
    assert(fv.take(m) =~= fv);
    out
}
} // verus!
