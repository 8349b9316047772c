//! Properties of the library as a whole, stated over the same models the
//! functions' contracts use.
use vstd::prelude::*;
use crate::config::{
    ConfigView, default_config_view, duration_suffix, duration_text, duration_value, extend_unique_spec,
    file_size_text, file_size_value, merge_spec, mib, size_suffix,
};
use crate::text::{ascii_lower, is_ascii_digit, is_ascii_lower, is_ascii_upper};
use crate::tool_name::{
    char_lowercase, collapse, first_non_sep, is_ascii_alpha, is_sep, is_tool_char, last_non_sep,
    lemma_collapse_tool_chars, lemma_sanitize_tool_chars, lemma_strip_bounds, lower_of, lower_seq,
    map_tool_char, sanitize, skill_word, strip_seps, auto_tool_name, hex_fixed, hex_digit, stable_hash, fnv1,
};
use crate::sync::{final_tool_name, first_names, first_tool_name, is_dup, paths_of};
use crate::skill::SkillView;
use crate::registry::{ScriptView, first_repeat, normalized_tags, valid_script_name};
use crate::search::{
    SearchMatch, match_before, match_tie, matches_view, query_score, ranked, result_limit, script_score, tags_score,
};
use crate::settings::{ConfigRead, contributed, resolved_config};
use crate::searcher::{positions, text_match};
use crate::picker::haystack_of;
use crate::text::contains_sub;
use crate::search::{REQUESTED_TAG_BONUS, candidates, sat, search_candidates, str_lowercase, tag_gain};
use crate::paths::{is_absolute, join, normalized_path, resolve_scan, tilde, unix_style, verbatim_prefix};
use crate::picker::{marked, next_selection, previous_selection, segments, segments_upto};
use crate::mcp::{script_uri, scripts_prefix, source_suffix, first_slash};
use crate::text::{
    all_digits, ascii_upper, ascii_upper_seq, decimal, digit_char, digits_value, ends_with, eq_ignore_ascii_case,
    is_ws, lemma_digits_value_push, parse_u64, starts_with, trim, trim_end, trim_start,
};

verus! {

/// No two neighbouring scalars are both separators.
pub open spec fn no_double_sep(s: Seq<char>) -> bool {
    forall|i: int| 0 <= i < s.len() - 1 ==> !(is_sep(#[trigger] s[i]) && is_sep(s[i + 1]))
}

proof fn lemma_lower_seq_tool_chars(s: Seq<char>)
    requires
        forall|i: int| 0 <= i < s.len() ==> is_tool_char(#[trigger] s[i]),
    ensures
        lower_seq(s) == s,
    decreases s.len(),
{
    if s.len() > 0 {
        let t = s.drop_last();
        assert forall|i: int| 0 <= i < t.len() implies is_tool_char(#[trigger] t[i]) by {
            assert(t[i] == s[i]);
        }
        lemma_lower_seq_tool_chars(t);
        let c = s.last();
        assert(is_tool_char(s[s.len() - 1]));
        assert((c as u32) < 128);
        assert(lower_of(c) == seq![c]);
        assert(lower_seq(s) =~= t + seq![c]);
        assert(s =~= t + seq![c]);
    }
}

proof fn lemma_collapse_no_double(s: Seq<char>)
    ensures
        no_double_sep(collapse(s)),
    decreases s.len(),
{
    if s.len() > 0 {
        lemma_collapse_no_double(s.drop_last());
        let r = collapse(s.drop_last());
        let m = map_tool_char(s.last());
        if !(is_sep(m) && r.len() > 0 && is_sep(r.last())) {
            let c = r.push(m);
            assert forall|i: int| 0 <= i < c.len() - 1 implies !(is_sep(#[trigger] c[i]) && is_sep(c[i + 1])) by {
                if i < r.len() - 1 {
                    assert(c[i] == r[i] && c[i + 1] == r[i + 1]);
                } else {
                    assert(c[i] == r.last());
                }
            }
        }
    }
}

proof fn lemma_collapse_identity(s: Seq<char>)
    requires
        forall|i: int| 0 <= i < s.len() ==> is_tool_char(#[trigger] s[i]),
        no_double_sep(s),
    ensures
        collapse(s) == s,
    decreases s.len(),
{
    if s.len() > 0 {
        let t = s.drop_last();
        assert forall|i: int| 0 <= i < t.len() implies is_tool_char(#[trigger] t[i]) by {
            assert(t[i] == s[i]);
        }
        assert forall|i: int| 0 <= i < t.len() - 1 implies !(is_sep(#[trigger] t[i]) && is_sep(t[i + 1])) by {
            assert(t[i] == s[i] && t[i + 1] == s[i + 1]);
        }
        lemma_collapse_identity(t);
        assert(is_tool_char(s[s.len() - 1]));
        assert(map_tool_char(s.last()) == s.last());
        if t.len() > 0 {
            assert(!(is_sep(s[s.len() - 2]) && is_sep(s[s.len() - 1])));
        }
        assert(t.push(s.last()) =~= s);
    }
}

proof fn lemma_strip_identity(s: Seq<char>)
    requires
        s.len() > 0,
        !is_sep(s[0]),
        !is_sep(s.last()),
    ensures
        strip_seps(s) == s,
{
    assert(first_non_sep(s) == 0);
    assert(last_non_sep(s) == s.len());
    assert(s.subrange(0, s.len() as int) =~= s);
}

/// The shape of a normalised tool name: only `[a-z0-9_-]`, no doubled
/// separators, and, unless empty, a letter first and no separator last.
pub open spec fn well_formed_tool_name(s: Seq<char>) -> bool {
    &&& forall|i: int| 0 <= i < s.len() ==> is_tool_char(#[trigger] s[i])
    &&& no_double_sep(s)
    &&& s.len() > 0 ==> is_ascii_alpha(s[0]) && !is_sep(s.last())
}

/// Every normalised tool name is well formed: lowercase ASCII letters,
/// digits, `_` and `-` only, starting with a letter, ending with a letter
/// or digit, never with two separators in a row.
pub proof fn law_sanitized_names_are_well_formed(input: Seq<char>)
    ensures
        well_formed_tool_name(sanitize(input)),
{
    lemma_sanitize_tool_chars(input);
    let l = lower_seq(input);
    let c = collapse(l);
    lemma_collapse_no_double(l);
    lemma_collapse_tool_chars(l);
    lemma_strip_bounds(c);
    let t = strip_seps(c);
    let y = sanitize(input);
    if t.len() > 0 {
        let a = first_non_sep(c);
        let b = last_non_sep(c);
        assert(t =~= c.subrange(a, b));
        assert forall|i: int| 0 <= i < t.len() - 1 implies !(is_sep(#[trigger] t[i]) && is_sep(t[i + 1])) by {
            assert(t[i] == c[a + i] && t[i + 1] == c[a + i + 1]);
        }
        assert(t[0] == c[a]);
        assert(t.last() == c[b - 1]);
        if !is_ascii_alpha(t[0]) {
            let w = skill_word().push('_');
            assert(y == w + t);
            assert forall|i: int| 0 <= i < y.len() - 1 implies !(is_sep(#[trigger] y[i]) && is_sep(y[i + 1])) by {
                if i >= 6 {
                    assert(y[i] == t[i - 6] && y[i + 1] == t[i - 5]);
                } else if i == 5 {
                    assert(y[i + 1] == t[0]);
                } else {
                    assert(y[i] == w[i]);
                }
            }
            assert(y[0] == 's');
            assert(y.last() == t.last());
        }
    }
}

/// Normalising a tool name twice gives what normalising it once gives.
pub proof fn law_sanitize_idempotent(input: Seq<char>)
    ensures
        sanitize(sanitize(input)) == sanitize(input),
{
    let y = sanitize(input);
    law_sanitized_names_are_well_formed(input);
    lemma_lower_seq_tool_chars(y);
    lemma_collapse_identity(y);
    if y.len() > 0 {
        assert(!is_sep(y[0]));
        lemma_strip_identity(y);
    } else {
        assert(lower_seq(y) =~= Seq::<char>::empty());
        assert(collapse(Seq::<char>::empty()) =~= Seq::<char>::empty());
    }
}

/// Outside strict mode every skill ends with a tool name.
pub proof fn law_lenient_finalisation_names_every_skill(v: Seq<SkillView>, i: int)
    requires
        0 <= i < v.len(),
    ensures
        final_tool_name(first_names(v, false), paths_of(v), i, false) is Some,
{
    assert(first_names(v, false)[i] == first_tool_name(v[i], false));
}

/// In strict mode no two skills end with the same tool name.
pub proof fn law_strict_tool_names_are_unique(v: Seq<SkillView>, i: int, j: int)
    requires
        0 <= i < v.len(),
        0 <= j < v.len(),
        i != j,
        final_tool_name(first_names(v, true), paths_of(v), i, true) is Some,
    ensures
        final_tool_name(first_names(v, true), paths_of(v), i, true) != final_tool_name(
            first_names(v, true),
            paths_of(v),
            j,
            true,
        ),
{
    let names = first_names(v, true);
    let fi = final_tool_name(names, paths_of(v), i, true);
    let fj = final_tool_name(names, paths_of(v), j, true);
    assert(!is_dup(names, i));
    if fj is Some {
        assert(!is_dup(names, j));
        assert(fj == names[j]);
        assert(fi == names[i]);
        if names[j] == names[i] {
            assert(is_dup(names, i));
        }
    }
}


/// `extend_unique_spec` keeps `target` in front and adds each item of
/// `source` that is missing; it adds no item twice.
proof fn lemma_extend_unique(target: Seq<Seq<char>>, source: Seq<Seq<char>>)
    ensures
        extend_unique_spec(target, source).len() >= target.len(),
        extend_unique_spec(target, source).take(target.len() as int) == target,
        forall|k: int| 0 <= k < source.len() ==> extend_unique_spec(target, source).contains(#[trigger] source[k]),
        forall|x: Seq<char>| #[trigger] extend_unique_spec(target, source).contains(x) ==> target.contains(x) || source.contains(x),
        no_repeats(target) ==> no_repeats(extend_unique_spec(target, source)),
    decreases source.len(),
{
    if source.len() > 0 {
        let s0 = source.drop_last();
        lemma_extend_unique(target, s0);
        let r = extend_unique_spec(target, s0);
        let x = source.last();
        assert forall|k: int| 0 <= k < source.len() implies extend_unique_spec(target, source).contains(#[trigger] source[k]) by {
            if k < source.len() - 1 {
                assert(source[k] == s0[k]);
                assert(r.contains(s0[k]));
                if !r.contains(x) {
                    let w = choose|w: int| 0 <= w < r.len() && r[w] == s0[k];
                    assert(r.push(x)[w] == s0[k]);
                }
            } else {
                if !r.contains(x) {
                    assert(r.push(x)[r.len() as int] == x);
                }
            }
        }
        assert forall|y: Seq<char>| #[trigger] extend_unique_spec(target, source).contains(y) implies target.contains(y) || source.contains(y) by {
            if r.contains(y) {
                if !target.contains(y) {
                    assert(s0.contains(y));
                    let w = choose|w: int| 0 <= w < s0.len() && s0[w] == y;
                    assert(source[w] == y);
                }
            } else {
                assert(y == x);
                assert(source[source.len() - 1] == y);
            }
        }
        if !r.contains(x) {
            assert(r.push(x).take(target.len() as int) =~= r.take(target.len() as int));
            if no_repeats(r) {
                assert forall|a: int, b: int| 0 <= a < b < r.push(x).len() implies #[trigger] r.push(x)[a] != #[trigger] r.push(x)[b] by {
                    if b == r.len() {
                        assert(r.push(x)[a] == r[a]);
                    } else {
                        assert(r.push(x)[a] == r[a] && r.push(x)[b] == r[b]);
                    }
                }
            }
        }
    }
}

/// No item occurs twice.
pub open spec fn no_repeats(s: Seq<Seq<char>>) -> bool {
    forall|a: int, b: int| 0 <= a < b < s.len() ==> #[trigger] s[a] != #[trigger] s[b]
}

/// Merging configurations keeps the base's scan paths and ignore patterns
/// first and in order, adds every path and pattern of the more specific
/// configuration, adds nothing else, and repeats nothing the base did not.
pub proof fn law_merge_keeps_base_lists_and_adds_missing(base: ConfigView, other: ConfigView)
    ensures
        ({
            let m = merge_spec(base, other);
            &&& m.scan_paths.take(base.scan_paths.len() as int) == base.scan_paths
            &&& m.ignore_patterns.take(base.ignore_patterns.len() as int) == base.ignore_patterns
            &&& forall|k: int| 0 <= k < other.scan_paths.len() ==> m.scan_paths.contains(#[trigger] other.scan_paths[k])
            &&& forall|k: int| 0 <= k < other.ignore_patterns.len() ==> m.ignore_patterns.contains(#[trigger] other.ignore_patterns[k])
            &&& forall|x: Seq<char>| #[trigger] m.scan_paths.contains(x) ==> base.scan_paths.contains(x) || other.scan_paths.contains(x)
            &&& no_repeats(base.scan_paths) ==> no_repeats(m.scan_paths)
            &&& no_repeats(base.ignore_patterns) ==> no_repeats(m.ignore_patterns)
        }),
{
    lemma_extend_unique(base.scan_paths, other.scan_paths);
    lemma_extend_unique(base.ignore_patterns, other.ignore_patterns);
}

/// Merging in a configuration that keeps every default leaves the base's
/// scalar settings as they were.
pub proof fn law_merge_with_defaults_keeps_base_scalars(base: ConfigView)
    ensures
        merge_spec(base, default_config_view()).max_file_size == base.max_file_size,
        merge_spec(base, default_config_view()).search_limit == base.search_limit,
        merge_spec(base, default_config_view()).cache_ttl_seconds == base.cache_ttl_seconds,
        merge_spec(base, default_config_view()).copy_to_clipboard_on_pick == base.copy_to_clipboard_on_pick,
        merge_spec(base, default_config_view()).language == base.language,
{
}

proof fn lemma_first_repeat_none(v: Seq<ScriptView>, k: int)
    requires
        0 <= k <= v.len(),
        first_repeat(v, k) is None,
    ensures
        forall|a: int, b: int| 0 <= a < b < k ==> (#[trigger] v[a]).name != (#[trigger] v[b]).name,
    decreases k,
{
    if k > 0 {
        assert(first_repeat(v, k - 1) is None);
        lemma_first_repeat_none(v, k - 1);
        assert forall|a: int, b: int| 0 <= a < b < k implies (#[trigger] v[a]).name != (#[trigger] v[b]).name by {
            if b == k - 1 {
                if v[a].name == v[b].name {
                    assert(exists|j: int| 0 <= j < k - 1 && #[trigger] v[j].name == v[k - 1].name);
                }
            }
        }
    }
}

/// A registry that loads has no two scripts with the same name.
pub proof fn law_loaded_registry_names_are_unique(sorted: Seq<ScriptView>, a: int, b: int)
    requires
        first_repeat(sorted, sorted.len() as int) is None,
        0 <= a < b < sorted.len(),
    ensures
        sorted[a].name != sorted[b].name,
{
    lemma_first_repeat_none(sorted, sorted.len() as int);
}

/// Requested tags only add to a script's score: a script the query
/// matches is found whatever tags are requested.
pub proof fn law_tags_never_exclude_query_matches(s: ScriptView, q: Option<Seq<char>>, terms: Seq<Seq<char>>, tags: Seq<Seq<char>>)
    requires
        query_score(s, q, terms).1,
    ensures
        script_score(s, q, terms, tags) is Some,
{
}

/// Search results are at most as many as the limit allows (never more than
/// ten) and come best score first.
pub proof fn law_search_results_are_bounded_and_ordered(
    v: Seq<ScriptView>,
    cands: Seq<(int, int)>,
    full: Seq<(int, int)>,
    out: Seq<(int, int)>,
    limit: Option<usize>,
)
    requires
        ranked(v, cands, full),
        out == full.take(if full.len() < result_limit(limit) { full.len() as int } else { result_limit(limit) }),
    ensures
        out.len() <= result_limit(limit) <= 10,
        forall|a: int, b: int| 0 <= a < b < out.len() ==> (#[trigger] out[a]).1 >= (#[trigger] out[b]).1,
{
    let idx = choose|idx: Seq<int>| crate::sync::is_permutation(idx, cands.len() as int) && full.len() == cands.len()
        && (forall|k: int| 0 <= k < full.len() ==> #[trigger] full[k] == cands[idx[k]]) && (forall|a: int, b: int|
        0 <= a < b < full.len() ==> match_before(v, #[trigger] full[a], #[trigger] full[b]) || (match_tie(v, full[a], full[b])
            && idx[a] < idx[b]));
    assert forall|a: int, b: int| 0 <= a < b < out.len() implies (#[trigger] out[a]).1 >= (#[trigger] out[b]).1 by {
        assert(out[a] == full[a] && out[b] == full[b]);
        assert(match_before(v, full[a], full[b]) || match_tie(v, full[a], full[b]));
    }
}

proof fn lemma_normalized_tags(tags: Seq<Seq<char>>)
    ensures
        forall|a: int, b: int|
            0 <= a < b < normalized_tags(tags).len() ==> !eq_ignore_ascii_case(#[trigger] normalized_tags(tags)[a], #[trigger] normalized_tags(tags)[b]),
        forall|a: int| 0 <= a < normalized_tags(tags).len() ==> exists|k: int| 0 <= k < tags.len() && #[trigger] normalized_tags(tags)[a] == trim(tags[k]),
    decreases tags.len(),
{
    if tags.len() > 0 {
        let t0 = tags.drop_last();
        lemma_normalized_tags(t0);
        let r = normalized_tags(t0);
        let t = trim(tags.last());
        let n = normalized_tags(tags);
        if !(exists|k: int| 0 <= k < r.len() && eq_ignore_ascii_case(#[trigger] r[k], t)) {
            assert(n == r.push(t));
            assert forall|a: int, b: int| 0 <= a < b < n.len() implies !eq_ignore_ascii_case(#[trigger] n[a], #[trigger] n[b]) by {
                if b == r.len() {
                    assert(n[a] == r[a]);
                    assert(!eq_ignore_ascii_case(r[a], t));
                } else {
                    assert(n[a] == r[a] && n[b] == r[b]);
                }
            }
            assert forall|a: int| 0 <= a < n.len() implies exists|k: int| 0 <= k < tags.len() && #[trigger] n[a] == trim(tags[k]) by {
                if a < r.len() {
                    let k = choose|k: int| 0 <= k < t0.len() && #[trigger] r[a] == trim(t0[k]);
                    assert(tags[k] == t0[k]);
                    assert(n[a] == trim(tags[k]));
                } else {
                    assert(n[a] == trim(tags[tags.len() - 1]));
                }
            }
        } else {
            assert forall|a: int| 0 <= a < n.len() implies exists|k: int| 0 <= k < tags.len() && #[trigger] n[a] == trim(tags[k]) by {
                let k = choose|k: int| 0 <= k < t0.len() && #[trigger] r[a] == trim(t0[k]);
                assert(tags[k] == t0[k]);
            }
        }
    }
}

/// The tags of a registered script are trimmed registered tags, no two of
/// them equal up to ASCII case.
pub proof fn law_normalized_tags_are_distinct(tags: Seq<Seq<char>>)
    ensures
        forall|a: int, b: int|
            0 <= a < b < normalized_tags(tags).len() ==> !eq_ignore_ascii_case(#[trigger] normalized_tags(tags)[a], #[trigger] normalized_tags(tags)[b]),
        forall|a: int| 0 <= a < normalized_tags(tags).len() ==> exists|k: int| 0 <= k < tags.len() && #[trigger] normalized_tags(tags)[a] == trim(tags[k]),
{
    lemma_normalized_tags(tags);
}

/// Paths in Unix style hold no backslash.
pub proof fn law_unix_style_has_no_backslash(p: Seq<char>)
    ensures
        !unix_style(p).contains('\\'),
{
    if unix_style(p).contains('\\') {
        let i = choose|i: int| 0 <= i < unix_style(p).len() && unix_style(p)[i] == '\\';
        assert(unix_style(p)[i] == (if p[i] == '\\' { '/' } else { p[i] }));
    }
}

/// A configuration file that cannot be read or parsed is ignored: resolving
/// gives what it gives when that file is missing.
pub proof fn law_unusable_config_counts_as_missing(
    global_dir: Seq<char>,
    local_dir: Seq<char>,
    home: Seq<char>,
    other: ConfigRead,
)
    ensures
        resolved_config(global_dir, contributed(ConfigRead::Unusable, global_dir, home), contributed(other, local_dir, home))
            == resolved_config(global_dir, contributed(ConfigRead::Missing, global_dir, home), contributed(other, local_dir, home)),
        resolved_config(global_dir, contributed(other, global_dir, home), contributed(ConfigRead::Unusable, local_dir, home))
            == resolved_config(global_dir, contributed(other, global_dir, home), contributed(ConfigRead::Missing, local_dir, home)),
{
}

/// An absolute path normalises to its own text with `/` separators, and a
/// normalised path that is absolute normalises to itself again, whatever
/// the file system answers the second time.
pub proof fn law_normalized_paths_are_stable(
    p: Seq<char>,
    canonical: Option<Seq<char>>,
    cwd: Option<Seq<char>>,
    canonical2: Option<Seq<char>>,
    cwd2: Option<Seq<char>>,
)
    ensures
        is_absolute(p) ==> normalized_path(p, canonical, cwd) == unix_style(p),
        is_absolute(normalized_path(p, canonical, cwd)) ==> normalized_path(normalized_path(p, canonical, cwd), canonical2, cwd2)
            == normalized_path(p, canonical, cwd),
{
    if is_absolute(p) && p.len() >= 4 {
        assert(p.subrange(0, 4)[0] == p[0]);
    }
    let r = normalized_path(p, canonical, cwd);
    if is_absolute(r) {
        if r.len() >= 4 {
            assert(r.subrange(0, 4)[0] == r[0]);
        }
        assert(!starts_with(r, verbatim_prefix()));
        law_unix_style_has_no_backslash(crate::paths::simplified_path(crate::paths::absolute_form(p, canonical, cwd)));
        assert(unix_style(r) =~= r);
    }
}

/// The texts of display pieces, one after another.
pub open spec fn joined(v: Seq<(Seq<char>, bool)>) -> Seq<char>
    decreases v.len(),
{
    if v.len() == 0 {
        Seq::empty()
    } else {
        joined(v.drop_last()) + v.last().0
    }
}

proof fn lemma_segments_upto(text: Seq<char>, indices: Seq<usize>, k: int)
    requires
        0 <= k <= text.len(),
    ensures
        joined(segments_upto(text, indices, k)) == text.take(k),
        forall|j: int| 0 <= j < segments_upto(text, indices, k).len() ==> (#[trigger] segments_upto(text, indices, k)[j]).1 ==> segments_upto(text, indices, k)[j].0.len() == 1,
    decreases k,
{
    if k > 0 {
        lemma_segments_upto(text, indices, k - 1);
        let r = segments_upto(text, indices, k - 1);
        let c = text[k - 1];
        if marked(indices, k - 1) {
            assert(r.push((seq![c], true)).drop_last() =~= r);
            assert(text.take(k) =~= text.take(k - 1) + seq![c]);
        } else if r.len() > 0 && !r.last().1 {
            let u = r.update(r.len() - 1, (r.last().0.push(c), false));
            assert(u.drop_last() =~= r.drop_last());
            assert(joined(r) == joined(r.drop_last()) + r.last().0);
            assert(text.take(k) =~= text.take(k - 1) + seq![c]);
            assert(joined(u) == joined(r.drop_last()) + r.last().0.push(c));
            assert(joined(r.drop_last()) + r.last().0.push(c) =~= (joined(r.drop_last()) + r.last().0) + seq![c]);
        } else {
            assert(r.push((seq![c], false)).drop_last() =~= r);
            assert(text.take(k) =~= text.take(k - 1) + seq![c]);
        }
    } else {
        assert(text.take(0) =~= Seq::<char>::empty());
    }
}

/// Highlighting never changes a text: the display pieces put together
/// give the text back, and each highlighted piece is a single scalar.
pub proof fn law_highlight_pieces_rebuild_text(text: Seq<char>, indices: Seq<usize>)
    ensures
        joined(segments(text, indices)) == text,
        forall|j: int| 0 <= j < segments(text, indices).len() ==> (#[trigger] segments(text, indices)[j]).1 ==> segments(text, indices)[j].0.len() == 1,
{
    if indices.len() == 0 {
        let v = seq![(text, false)];
        assert(v.drop_last() =~= Seq::<(Seq<char>, bool)>::empty());
        assert(v.last() == (text, false));
        assert(joined(v.drop_last()) == Seq::<char>::empty());
        assert(Seq::<char>::empty() + text =~= text);
    } else {
        lemma_segments_upto(text, indices, text.len() as int);
        assert(text.take(text.len() as int) =~= text);
    }
}

proof fn lemma_first_slash_none(s: Seq<char>, from: int)
    requires
        0 <= from <= s.len(),
        forall|i: int| from <= i < s.len() ==> s[i] != '/',
    ensures
        first_slash(s, from) == s.len(),
    decreases s.len() - from,
{
    if from < s.len() {
        lemma_first_slash_none(s, from + 1);
    }
}

proof fn lemma_first_slash_at(s: Seq<char>, from: int, k: int)
    requires
        0 <= from <= k < s.len(),
        s[k] == '/',
        forall|i: int| from <= i < k ==> s[i] != '/',
    ensures
        first_slash(s, from) == k,
    decreases k - from,
{
    if from < k {
        lemma_first_slash_at(s, from + 1, k);
    }
}

/// Parsing a script's resource URIs gives its name back, with the source
/// flag telling the two apart.
pub proof fn law_script_uris_round_trip(name: Seq<char>)
    requires
        valid_script_name(name),
    ensures
        script_uri(scripts_prefix() + name) == Some((name, false)),
        script_uri(scripts_prefix() + name + source_suffix()) == Some((name, true)),
{
    reveal_strlit("sks://scripts/");
    reveal_strlit("/source");
    reveal_strlit("source");
    let p = scripts_prefix();
    assert forall|i: int| 0 <= i < name.len() implies name[i] != '/' by {
        if i > 0 {
            assert(crate::registry::is_name_char(name[i]));
        }
    }
    let u1 = p + name;
    assert(u1.subrange(0, p.len() as int) =~= p);
    let r1 = u1.subrange(p.len() as int, u1.len() as int);
    assert(r1 =~= name);
    lemma_first_slash_none(name, 0);
    assert(name.subrange(0, name.len() as int) =~= name);
    let u2 = p + name + source_suffix();
    assert(u2.subrange(0, p.len() as int) =~= p);
    let r2 = u2.subrange(p.len() as int, u2.len() as int);
    assert(r2 =~= name + source_suffix());
    lemma_first_slash_at(r2, 0, name.len() as int);
    assert(r2.subrange(0, name.len() as int) =~= name);
    assert(r2.subrange(name.len() as int + 1, r2.len() as int) =~= "source"@);
}

/// Moving the picker's selection down and then up, or up and then down,
/// comes back to the same row.
pub proof fn law_picker_moves_undo_each_other(i: usize, len: nat)
    requires
        i < len,
        len <= usize::MAX,
    ensures
        previous_selection(next_selection(Some(i), len), len) == Some(i),
        next_selection(previous_selection(Some(i), len), len) == Some(i),
{
}

proof fn lemma_decimal_digits(n: nat)
    ensures
        decimal(n).len() >= 1,
        all_digits(decimal(n)),
        digits_value(decimal(n)) == n,
    decreases n,
{
    if n < 10 {
        let c = digit_char(n);
        assert(decimal(n) == seq![c]);
        assert(seq![c] == Seq::<char>::empty().push(c));
        lemma_digits_value_push(Seq::<char>::empty(), c);
    } else {
        lemma_decimal_digits(n / 10);
        let d = decimal(n / 10);
        let c = digit_char(n % 10);
        lemma_digits_value_push(d, c);
        assert forall|i: int| 0 <= i < d.push(c).len() implies is_ascii_digit(#[trigger] d.push(c)[i]) by {
            if i < d.len() {
                assert(d.push(c)[i] == d[i]);
            }
        }
    }
}

proof fn lemma_parse_decimal(n: nat)
    requires
        n <= u64::MAX,
    ensures
        parse_u64(decimal(n)) == Some(n as u64),
        trim(decimal(n)) == decimal(n),
{
    lemma_decimal_digits(n);
    let d = decimal(n);
    assert(is_ascii_digit(d[0]));
    assert(is_ascii_digit(d[d.len() - 1]));
    lemma_trim_identity(d);
}

proof fn lemma_trim_identity(s: Seq<char>)
    requires
        s.len() > 0,
        !is_ws(s[0]),
        !is_ws(s.last()),
    ensures
        trim(s) == s,
{
    assert(trim_start(s) == s);
    assert(trim_end(s) == s);
}

/// `decimal(k)` followed by one letter `u`, as the writer renders units.
proof fn lemma_number_with_unit(k: nat, u: char)
    requires
        k <= u64::MAX,
        'A' <= u <= 'Z' || 'a' <= u <= 'z',
    ensures
        ({
            let t = decimal(k).push(u);
            &&& trim(t) == t
            &&& parse_u64(t) is None
            &&& t.subrange(0, t.len() - 1) == decimal(k)
            &&& ascii_upper_seq(t) == decimal(k).push(ascii_upper(u))
            &&& t.len() >= 2
        }),
{
    lemma_decimal_digits(k);
    let d = decimal(k);
    let t = d.push(u);
    assert(is_ascii_digit(d[0]));
    assert(t[0] == d[0]);
    lemma_trim_identity(t);
    assert(!is_ascii_digit(t[t.len() - 1]));
    assert(t.subrange(0, t.len() - 1) =~= d);
    assert forall|i: int| 0 <= i < t.len() implies #[trigger] ascii_upper_seq(t)[i] == d.push(ascii_upper(u))[i] by {
        if i < d.len() {
            assert(is_ascii_digit(d[i]));
        }
    }
    assert(ascii_upper_seq(t) =~= d.push(ascii_upper(u)));
}

/// A byte count written into a configuration file reads back as the same
/// count.
pub proof fn law_file_size_text_reads_back(size: u64)
    ensures
        file_size_value(file_size_text(size as nat)) == Some(size as nat),
{
    reveal_strlit("MB");
    let n = size as nat;
    if n % mib() == 0 {
        let k = n / mib();
        lemma_decimal_digits(k);
        let d = decimal(k);
        let t = d + "MB"@;
        assert(t == d.push('M').push('B'));
        lemma_number_with_unit(k, 'M');
        let tm = d.push('M');
        lemma_decimal_digits(k);
        assert(is_ascii_digit(d[0]));
        assert(t[0] == d[0]);
        lemma_trim_identity(t);
        assert(!is_ascii_digit(t[t.len() - 1]));
        assert forall|i: int| 0 <= i < t.len() implies #[trigger] ascii_upper_seq(t)[i] == t[i] by {
            if i < d.len() {
                assert(is_ascii_digit(d[i]));
                assert(t[i] == d[i]);
            }
        }
        assert(ascii_upper_seq(t) =~= t);
        assert(t.subrange(t.len() - 2, t.len() as int) =~= seq!['M', 'B']);
        assert(!ends_with(t, seq!['G', 'B']));
        assert(t.subrange(0, t.len() - 2) =~= d);
        lemma_parse_decimal(k);
        assert(size_suffix(t) == Some((d, mib())));
        assert(t[0] != '+');
        assert(!all_digits(t)) by {
            assert(!is_ascii_digit(t[t.len() - 1]));
        }
        assert(parse_u64(t) is None);
        assert(trim(t) == t);
        assert(mib() == 1048576);
        assert(k * mib() == n) by (nonlinear_arith)
            requires
                k == n / 1048576,
                n % 1048576 == 0,
                mib() == 1048576;
    } else {
        lemma_parse_decimal(n);
        lemma_decimal_digits(n);
    }
}

proof fn lemma_unit_duration(k: nat, u: char, m: nat)
    requires
        k <= u64::MAX,
        u == 'd' || u == 'h' || u == 'm',
        m == (if u == 'd' { 86400nat } else if u == 'h' { 3600nat } else { 60nat }),
    ensures
        duration_value(decimal(k).push(u)) == Some(k * m),
{
    lemma_number_with_unit(k, u);
    lemma_parse_decimal(k);
    let t = decimal(k).push(u);
    let up = decimal(k).push(ascii_upper(u));
    assert(up.len() == t.len());
    assert(up.subrange(0, up.len() - 1) =~= decimal(k));
    lemma_decimal_digits(k);
    assert(is_ascii_digit(up[up.len() - 2]));
    assert(!ends_with(up, seq!['M', 'S'])) by {
        if ends_with(up, seq!['M', 'S']) {
            assert(up.subrange(up.len() - 2, up.len() as int)[0] == up[up.len() - 2]);
        }
    }
    assert(up.subrange(up.len() - 1, up.len() as int) =~= seq![ascii_upper(u)]);
    assert(ascii_upper('d') == 'D');
    assert(ascii_upper('h') == 'H');
    assert(ascii_upper('m') == 'M');
    assert(t[0] != '+') by {
        assert(t[0] == decimal(k)[0]);
    }
    let last = up.subrange(up.len() - 1, up.len() as int);
    assert(last[0] == ascii_upper(u));
    assert(!ends_with(up, seq!['S'])) by {
        if ends_with(up, seq!['S']) {
            assert(last == seq!['S']);
            assert(last[0] == 'S');
        }
    }
    if u == 'd' {
        assert(!ends_with(up, seq!['M'])) by {
            if ends_with(up, seq!['M']) {
                assert(last == seq!['M']);
                assert(last[0] == 'M');
            }
        }
        assert(!ends_with(up, seq!['H'])) by {
            if ends_with(up, seq!['H']) {
                assert(last == seq!['H']);
                assert(last[0] == 'H');
            }
        }
        assert(ends_with(up, seq!['D']));
        assert(duration_suffix(up) == Some((decimal(k), 86400nat)));
    } else if u == 'h' {
        assert(!ends_with(up, seq!['M'])) by {
            if ends_with(up, seq!['M']) {
                assert(last == seq!['M']);
                assert(last[0] == 'M');
            }
        }
        assert(ends_with(up, seq!['H']));
        assert(duration_suffix(up) == Some((decimal(k), 3600nat)));
    } else {
        assert(ends_with(up, seq!['M']));
        assert(duration_suffix(up) == Some((decimal(k), 60nat)));
    }
}

/// A number of seconds written into a configuration file reads back as
/// the same number.
pub proof fn law_duration_text_reads_back(secs: u64)
    ensures
        duration_value(duration_text(secs as nat)) == Some(secs as nat),
{
    reveal_strlit("d");
    reveal_strlit("h");
    reveal_strlit("m");
    let n = secs as nat;
    if n != 0 && n % 86400 == 0 {
        assert(decimal(n / 86400) + "d"@ =~= decimal(n / 86400).push('d'));
        lemma_unit_duration(n / 86400, 'd', 86400);
    } else if n != 0 && n % 3600 == 0 {
        assert(decimal(n / 3600) + "h"@ =~= decimal(n / 3600).push('h'));
        lemma_unit_duration(n / 3600, 'h', 3600);
    } else if n != 0 && n % 60 == 0 {
        assert(decimal(n / 60) + "m"@ =~= decimal(n / 60).push('m'));
        lemma_unit_duration(n / 60, 'm', 60);
    } else {
        lemma_parse_decimal(n);
        lemma_decimal_digits(n);
    }
}

proof fn lemma_hex_tool_chars(v: nat, n: nat)
    ensures
        hex_fixed(v, n).len() == n,
        forall|i: int| 0 <= i < n ==> is_tool_char(#[trigger] hex_fixed(v, n)[i]),
    decreases n,
{
    if n > 0 {
        lemma_hex_tool_chars(v / 16, (n - 1) as nat);
        let d = v % 16;
        assert(is_tool_char(hex_digit(d)));
        let h = hex_fixed(v, n);
        assert forall|i: int| 0 <= i < n implies is_tool_char(#[trigger] h[i]) by {
            if i < n - 1 {
                assert(h[i] == hex_fixed(v / 16, (n - 1) as nat)[i]);
            }
        }
    }
}

/// Automatic tool names are safe identifiers: a letter first, then only
/// lowercase ASCII letters, digits, `_` and `-`.
pub proof fn law_auto_tool_names_are_safe(display: Seq<char>, path: Seq<char>, stem: Option<Seq<char>>)
    ensures
        auto_tool_name(display, path, stem).len() > 0,
        is_ascii_alpha(auto_tool_name(display, path, stem)[0]),
        forall|i: int| 0 <= i < auto_tool_name(display, path, stem).len() ==> is_tool_char(#[trigger] auto_tool_name(display, path, stem)[i]),
{
    law_sanitized_names_are_well_formed(display);
    if stem is Some {
        law_sanitized_names_are_well_formed(stem->0);
    }
    let base = if sanitize(display).len() > 0 {
        sanitize(display)
    } else if stem is Some && sanitize(stem->0).len() > 0 {
        sanitize(stem->0)
    } else {
        skill_word()
    };
    assert(base.len() > 0 && is_ascii_alpha(base[0]));
    assert(forall|i: int| 0 <= i < base.len() ==> is_tool_char(#[trigger] base[i]));
    let h = stable_hash(path);
    lemma_hex_tool_chars((fnv1(vstd::utf8::encode_utf8(path)) as nat) % 0x1_0000_0000, 8);
    let r = base.push('_') + h;
    assert(r == auto_tool_name(display, path, stem));
    assert forall|i: int| 0 <= i < r.len() implies is_tool_char(#[trigger] r[i]) by {
        if i < base.len() {
            assert(r[i] == base[i]);
        } else if i > base.len() {
            assert(r[i] == h[i - base.len() - 1]);
        }
    }
    assert(r[0] == base[0]);
}

/// Resolving scan paths a second time changes nothing once the base and
/// home directories are absolute.
pub proof fn law_resolved_scan_paths_are_stable(base: Seq<char>, home: Seq<char>, p: Seq<char>)
    requires
        is_absolute(base),
        is_absolute(home),
    ensures
        is_absolute(resolve_scan(base, home, p)),
        resolve_scan(base, home, resolve_scan(base, home, p)) == resolve_scan(base, home, p),
{
    let r = resolve_scan(base, home, p);
    let rest = p.subrange(2, p.len() as int);
    if p != tilde() && (starts_with(p, seq!['~', '/']) || starts_with(p, seq!['~', '\\'])) {
        if !is_absolute(rest) {
            if home.last() == '/' {
                assert((home + rest)[0] == home[0]);
            } else {
                assert((home.push('/') + rest)[0] == home[0]);
            }
        }
    } else if p != tilde() && !is_absolute(p) {
        if base.last() == '/' {
            assert((base + p)[0] == base[0]);
        } else {
            assert((base.push('/') + p)[0] == base[0]);
        }
    }
    assert(r[0] == '/');
    assert(r != tilde()) by {
        if r == tilde() {
            assert(r[0] == '~');
        }
    }
    assert(!starts_with(r, seq!['~', '/'])) by {
        if starts_with(r, seq!['~', '/']) {
            assert(r.subrange(0, 2)[0] == r[0]);
        }
    }
    assert(!starts_with(r, seq!['~', '\\'])) by {
        if starts_with(r, seq!['~', '\\']) {
            assert(r.subrange(0, 2)[0] == r[0]);
        }
    }
}

proof fn lemma_tag_gain_range(t: Seq<Seq<char>>, r: Seq<char>)
    ensures
        0 <= tag_gain(t, r) <= REQUESTED_TAG_BONUS,
{
}

proof fn lemma_tags_score_range(t: Seq<Seq<char>>, r: Seq<Seq<char>>)
    ensures
        0 <= tags_score(t, r).0 <= i64::MAX,
        0 <= tags_score(t, r).1,
    decreases r.len(),
{
    if r.len() > 0 {
        lemma_tags_score_range(t, r.drop_last());
        lemma_tag_gain_range(t, r.last());
    }
}

/// One requested tag earning the full bonus makes the tag score at least
/// that bonus and counts as a tag match.
proof fn lemma_tags_score_from_bonus(t: Seq<Seq<char>>, r: Seq<Seq<char>>, i: int)
    requires
        0 <= i < r.len(),
        tag_gain(t, r[i]) == REQUESTED_TAG_BONUS,
    ensures
        tags_score(t, r).0 >= REQUESTED_TAG_BONUS,
        tags_score(t, r).1 >= 1,
    decreases r.len(),
{
    lemma_tags_score_range(t, r.drop_last());
    lemma_tag_gain_range(t, r.last());
    if i == r.len() - 1 {
        assert(r.last() == r[i]);
    } else {
        assert(r.drop_last()[i] == r[i]);
        lemma_tags_score_from_bonus(t, r.drop_last(), i);
    }
}

proof fn lemma_sat_monotone(a: int, b: int)
    requires
        a <= b,
    ensures
        sat(a) <= sat(b),
{
}

/// A requested tag that equals one of a script's tags, ignoring ASCII case
/// and the requested tag's surrounding blanks, makes the script a match:
/// whatever the query, the script gets a score, and that score is at
/// least its query score plus the full tag bonus (capped to 64 bits).
pub proof fn law_requested_tag_makes_a_match(
    s: ScriptView,
    q: Option<Seq<char>>,
    terms: Seq<Seq<char>>,
    tags: Seq<Seq<char>>,
    i: int,
    j: int,
)
    requires
        0 <= i < tags.len(),
        0 <= j < s.tags.len(),
        eq_ignore_ascii_case(s.tags[j], trim(tags[i])),
    ensures
        tags_score(s.tags, tags).0 >= REQUESTED_TAG_BONUS,
        script_score(s, q, terms, tags) matches Some(v) && v >= sat(query_score(s, q, terms).0 + REQUESTED_TAG_BONUS),
{
    assert(eq_ignore_ascii_case(s.tags[j], trim(tags[i])));
    assert(tag_gain(s.tags, tags[i]) == REQUESTED_TAG_BONUS);
    lemma_tags_score_from_bonus(s.tags, tags, i);
    lemma_sat_monotone(
        query_score(s, q, terms).0 + REQUESTED_TAG_BONUS,
        query_score(s, q, terms).0 + tags_score(s.tags, tags).0,
    );
}

proof fn lemma_candidates_include(
    v: Seq<ScriptView>,
    q: Option<Seq<char>>,
    terms: Seq<Seq<char>>,
    tags: Seq<Seq<char>>,
    n: int,
    k: int,
)
    requires
        0 <= k < n <= v.len(),
        script_score(v[k], q, terms, tags) is Some,
    ensures
        exists|m: int| 0 <= m < candidates(v, q, terms, tags, n).len()
            && #[trigger] candidates(v, q, terms, tags, n)[m] == (k, script_score(v[k], q, terms, tags)->0),
    decreases n,
{
    let prev = candidates(v, q, terms, tags, n - 1);
    if k == n - 1 {
        let m = prev.len() as int;
        assert(candidates(v, q, terms, tags, n)[m] == (k, script_score(v[k], q, terms, tags)->0));
    } else {
        lemma_candidates_include(v, q, terms, tags, n - 1, k);
        let m = choose|m: int| 0 <= m < prev.len() && #[trigger] prev[m] == (k, script_score(v[k], q, terms, tags)->0);
        assert(candidates(v, q, terms, tags, n)[m] == prev[m]);
    }
}

/// A search with requested tags and no query finds every script that
/// carries one of them (equal up to ASCII case, the requested tag trimmed),
/// with a score of at least the full tag bonus.
pub proof fn law_tags_only_search_finds_tagged_scripts(
    v: Seq<ScriptView>,
    tags: Seq<Seq<char>>,
    k: int,
    i: int,
    j: int,
)
    requires
        0 <= k < v.len(),
        0 <= i < tags.len(),
        0 <= j < v[k].tags.len(),
        eq_ignore_ascii_case(v[k].tags[j], trim(tags[i])),
    ensures
        exists|m: int| 0 <= m < search_candidates(v, None, tags).len()
            && (#[trigger] search_candidates(v, None, tags)[m]).0 == k
            && search_candidates(v, None, tags)[m].1 >= REQUESTED_TAG_BONUS,
{
    let terms = Seq::<Seq<char>>::empty();
    law_requested_tag_makes_a_match(v[k], None, terms, tags, i, j);
    lemma_candidates_include(v, None, terms, tags, v.len() as int, k);
    let c = search_candidates(v, None, tags);
    assert(c == candidates(v, None, terms, tags, v.len() as int));
    let m = choose|m: int| 0 <= m < c.len() && #[trigger] c[m] == (k, script_score(v[k], None, terms, tags)->0);
    assert(c[m].0 == k);
}


proof fn lemma_positions_member(v: Seq<SkillView>, p: spec_fn(SkillView) -> bool, n: int, i: int)
    requires
        0 <= n <= v.len(),
    ensures
        positions(v, p, n).contains(i) <==> (0 <= i < n && p(v[i])),
    decreases n,
{
    if n > 0 {
        lemma_positions_member(v, p, n - 1, i);
        let r = positions(v, p, n - 1);
        if p(v[n - 1]) {
            if r.push(n - 1).contains(i) {
                let k = choose|k: int| 0 <= k < r.push(n - 1).len() && #[trigger] r.push(n - 1)[k] == i;
                if k < r.len() {
                    assert(r[k] == i);
                }
            }
            if r.contains(i) {
                let k = choose|k: int| 0 <= k < r.len() && #[trigger] r[k] == i;
                assert(r.push(n - 1)[k] == i);
            }
            if i == n - 1 {
                assert(r.push(n - 1)[r.len() as int] == i);
            }
        }
    }
}

/// A text search over the skill index returns exactly the skills whose
/// name, description or some tag contains the query, all compared in
/// lowercase: a skill is among the results if and only if one of them
/// does.
pub proof fn law_text_search_covers_name_description_and_tags(v: Seq<SkillView>, q: Seq<char>, i: int)
    requires
        0 <= i < v.len(),
    ensures
        positions(v, |s: SkillView| text_match(s, str_lowercase(q)), v.len() as int).contains(i) <==> (
            contains_sub(str_lowercase(v[i].name), str_lowercase(q))
            || contains_sub(str_lowercase(v[i].description), str_lowercase(q))
            || exists|k: int| 0 <= k < v[i].tags.len() && contains_sub(str_lowercase(#[trigger] v[i].tags[k]), str_lowercase(q))
        ),
{
    lemma_positions_member(v, |s: SkillView| text_match(s, str_lowercase(q)), v.len() as int, i);
}


/// The picker's search text of a skill holds, in this order and each on a
/// line of its own, the name from position 0, the description right after
/// the first line break, the tags text after the second and the path after
/// the third: the offsets at which match positions are split into name,
/// description and tag highlights.
pub proof fn law_search_text_lines_up_with_highlights(s: SkillView, tags_text: Seq<char>)
    ensures
        ({
            let h = haystack_of(s, tags_text);
            let n = s.name.len() as int;
            let d = s.description.len() as int;
            let t = tags_text.len() as int;
            &&& h.len() == n + d + t + s.path.len() + 3
            &&& h.subrange(0, n) == s.name
            &&& h[n] == '\n'
            &&& h.subrange(n + 1, n + 1 + d) == s.description
            &&& h[n + 1 + d] == '\n'
            &&& h.subrange(n + d + 2, n + d + 2 + t) == tags_text
            &&& h[n + d + 2 + t] == '\n'
            &&& h.subrange(n + d + t + 3, h.len() as int) == s.path
        }),
{
    reveal_strlit("\n");
    let h = haystack_of(s, tags_text);
    let n = s.name.len() as int;
    let d = s.description.len() as int;
    let t = tags_text.len() as int;
    assert(h =~= s.name + seq!['\n'] + s.description + seq!['\n'] + tags_text + seq!['\n'] + s.path);
    assert(h.subrange(0, n) =~= s.name);
    assert(h.subrange(n + 1, n + 1 + d) =~= s.description);
    assert(h.subrange(n + d + 2, n + d + 2 + t) =~= tags_text);
    assert(h.subrange(n + d + t + 3, h.len() as int) =~= s.path);
}


/// The scan paths a lone configuration resolves to: its own, with the
/// global `skills` directory put first when it is not among them.
pub open spec fn with_skills_first(global_dir: Seq<char>, paths: Seq<Seq<char>>) -> Seq<Seq<char>> {
    if paths.contains(join(global_dir, "skills"@)) {
        paths
    } else {
        seq![join(global_dir, "skills"@)] + paths
    }
}

/// When only one configuration file is present, resolving keeps its
/// settings: every field is that configuration's, except that the global
/// `skills` directory is put first among the scan paths when missing.
pub proof fn law_lone_configuration_is_kept(global_dir: Seq<char>, c: ConfigView)
    ensures
        ({
            let g = resolved_config(global_dir, Some(c), None);
            let l = resolved_config(global_dir, None, Some(c));
            &&& g.scan_paths == with_skills_first(global_dir, c.scan_paths)
            &&& l.scan_paths == with_skills_first(global_dir, c.scan_paths)
            &&& g.ignore_patterns == c.ignore_patterns && l.ignore_patterns == c.ignore_patterns
            &&& g.max_file_size == c.max_file_size && l.max_file_size == c.max_file_size
            &&& g.search_limit == c.search_limit && l.search_limit == c.search_limit
            &&& g.cache_ttl_seconds == c.cache_ttl_seconds && l.cache_ttl_seconds == c.cache_ttl_seconds
            &&& g.copy_to_clipboard_on_pick == c.copy_to_clipboard_on_pick
            &&& l.copy_to_clipboard_on_pick == c.copy_to_clipboard_on_pick
            &&& g.language == c.language && l.language == c.language
        }),
{
}


/// `decimal(k)` followed by a unit of one or two ASCII letters reads as
/// `k` times the multiplier the upper-cased unit selects.
proof fn lemma_size_with_unit(k: nat, unit: Seq<char>, m: nat)
    requires
        k <= u64::MAX,
        1 <= unit.len() <= 2,
        forall|i: int| 0 <= i < unit.len() ==> ('A' <= #[trigger] unit[i] <= 'Z' || 'a' <= unit[i] <= 'z'),
        size_suffix(decimal(k) + ascii_upper_seq(unit)) == Some((decimal(k), m)),
    ensures
        file_size_value(decimal(k) + unit) == Some(k * m),
{
    lemma_decimal_digits(k);
    lemma_parse_decimal(k);
    let d = decimal(k);
    let t = d + unit;
    assert(t[0] == d[0]);
    assert(is_ascii_digit(d[0]));
    assert(t[t.len() - 1] == unit[unit.len() - 1]);
    lemma_trim_identity(t);
    assert(!is_ascii_digit(t[t.len() - 1]));
    assert(!all_digits(t));
    assert(t[0] != '+');
    assert(parse_u64(t) is None);
    assert forall|i: int| 0 <= i < t.len() implies #[trigger] ascii_upper_seq(t)[i] == (d + ascii_upper_seq(unit))[i] by {
        if i < d.len() {
            assert(is_ascii_digit(d[i]));
            assert(t[i] == d[i]);
        } else {
            assert(t[i] == unit[i - d.len()]);
        }
    }
    assert(ascii_upper_seq(t) =~= d + ascii_upper_seq(unit));
}

/// The upper-cased number-and-unit text: the unit's last letter, or its
/// two letters, at the end of `decimal(k)`.
proof fn lemma_unit_ends(k: nat, up: Seq<char>)
    requires
        1 <= up.len() <= 2,
    ensures
        ({
            let t = decimal(k) + up;
            &&& t.subrange(0, t.len() - up.len()) == decimal(k)
            &&& t.subrange(t.len() - up.len(), t.len() as int) == up
            &&& up.len() == 1 ==> t.len() >= 2 && is_ascii_digit(t[t.len() - 2])
        }),
{
    lemma_decimal_digits(k);
    let t = decimal(k) + up;
    assert(t.subrange(0, t.len() - up.len()) =~= decimal(k));
    assert(t.subrange(t.len() - up.len(), t.len() as int) =~= up);
    if up.len() == 1 {
        assert(t[t.len() - 2] == decimal(k)[decimal(k).len() - 1]);
    }
}

/// Size units are binary multiples, whatever their spelling: a number
/// followed by `K`/`KB`, `M`/`MB` or `G`/`GB`, in upper or lower case,
/// stands for that many KiB, MiB or GiB.
pub proof fn law_size_units_are_binary(n: u64)
    ensures
        file_size_value(decimal(n as nat) + seq!['G', 'B']) == Some(n as nat * 1073741824),
        file_size_value(decimal(n as nat) + seq!['g', 'b']) == Some(n as nat * 1073741824),
        file_size_value(decimal(n as nat) + seq!['G']) == Some(n as nat * 1073741824),
        file_size_value(decimal(n as nat) + seq!['g']) == Some(n as nat * 1073741824),
        file_size_value(decimal(n as nat) + seq!['M', 'B']) == Some(n as nat * 1048576),
        file_size_value(decimal(n as nat) + seq!['m', 'b']) == Some(n as nat * 1048576),
        file_size_value(decimal(n as nat) + seq!['M']) == Some(n as nat * 1048576),
        file_size_value(decimal(n as nat) + seq!['m']) == Some(n as nat * 1048576),
        file_size_value(decimal(n as nat) + seq!['K', 'B']) == Some(n as nat * 1024),
        file_size_value(decimal(n as nat) + seq!['k', 'b']) == Some(n as nat * 1024),
        file_size_value(decimal(n as nat) + seq!['K']) == Some(n as nat * 1024),
        file_size_value(decimal(n as nat) + seq!['k']) == Some(n as nat * 1024),
{
    let k = n as nat;
    let d = decimal(k);
    lemma_decimal_digits(k);
    let gb = seq!['G', 'B'];
    let mb = seq!['M', 'B'];
    let kb = seq!['K', 'B'];
    let g1 = seq!['G'];
    let m1 = seq!['M'];
    let k1 = seq!['K'];
    assert(ascii_upper_seq(gb) =~= gb);
    assert(ascii_upper_seq(seq!['g', 'b']) =~= gb);
    assert(ascii_upper_seq(g1) =~= g1);
    assert(ascii_upper_seq(seq!['g']) =~= g1);
    assert(ascii_upper_seq(mb) =~= mb);
    assert(ascii_upper_seq(seq!['m', 'b']) =~= mb);
    assert(ascii_upper_seq(m1) =~= m1);
    assert(ascii_upper_seq(seq!['m']) =~= m1);
    assert(ascii_upper_seq(kb) =~= kb);
    assert(ascii_upper_seq(seq!['k', 'b']) =~= kb);
    assert(ascii_upper_seq(k1) =~= k1);
    assert(ascii_upper_seq(seq!['k']) =~= k1);
    lemma_unit_ends(k, gb);
    lemma_unit_ends(k, mb);
    lemma_unit_ends(k, kb);
    lemma_unit_ends(k, g1);
    lemma_unit_ends(k, m1);
    lemma_unit_ends(k, k1);
    assert(size_suffix(d + gb) == Some((d, 1073741824nat)));
    assert(size_suffix(d + mb) == Some((d, 1048576nat)));
    assert(size_suffix(d + kb) == Some((d, 1024nat)));
    let tg = d + g1;
    assert(!ends_with(tg, gb) && !ends_with(tg, mb) && !ends_with(tg, kb)) by {
        assert(tg.subrange(tg.len() - 2, tg.len() as int)[0] == tg[tg.len() - 2]);
    }
    assert(size_suffix(d + g1) == Some((d, 1073741824nat)));
    let tm = d + m1;
    assert(!ends_with(tm, gb) && !ends_with(tm, mb) && !ends_with(tm, kb)) by {
        assert(tm.subrange(tm.len() - 2, tm.len() as int)[0] == tm[tm.len() - 2]);
    }
    assert(size_suffix(d + m1) == Some((d, 1048576nat)));
    let tk = d + k1;
    assert(!ends_with(tk, gb) && !ends_with(tk, mb) && !ends_with(tk, kb)) by {
        assert(tk.subrange(tk.len() - 2, tk.len() as int)[0] == tk[tk.len() - 2]);
    }
    assert(size_suffix(d + k1) == Some((d, 1024nat)));
    lemma_size_with_unit(k, gb, 1073741824);
    lemma_size_with_unit(k, seq!['g', 'b'], 1073741824);
    lemma_size_with_unit(k, g1, 1073741824);
    lemma_size_with_unit(k, seq!['g'], 1073741824);
    lemma_size_with_unit(k, mb, 1048576);
    lemma_size_with_unit(k, seq!['m', 'b'], 1048576);
    lemma_size_with_unit(k, m1, 1048576);
    lemma_size_with_unit(k, seq!['m'], 1048576);
    lemma_size_with_unit(k, kb, 1024);
    lemma_size_with_unit(k, seq!['k', 'b'], 1024);
    lemma_size_with_unit(k, k1, 1024);
    lemma_size_with_unit(k, seq!['k'], 1024);
}

} // verus!
