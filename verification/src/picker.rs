//! The interactive picker's state: the skills on offer, the fuzzy filter
//! typed so far, the highlighted match positions and the selection, and
//! how key presses and mouse clicks change them.
use vstd::prelude::*;
use fuzzy_matcher::FuzzyMatcher;
use crate::config::{copy_string, strings_view};
use crate::order::{score_sorted, sort_by_score_desc};
use crate::skill::{Skill, SkillView};
use crate::text::{chars_of, push_str, str_eq};

verus! {

/// A rectangle of the terminal, in cells.
pub struct Area {
    pub x: u16,
    pub y: u16,
    pub width: u16,
    pub height: u16,
}

/// Bottom edge of an area (exclusive), saturating like the terminal layout.
pub open spec fn area_bottom(a: Area) -> int {
    if a.y + a.height > u16::MAX {
        u16::MAX as int
    } else {
        a.y + a.height
    }
}

/// The row clicked at `mouse_y` in a bordered table with a header line
/// that shows the rows from `offset` on: `None` outside the data rows or
/// past the last item.
pub open spec fn clicked_index(mouse_y: u16, table: Area, offset: usize, item_count: usize) -> Option<int> {
    if mouse_y < table.y || mouse_y >= area_bottom(table) || mouse_y < table.y + 2 {
        None
    } else {
        let i = offset + (mouse_y - table.y - 2);
        if i < item_count {
            Some(i)
        } else {
            None
        }
    }
}

pub fn calculate_clicked_index(mouse_y: u16, table_rect: Area, offset: usize, item_count: usize) -> (r: Option<usize>)
    ensures
        match r {
            Some(i) => clicked_index(mouse_y, table_rect, offset, item_count) == Some(i as int),
            None => clicked_index(mouse_y, table_rect, offset, item_count) is None,
        },
{
    let top = table_rect.y as u32;
    let bottom: u32 = if top + table_rect.height as u32 > 65535 {
        65535
    } else {
        top + table_rect.height as u32
    };
    let y = mouse_y as u32;
    if y < top || y >= bottom {
        return None;
    }
    if y < top + 2 {
        return None;
    }
    let row = (y - top - 2) as usize;
    if offset >= item_count || row >= item_count - offset {
        return None;
    }
    Some(offset + row)
}

/// Positions of matched scalars, split by the part of the search text
/// they fall in and counted from the start of that part.
pub struct MatchHighlights {
    pub name: Vec<usize>,
    pub description: Vec<usize>,
    pub tags: Vec<usize>,
}

/// One row of the filtered list.
pub struct FilteredSkill {
    pub item_index: usize,
    pub score: i64,
    pub highlights: MatchHighlights,
}

/// The text the filter matches against and where each part of it lies.
pub struct SearchProjection {
    pub haystack: String,
    pub name_len: usize,
    pub description_len: usize,
    pub tags_len: usize,
}

/// A skill with its display texts.
pub struct SkillViewModel {
    pub skill: Skill,
    pub tags_text: String,
    pub projection: SearchProjection,
}

/// The tags as shown: joined by `, `, or `-` when there are none.
pub open spec fn tags_display(tags: Seq<Seq<char>>) -> Seq<char>
    decreases tags.len(),
{
    if tags.len() == 0 {
        "-"@
    } else if tags.len() == 1 {
        tags[0]
    } else {
        tags_display(tags.drop_last()) + ", "@ + tags.last()
    }
}

fn tags_display_exec(tags: &Vec<String>) -> (r: String)
    ensures
        r@ == tags_display(strings_view(tags@)),
{
    let ghost tv = strings_view(tags@);
    if tags.len() == 0 {
        return "-".to_owned();
    }
    let mut s = copy_string(&tags[0]);
    let mut i: usize = 1;
    assert(tv.take(1).len() == 1);
    while i < tags.len()
        invariant
            1 <= i <= tags.len(),
            tv == strings_view(tags@),
            s@ == tags_display(tv.take(i as int)),
        decreases tags.len() - i,
    {
        proof {
            assert(tv.take(i + 1).drop_last() =~= tv.take(i as int));
            assert(tv.take(i + 1).last() == tv[i as int]);
        }
        push_str(&mut s, ", ");
        push_str(&mut s, tags[i].as_str());
        i += 1;
    }
    assert(tv.take(tags@.len() as int) =~= tv);
    s
}

/// The search text of a skill: name, description, tags text and path on
/// separate lines.
pub open spec fn haystack_of(s: SkillView, tags_text: Seq<char>) -> Seq<char> {
    s.name + "\n"@ + s.description + "\n"@ + tags_text + "\n"@ + s.path
}

pub fn build_search_projection(skill: &Skill, tags_text: &str) -> (p: SearchProjection)
    ensures
        p.haystack@ == haystack_of(skill@, tags_text@),
        p.name_len == skill@.name.len(),
        p.description_len == skill@.description.len(),
        p.tags_len == tags_text@.len(),
{
    let mut h = copy_string(&skill.name);
    push_str(&mut h, "\n");
    push_str(&mut h, skill.description.as_str());
    push_str(&mut h, "\n");
    push_str(&mut h, tags_text);
    push_str(&mut h, "\n");
    push_str(&mut h, skill.path.as_str());
    let n = chars_of(skill.name.as_str());
    let d = chars_of(skill.description.as_str());
    let t = chars_of(tags_text);
    SearchProjection { haystack: h, name_len: n.len(), description_len: d.len(), tags_len: t.len() }
}

impl SkillViewModel {
    pub fn new(skill: Skill) -> (vm: SkillViewModel)
        ensures
            vm.skill == skill,
            vm.tags_text@ == tags_display(skill@.tags),
            vm.projection.haystack@ == haystack_of(skill@, vm.tags_text@),
            vm.projection.name_len == skill@.name.len(),
            vm.projection.description_len == skill@.description.len(),
            vm.projection.tags_len == vm.tags_text@.len(),
    {
        let tags_text = tags_display_exec(&skill.tags);
        let projection = build_search_projection(&skill, tags_text.as_str());
        SkillViewModel { skill, tags_text, projection }
    }
}

/// The highlight lists made from match positions `idx`: positions in the
/// name part, in the description part (after the name and a newline), and
/// in the tags part, each relative to its part; other positions dropped.
pub open spec fn split_spec(idx: Seq<usize>, name_len: int, desc_len: int, tags_len: int) -> (Seq<int>, Seq<int>, Seq<int>)
    decreases idx.len(),
{
    if idx.len() == 0 {
        (Seq::empty(), Seq::empty(), Seq::empty())
    } else {
        let (a, b, c) = split_spec(idx.drop_last(), name_len, desc_len, tags_len);
        let i = idx.last() as int;
        let ds = name_len + 1;
        let ts = ds + desc_len + 1;
        if i < name_len {
            (a.push(i), b, c)
        } else if ds <= i < ds + desc_len {
            (a, b.push(i - ds), c)
        } else if ts <= i < ts + tags_len {
            (a, b, c.push(i - ts))
        } else {
            (a, b, c)
        }
    }
}

pub open spec fn ints(v: Seq<usize>) -> Seq<int> {
    v.map_values(|x: usize| x as int)
}

pub fn split_match_indices(indices: &Vec<usize>, projection: &SearchProjection) -> (h: MatchHighlights)
    ensures
        (ints(h.name@), ints(h.description@), ints(h.tags@)) == split_spec(
            indices@,
            projection.name_len as int,
            projection.description_len as int,
            projection.tags_len as int,
        ),
{
    let nl = projection.name_len as u128;
    let ds = nl + 1;
    let dl = projection.description_len as u128;
    let ts = ds + dl + 1;
    let tl = projection.tags_len as u128;
    let mut h = MatchHighlights { name: Vec::new(), description: Vec::new(), tags: Vec::new() };
    let mut k: usize = 0;
    while k < indices.len()
        invariant
            k <= indices.len(),
            nl == projection.name_len,
            ds == nl + 1,
            dl == projection.description_len,
            ts == ds + dl + 1,
            tl == projection.tags_len,
            (ints(h.name@), ints(h.description@), ints(h.tags@)) == split_spec(
                indices@.take(k as int),
                projection.name_len as int,
                projection.description_len as int,
                projection.tags_len as int,
            ),
        decreases indices.len() - k,
    {
        proof {
            assert(indices@.take(k + 1).drop_last() =~= indices@.take(k as int));
            assert(indices@.take(k + 1).last() == indices@[k as int]);
        }
        let i = indices[k];
        let iw = i as u128;
        let ghost b0 = (ints(h.name@), ints(h.description@), ints(h.tags@));
        if iw < nl {
            h.name.push(i);
            assert(ints(h.name@) =~= b0.0.push(i as int));
        } else if ds <= iw && iw < ds + dl {
            h.description.push((iw - ds) as usize);
            assert(ints(h.description@) =~= b0.1.push(i - ds));
        } else if ts <= iw && iw < ts + tl {
            h.tags.push((iw - ts) as usize);
            assert(ints(h.tags@) =~= b0.2.push(i - ts));
        }
        k += 1;
    }
    assert(indices@.take(indices@.len() as int) =~= indices@);
    h
}

/// What the `fuzzy-matcher` crate's default skim matcher gives for
/// `pattern` against `choice`: the score and the matched scalar positions.
pub uninterp spec fn matcher_indices(choice: Seq<char>, pattern: Seq<char>) -> Option<(i64, Seq<usize>)>;

/// `SkimMatcherV2::default().fuzzy_indices(choice, pattern)`.
#[verifier::external_body]
fn fuzzy_indices(choice: &str, pattern: &str) -> (r: Option<(i64, Vec<usize>)>)
    ensures
        match r {
            Some((s, v)) => matcher_indices(choice@, pattern@) == Some((s, v@)),
            None => matcher_indices(choice@, pattern@) is None,
        },
{
    fuzzy_matcher::skim::SkimMatcherV2::default().fuzzy_indices(choice, pattern)
}

/// The picker: the skills on offer, the rows shown for the current
/// filter, and the selected row.
pub struct PickerState {
    pub items: Vec<SkillViewModel>,
    pub filtered_items: Vec<FilteredSkill>,
    pub selected: Option<usize>,
    pub search_input: String,
    pub last_search: String,
}

/// The matching items for a non-empty filter, in item order, with scores.
pub open spec fn filter_candidates(haystacks: Seq<Seq<char>>, pattern: Seq<char>, k: int) -> Seq<(usize, i64)>
    decreases k,
{
    if k <= 0 {
        Seq::empty()
    } else {
        let r = filter_candidates(haystacks, pattern, k - 1);
        match matcher_indices(haystacks[k - 1], pattern) {
            Some((s, _)) => r.push(((k - 1) as usize, s)),
            None => r,
        }
    }
}

pub open spec fn haystacks(items: Seq<SkillViewModel>) -> Seq<Seq<char>> {
    items.map_values(|vm: SkillViewModel| vm.projection.haystack@)
}

/// The positions a row highlights, in its name, description and tags.
pub open spec fn highlights_view(h: MatchHighlights) -> (Seq<int>, Seq<int>, Seq<int>) {
    (ints(h.name@), ints(h.description@), ints(h.tags@))
}

/// No highlighted position at all.
pub open spec fn no_highlights() -> (Seq<int>, Seq<int>, Seq<int>) {
    (Seq::empty(), Seq::empty(), Seq::empty())
}

/// What a row for `vm` highlights under the filter `pattern`: the matched
/// positions of its search text, split into its parts (see
/// [`split_spec`]); nothing when the matcher does not match.
pub open spec fn row_highlights(vm: SkillViewModel, pattern: Seq<char>) -> (Seq<int>, Seq<int>, Seq<int>) {
    match matcher_indices(vm.projection.haystack@, pattern) {
        Some((_, idx)) => split_spec(
            idx,
            vm.projection.name_len as int,
            vm.projection.description_len as int,
            vm.projection.tags_len as int,
        ),
        None => no_highlights(),
    }
}

pub open spec fn rows_view(rows: Seq<FilteredSkill>) -> Seq<(usize, i64)> {
    rows.map_values(|r: FilteredSkill| (r.item_index, r.score))
}

/// Every item, in order, with score 0: the rows shown without a filter.
pub open spec fn all_rows(n: int) -> Seq<(usize, i64)> {
    Seq::new(n as nat, |i: int| (i as usize, 0i64))
}

fn unfiltered_rows(n: usize) -> (rows: Vec<FilteredSkill>)
    ensures
        rows_view(rows@) == all_rows(n as int),
        forall|k: int| 0 <= k < rows@.len() ==> (#[trigger] rows@[k]).item_index < n,
        forall|k: int| 0 <= k < rows@.len() ==> highlights_view((#[trigger] rows@[k]).highlights) == no_highlights(),
{
    let mut rows: Vec<FilteredSkill> = Vec::new();
    let mut i: usize = 0;
    while i < n
        invariant
            i <= n,
            rows@.len() == i,
            forall|k: int| 0 <= k < rows@.len() ==> (#[trigger] rows@[k]).item_index == k && rows@[k].score == 0
                && highlights_view(rows@[k].highlights) == no_highlights(),
        decreases n - i,
    {
        rows.push(FilteredSkill {
            item_index: i,
            score: 0,
            highlights: MatchHighlights { name: Vec::new(), description: Vec::new(), tags: Vec::new() },
        });
        i += 1;
    }
    assert(rows_view(rows@) =~= all_rows(n as int));
    rows
}

/// A key as the picker sees it.
pub enum PickerKey {
    Char(char),
    Backspace,
    Enter,
    Esc,
    Up,
    Down,
    Other,
}

/// The selection after moving down through `len` rows, wrapping to the top.
pub open spec fn next_selection(selected: Option<usize>, len: nat) -> Option<usize> {
    if len == 0 {
        selected
    } else {
        match selected {
            Some(i) => if i + 1 < len {
                Some((i + 1) as usize)
            } else {
                Some(0usize)
            },
            None => Some(0usize),
        }
    }
}

/// The selection after moving up through `len` rows, wrapping to the bottom.
pub open spec fn previous_selection(selected: Option<usize>, len: nat) -> Option<usize> {
    if len == 0 {
        selected
    } else {
        match selected {
            Some(i) => if i == 0 {
                Some((len - 1) as usize)
            } else {
                Some((i - 1) as usize)
            },
            None => Some((len - 1) as usize),
        }
    }
}

/// What refiltering gives: from the state `pre` with the filter text
/// `search`, the state `post`. The items stay and the filter text is
/// `search`. When `search` is what was last filtered, nothing else
/// changes. Otherwise `search` becomes the last filtered text; an empty one
/// shows every item, in order, highlighting nothing; a non-empty one shows
/// the items the fuzzy matcher accepts, best score first, equal scores in
/// item order, each highlighting the matched positions (see
/// [`row_highlights`]); and the first row, if any, is selected.
pub open spec fn filter_outcome(pre: PickerState, search: Seq<char>, post: PickerState) -> bool {
    &&& post.items == pre.items
    &&& post.search_input@ == search
    &&& if search == pre.last_search@ {
        &&& post.filtered_items == pre.filtered_items
        &&& post.selected == pre.selected
        &&& post.last_search == pre.last_search
    } else {
        &&& post.last_search@ == search
        &&& search.len() == 0 ==> rows_view(post.filtered_items@) == all_rows(pre.items@.len() as int)
        &&& search.len() == 0 ==> forall|m: int| 0 <= m < post.filtered_items@.len()
            ==> highlights_view((#[trigger] post.filtered_items@[m]).highlights) == no_highlights()
        &&& search.len() > 0 ==> score_sorted(
            filter_candidates(haystacks(pre.items@), search, pre.items@.len() as int),
            rows_view(post.filtered_items@),
        )
        &&& search.len() > 0 ==> forall|m: int| 0 <= m < post.filtered_items@.len()
            ==> (#[trigger] post.filtered_items@[m]).item_index < pre.items@.len()
            && highlights_view(post.filtered_items@[m].highlights) == row_highlights(
                pre.items@[post.filtered_items@[m].item_index as int],
                search,
            )
        &&& post.selected == (if post.filtered_items@.len() > 0 {
            Some(0usize)
        } else {
            None
        })
    }
}

impl PickerState {
    /// The state for a list of skills: no filter, every skill shown, the
    /// first one selected.
    pub fn new(skills: Vec<Skill>) -> (st: PickerState)
        ensures
            st.items@.len() == skills@.len(),
            forall|k: int| 0 <= k < skills@.len() ==> (#[trigger] st.items@[k]).skill == skills@[k],
            rows_view(st.filtered_items@) == all_rows(skills@.len() as int),
            forall|k: int| 0 <= k < st.filtered_items@.len() ==> highlights_view(
                (#[trigger] st.filtered_items@[k]).highlights,
            ) == no_highlights(),
            st.selected == (if skills@.len() > 0 { Some(0usize) } else { None }),
            st.search_input@.len() == 0,
            st.last_search@.len() == 0,
    {
        let ghost sv = skills@;
        let n = skills.len();
        let mut rest = skills;
        let mut items: Vec<SkillViewModel> = Vec::new();
        let ghost mut k: int = 0;
        while rest.len() > 0
            invariant
                0 <= k <= sv.len(),
                rest@ == sv.subrange(k, sv.len() as int),
                items@.len() == k,
                forall|j: int| 0 <= j < k ==> (#[trigger] items@[j]).skill == sv[j],
            decreases rest@.len(),
        {
            let s = rest.remove(0);
            proof {
                assert(rest@ =~= sv.subrange(k + 1, sv.len() as int));
                assert(s == sv[k]);
            }
            items.push(SkillViewModel::new(s));
            proof {
                k = k + 1;
            }
        }
        let filtered_items = unfiltered_rows(n);
        PickerState {
            items,
            filtered_items,
            selected: if n > 0 { Some(0) } else { None },
            search_input: String::new(),
            last_search: String::new(),
        }
    }

    /// Moves the selection down, wrapping to the top.
    pub fn next(&mut self)
        ensures
            final(self).items == old(self).items,
            final(self).filtered_items == old(self).filtered_items,
            final(self).search_input == old(self).search_input,
            final(self).last_search == old(self).last_search,
            final(self).selected == next_selection(old(self).selected, old(self).filtered_items@.len()),
    {
        if self.filtered_items.len() == 0 {
            return;
        }
        let next = match self.selected {
            Some(i) => if i < self.filtered_items.len() - 1 {
                i + 1
            } else {
                0
            },
            None => 0,
        };
        self.selected = Some(next);
    }

    /// Moves the selection up, wrapping to the bottom.
    pub fn previous(&mut self)
        ensures
            final(self).items == old(self).items,
            final(self).filtered_items == old(self).filtered_items,
            final(self).search_input == old(self).search_input,
            final(self).last_search == old(self).last_search,
            final(self).selected == previous_selection(old(self).selected, old(self).filtered_items@.len()),
    {
        if self.filtered_items.len() == 0 {
            return;
        }
        let previous = match self.selected {
            Some(i) => if i == 0 {
                self.filtered_items.len() - 1
            } else {
                i - 1
            },
            None => self.filtered_items.len() - 1,
        };
        self.selected = Some(previous);
    }

    /// Selects row `index` when there is such a row.
    pub fn select_index(&mut self, index: usize)
        ensures
            final(self).items == old(self).items,
            final(self).filtered_items == old(self).filtered_items,
            final(self).search_input == old(self).search_input,
            final(self).last_search == old(self).last_search,
            final(self).selected == (if index < old(self).filtered_items@.len() {
                Some(index)
            } else {
                old(self).selected
            }),
    {
        if index < self.filtered_items.len() {
            self.selected = Some(index);
        }
    }

    /// The skill of the selected row.
    pub fn selected_skill(&self) -> (r: Option<&Skill>)
        ensures
            match r {
                Some(s) => self.selected matches Some(i) && i < self.filtered_items@.len()
                    && self.filtered_items@[i as int].item_index < self.items@.len()
                    && *s == self.items@[self.filtered_items@[i as int].item_index as int].skill,
                None => !(self.selected matches Some(i) && i < self.filtered_items@.len()
                    && self.filtered_items@[i as int].item_index < self.items@.len()),
            },
    {
        match self.selected_view() {
            Some(vm) => Some(&vm.skill),
            None => None,
        }
    }

    /// The view model of the selected row.
    pub fn selected_view(&self) -> (r: Option<&SkillViewModel>)
        ensures
            match r {
                Some(vm) => self.selected matches Some(i) && i < self.filtered_items@.len()
                    && self.filtered_items@[i as int].item_index < self.items@.len()
                    && *vm == self.items@[self.filtered_items@[i as int].item_index as int],
                None => !(self.selected matches Some(i) && i < self.filtered_items@.len()
                    && self.filtered_items@[i as int].item_index < self.items@.len()),
            },
    {
        match self.selected {
            Some(i) => if i < self.filtered_items.len() {
                let idx = self.filtered_items[i].item_index;
                if idx < self.items.len() {
                    Some(&self.items[idx])
                } else {
                    None
                }
            } else {
                None
            },
            None => None,
        }
    }

    /// Recomputes the rows when the filter text changed: every item for an
    /// empty filter; otherwise the items the fuzzy matcher accepts, best
    /// score first, equal scores in item order, each highlighting the
    /// positions the matcher found (see [`row_highlights`]); rows of an
    /// empty filter highlight nothing. The first row is selected.
    pub fn filter_items(&mut self)
        ensures
            filter_outcome(*old(self), old(self).search_input@, *final(self)),
            final(self).search_input == old(self).search_input,
            old(self).search_input@ == old(self).last_search@ ==> *final(self) == *old(self),
    {
        if str_eq(self.search_input.as_str(), self.last_search.as_str()) {
            return;
        }
        if self.search_input.as_str().is_empty() {
            self.filtered_items = unfiltered_rows(self.items.len());
        } else {
            let ghost hs = haystacks(self.items@);
            let mut found: Vec<(usize, i64)> = Vec::new();
            let mut i: usize = 0;
            while i < self.items.len()
                invariant
                    i <= self.items.len(),
                    hs == haystacks(self.items@),
                    found@ == filter_candidates(hs, self.search_input@, i as int),
                    forall|k: int| 0 <= k < found@.len() ==> (#[trigger] found@[k]).0 < i,
                decreases self.items.len() - i,
            {
                match fuzzy_indices(self.items[i].projection.haystack.as_str(), self.search_input.as_str()) {
                    Some((score, _)) => {
                        found.push((i, score));
                    },
                    None => {},
                }
                i += 1;
            }
            let ghost fv = found@;
            let ordered = sort_by_score_desc(found);
            proof {
                let idx = choose|idx: Seq<int>| #![trigger crate::sync::is_permutation(idx, fv.len() as int)]
                    crate::sync::is_permutation(idx, fv.len() as int) && ordered@.len() == fv.len() && (forall|k: int|
                    0 <= k < ordered@.len() ==> #[trigger] ordered@[k] == fv[idx[k]]) && (forall|a: int, b: int|
                    0 <= a < b < ordered@.len() ==> (#[trigger] ordered@[a]).1 > (#[trigger] ordered@[b]).1 || (ordered@[a].1 == ordered@[b].1
                        && idx[a] < idx[b]));
                assert forall|m: int| 0 <= m < ordered@.len() implies (#[trigger] ordered@[m]).0 < self.items@.len() by {
                    assert(ordered@[m] == fv[idx[m]]);
                    assert(0 <= idx[m] < fv.len());
                }
            }
            let mut rows: Vec<FilteredSkill> = Vec::new();
            let mut k: usize = 0;
            while k < ordered.len()
                invariant
                    k <= ordered.len(),
                    rows@.len() == k,
                    forall|m: int| 0 <= m < k ==> (#[trigger] rows_view(rows@)[m]) == ordered@[m],
                    forall|m: int| 0 <= m < ordered@.len() ==> (#[trigger] ordered@[m]).0 < self.items@.len(),
                    forall|m: int| 0 <= m < k ==> highlights_view((#[trigger] rows@[m]).highlights) == row_highlights(
                        self.items@[rows@[m].item_index as int],
                        self.search_input@,
                    ),
                decreases ordered.len() - k,
            {
                let (idx, score) = ordered[k];
                let highlights = if idx < self.items.len() {
                    match fuzzy_indices(self.items[idx].projection.haystack.as_str(), self.search_input.as_str()) {
                        Some((_, positions)) => split_match_indices(&positions, &self.items[idx].projection),
                        None => MatchHighlights { name: Vec::new(), description: Vec::new(), tags: Vec::new() },
                    }
                } else {
                    MatchHighlights { name: Vec::new(), description: Vec::new(), tags: Vec::new() }
                };
                let ghost rb = rows@;
                rows.push(FilteredSkill { item_index: idx, score, highlights });
                proof {
                    assert forall|m: int| 0 <= m < k + 1 implies (#[trigger] rows_view(rows@)[m]) == ordered@[m] by {
                        if m < k {
                            assert(rows@[m] == rb[m]);
                            assert(rows_view(rb)[m] == ordered@[m]);
                        }
                    }
                    assert forall|m: int| 0 <= m < k + 1 implies highlights_view((#[trigger] rows@[m]).highlights) == row_highlights(
                        self.items@[rows@[m].item_index as int],
                        self.search_input@,
                    ) by {
                        if m < k {
                            assert(rows@[m] == rb[m]);
                        }
                    }
                }
                k += 1;
            }
            assert(rows_view(rows@) =~= ordered@);
            assert forall|m: int| 0 <= m < rows@.len() implies (#[trigger] rows@[m]).item_index < self.items@.len() by {
                assert(rows_view(rows@)[m] == ordered@[m]);
            }
            self.filtered_items = rows;
        }
        self.selected = if self.filtered_items.len() > 0 { Some(0) } else { None };
        self.last_search = copy_string(&self.search_input);
    }
}

/// Handles one key event. Only key presses count. Typing or deleting
/// changes the filter; Enter answers with (a copy of) the selected skill,
/// Esc with nothing; the arrows move the selection. `None` means the
/// picker goes on.
pub fn handle_key_event(app: &mut PickerState, key: PickerKey, pressed: bool) -> (r: Option<Option<Skill>>)
    ensures
        !pressed ==> r is None && *final(app) == *old(app),
        pressed && key is Enter ==> *final(app) == *old(app) && (r matches Some(x) && match x {
            Some(s) => old(app).selected_skill_view() == Some(s@),
            None => old(app).selected_skill_view() is None,
        }),
        pressed && key is Esc ==> *final(app) == *old(app) && r == Some(Option::<Skill>::None),
        pressed && (key is Char || key is Backspace || key is Up || key is Down || key is Other) ==> r is None,
        pressed && key is Other ==> *final(app) == *old(app),
        pressed ==> (key matches PickerKey::Char(c) ==> filter_outcome(*old(app), old(app).search_input@.push(c), *final(app))),
        pressed && key is Backspace ==> filter_outcome(*old(app), if old(app).search_input@.len() > 0 {
            old(app).search_input@.drop_last()
        } else {
            old(app).search_input@
        }, *final(app)),
        pressed && key is Up ==> {
            &&& final(app).items == old(app).items
            &&& final(app).filtered_items == old(app).filtered_items
            &&& final(app).search_input == old(app).search_input
            &&& final(app).last_search == old(app).last_search
            &&& final(app).selected == previous_selection(old(app).selected, old(app).filtered_items@.len())
        },
        pressed && key is Down ==> {
            &&& final(app).items == old(app).items
            &&& final(app).filtered_items == old(app).filtered_items
            &&& final(app).search_input == old(app).search_input
            &&& final(app).last_search == old(app).last_search
            &&& final(app).selected == next_selection(old(app).selected, old(app).filtered_items@.len())
        },
{
    if !pressed {
        return None;
    }
    match key {
        PickerKey::Char(c) => {
            app.search_input.push(c);
            app.filter_items();
            None
        },
        PickerKey::Backspace => {
            let v = chars_of(app.search_input.as_str());
            if v.len() > 0 {
                let s = crate::text::string_of_range(&v, 0, v.len() - 1);
                assert(s@ =~= v@.drop_last());
                app.search_input = s;
            }
            app.filter_items();
            None
        },
        PickerKey::Enter => match app.selected_skill() {
            Some(s) => Some(Some(s.copy())),
            None => Some(None),
        },
        PickerKey::Esc => Some(None),
        PickerKey::Up => {
            app.previous();
            None
        },
        PickerKey::Down => {
            app.next();
            None
        },
        PickerKey::Other => None,
    }
}

impl PickerState {
    /// The view of the selected skill, if a row is selected.
    pub open spec fn selected_skill_view(&self) -> Option<SkillView> {
        if self.selected matches Some(i) && i < self.filtered_items@.len()
            && self.filtered_items@[i as int].item_index < self.items@.len() {
            Some(self.items@[self.filtered_items@[self.selected->0 as int].item_index as int].skill@)
        } else {
            None
        }
    }
}


/// Whether position `p` is among the match positions.
pub open spec fn marked(indices: Seq<usize>, p: int) -> bool {
    exists|k: int| 0 <= k < indices.len() && indices[k] as int == p
}

/// The pieces a text is shown in, for its first `k` scalars: each marked
/// scalar alone and highlighted, the unmarked scalars between them in
/// plain runs.
pub open spec fn segments_upto(text: Seq<char>, indices: Seq<usize>, k: int) -> Seq<(Seq<char>, bool)>
    decreases k,
{
    if k <= 0 {
        Seq::empty()
    } else {
        let r = segments_upto(text, indices, k - 1);
        let c = text[k - 1];
        if marked(indices, k - 1) {
            r.push((seq![c], true))
        } else if r.len() > 0 && !r.last().1 {
            r.update(r.len() - 1, (r.last().0.push(c), false))
        } else {
            r.push((seq![c], false))
        }
    }
}

/// The pieces of a text with match positions: the whole text as one plain
/// piece when there are no positions, else as [`segments_upto`] gives them.
pub open spec fn segments(text: Seq<char>, indices: Seq<usize>) -> Seq<(Seq<char>, bool)> {
    if indices.len() == 0 {
        seq![(text, false)]
    } else {
        segments_upto(text, indices, text.len() as int)
    }
}

pub open spec fn segments_view(v: Seq<(String, bool)>) -> Seq<(Seq<char>, bool)> {
    v.map_values(|s: (String, bool)| (s.0@, s.1))
}

fn is_marked(indices: &Vec<usize>, p: usize) -> (b: bool)
    ensures
        b == marked(indices@, p as int),
{
    let mut k: usize = 0;
    while k < indices.len()
        invariant
            k <= indices.len(),
            forall|j: int| 0 <= j < k ==> indices@[j] as int != p as int,
        decreases indices.len() - k,
    {
        if indices[k] == p {
            return true;
        }
        k += 1;
    }
    false
}

/// Splits `text` into plain and highlighted pieces for display.
pub fn highlight_segments(text: &str, indices: &Vec<usize>) -> (r: Vec<(String, bool)>)
    ensures
        segments_view(r@) == segments(text@, indices@),
{
    if indices.len() == 0 {
        let mut r: Vec<(String, bool)> = Vec::new();
        r.push((text.to_owned(), false));
        assert(segments_view(r@) =~= seq![(text@, false)]);
        return r;
    }
    let v = chars_of(text);
    let mut out: Vec<(Vec<char>, bool)> = Vec::new();
    let mut i: usize = 0;
    while i < v.len()
        invariant
            i <= v.len(),
            v@ == text@,
            out@.map_values(|s: (Vec<char>, bool)| (s.0@, s.1)) == segments_upto(text@, indices@, i as int),
        decreases v.len() - i,
    {
        let c = v[i];
        let ghost before = out@.map_values(|s: (Vec<char>, bool)| (s.0@, s.1));
        if is_marked(indices, i) {
            let mut one: Vec<char> = Vec::new();
            one.push(c);
            out.push((one, true));
            assert(out@.map_values(|s: (Vec<char>, bool)| (s.0@, s.1)) =~= before.push((seq![c], true)));
        } else if out.len() > 0 && !out[out.len() - 1].1 {
            let last = out.len() - 1;
            let (mut run, flag) = out.remove(last);
            run.push(c);
            out.push((run, flag));
            assert(out@.map_values(|s: (Vec<char>, bool)| (s.0@, s.1)) =~= before.update(
                before.len() - 1,
                (before.last().0.push(c), false),
            ));
        } else {
            let mut one: Vec<char> = Vec::new();
            one.push(c);
            out.push((one, false));
            assert(out@.map_values(|s: (Vec<char>, bool)| (s.0@, s.1)) =~= before.push((seq![c], false)));
        }
        i += 1;
    }
    let mut r: Vec<(String, bool)> = Vec::new();
    let mut k: usize = 0;
    let ghost ov = out@.map_values(|s: (Vec<char>, bool)| (s.0@, s.1));
    while k < out.len()
        invariant
            k <= out.len(),
            ov == out@.map_values(|s: (Vec<char>, bool)| (s.0@, s.1)),
            segments_view(r@) == ov.take(k as int),
        decreases out.len() - k,
    {
        let ghost rb = segments_view(r@);
        r.push((crate::text::string_of(&out[k].0), out[k].1));
        assert(ov[k as int] == (out@[k as int].0@, out@[k as int].1));
        assert(segments_view(r@) =~= rb.push(ov[k as int]));
        assert(ov.take(k + 1) =~= ov.take(k as int).push(ov[k as int]));
        k += 1;
    }
    assert(ov.take(out@.len() as int) =~= ov);
    r
}
} // verus!
