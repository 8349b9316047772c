//! Locating the YAML header of a skill file. The header sits within the
//! first lines of the file between two `---` markers, each line carrying
//! whatever comment prefix the source language uses (`#`, `//`, ` *`,
//! `--`, `%`, an emoji...), which is taken from the opening marker line.
use vstd::prelude::*;
use crate::text::{
    chars_of, contains_exec, contains_sub, find_exec, find_sub, is_ws, skip_ws_backward,
    skip_ws_forward, starts_with, starts_with_exec, string_of, trim, trim_end, trim_start,
};

verus! {

/// Number of leading lines searched for a header.
pub const MAX_SCAN_LINES: usize = 50;

/// Index of the first `\n` at or after `from`, or the length of `s`.
pub open spec fn next_newline(s: Seq<char>, from: int) -> int
    decreases s.len() - from,
{
    if from < 0 || from >= s.len() {
        s.len() as int
    } else if s[from] == '\n' {
        from
    } else {
        next_newline(s, from + 1)
    }
}

pub proof fn lemma_next_newline(s: Seq<char>, from: int)
    requires
        0 <= from <= s.len(),
    ensures
        from <= next_newline(s, from) <= s.len(),
    decreases s.len() - from,
{
    if from < s.len() && s[from] != '\n' {
        lemma_next_newline(s, from + 1);
    }
}

/// The lines of `s` from position `from` on, as `str::lines` gives them:
/// split at `\n`, a `\r` directly before the `\n` dropped, and no empty
/// line after a final `\n`.
pub open spec fn lines_from(s: Seq<char>, from: int) -> Seq<Seq<char>>
    decreases s.len() + 1 - from,
{
    if from < 0 || from >= s.len() {
        Seq::empty()
    } else {
        let e = next_newline(s, from);
        proof {
            lemma_next_newline(s, from);
        }
        let raw = s.subrange(from, e);
        let line = if e < s.len() && raw.len() > 0 && raw.last() == '\r' {
            raw.drop_last()
        } else {
            raw
        };
        seq![line] + lines_from(s, e + 1)
    }
}

/// The lines searched for a header: the first fifty.
pub open spec fn scan_lines(s: Seq<char>) -> Seq<Seq<char>> {
    let l = lines_from(s, 0);
    if l.len() > MAX_SCAN_LINES {
        l.take(MAX_SCAN_LINES as int)
    } else {
        l
    }
}

pub open spec fn dashes() -> Seq<char> {
    seq!['-', '-', '-']
}

pub open spec fn shebang() -> Seq<char> {
    seq!['#', '!']
}

/// Line `i` opens a header: it holds `---` and is not a `#!` line at the
/// very top of the file.
pub open spec fn opens_header(line: Seq<char>, i: int) -> bool {
    !(i == 0 && starts_with(trim_start(line), shebang())) && contains_sub(trim_start(line), dashes())
}

/// The comment prefix of an opening line: what precedes its first `---`,
/// without surrounding whitespace.
pub open spec fn header_prefix(line: Seq<char>) -> Seq<char> {
    let t = trim_start(line);
    trim_end(t.subrange(0, find_sub(t, dashes())->0))
}

/// A line that closes the header: the prefix, then optional whitespace,
/// then `---`.
pub open spec fn is_boundary(line: Seq<char>, prefix: Seq<char>) -> bool {
    let t = trim_start(line);
    starts_with(t, prefix) && starts_with(trim_start(t.subrange(prefix.len() as int, t.len() as int)), dashes())
}

/// A header line with its comment prefix and one following space removed;
/// with an empty prefix the line is kept as it is, and a line without the
/// prefix loses only its leading whitespace.
pub open spec fn strip_line_prefix(line: Seq<char>, prefix: Seq<char>) -> Seq<char> {
    let t = trim_start(line);
    if prefix.len() == 0 {
        line
    } else if starts_with(t, prefix) {
        let r = t.subrange(prefix.len() as int, t.len() as int);
        if r.len() > 0 && r[0] == ' ' {
            r.drop_first()
        } else {
            r
        }
    } else {
        t
    }
}

/// The first line below `k` that opens a header.
pub open spec fn first_opening(lines: Seq<Seq<char>>, k: int) -> Option<int>
    decreases k,
{
    if k <= 0 {
        None
    } else {
        match first_opening(lines, k - 1) {
            Some(i) => Some(i),
            None => if opens_header(lines[k - 1], k - 1) {
                Some(k - 1)
            } else {
                None
            },
        }
    }
}

/// The first line in `from..k` that closes a header with `prefix`.
pub open spec fn first_boundary(lines: Seq<Seq<char>>, prefix: Seq<char>, from: int, k: int) -> Option<int>
    decreases k - from,
{
    if k <= from {
        None
    } else {
        match first_boundary(lines, prefix, from, k - 1) {
            Some(i) => Some(i),
            None => if is_boundary(lines[k - 1], prefix) {
                Some(k - 1)
            } else {
                None
            },
        }
    }
}

/// The header text made of lines `from..to`: each stripped of its prefix
/// and followed by `\n`.
pub open spec fn header_body(lines: Seq<Seq<char>>, prefix: Seq<char>, from: int, to: int) -> Seq<char>
    decreases to - from,
{
    if to <= from {
        Seq::empty()
    } else {
        header_body(lines, prefix, from, to - 1) + strip_line_prefix(lines[to - 1], prefix).push('\n')
    }
}

/// The YAML text of the header of a file with content `s`, if it has one
/// that is closed and not blank.
pub open spec fn header_text(s: Seq<char>) -> Option<Seq<char>> {
    let ls = scan_lines(s);
    match first_opening(ls, ls.len() as int) {
        None => None,
        Some(i) => {
            let p = header_prefix(ls[i]);
            match first_boundary(ls, p, i + 1, ls.len() as int) {
                None => None,
                Some(j) => {
                    let y = header_body(ls, p, i + 1, j);
                    if trim(y).len() == 0 {
                        None
                    } else {
                        Some(y)
                    }
                },
            }
        },
    }
}

pub open spec fn lines_view(v: Seq<Vec<char>>) -> Seq<Seq<char>> {
    v.map_values(|l: Vec<char>| l@)
}

/// A copy of `v[from..to]`.
fn vec_range(v: &Vec<char>, from: usize, to: usize) -> (r: Vec<char>)
    requires
        from <= to <= v.len(),
    ensures
        r@ == v@.subrange(from as int, to as int),
{
    let mut r: Vec<char> = Vec::new();
    let mut i = from;
    while i < to
        invariant
            from <= i <= to <= v.len(),
            r@ == v@.subrange(from as int, i as int),
        decreases to - i,
    {
        r.push(v[i]);
        i += 1;
        assert(r@ =~= v@.subrange(from as int, i as int));
    }
    r
}

fn trim_start_vec(v: &Vec<char>) -> (r: Vec<char>)
    ensures
        r@ == trim_start(v@),
{
    let k = skip_ws_forward(v, 0, v.len());
    assert(v@.subrange(0, v@.len() as int) =~= v@);
    vec_range(v, k, v.len())
}

/// The lines searched for a header.
fn scan_lines_exec(v: &Vec<char>) -> (ls: Vec<Vec<char>>)
    ensures
        lines_view(ls@) == scan_lines(v@),
{
    let mut ls: Vec<Vec<char>> = Vec::new();
    let mut pos: usize = 0;
    let mut done = false;
    while !done && pos < v.len() && ls.len() < MAX_SCAN_LINES
        invariant
            pos <= v.len(),
            ls@.len() <= MAX_SCAN_LINES,
            lines_view(ls@) + (if done { Seq::empty() } else { lines_from(v@, pos as int) }) == lines_from(v@, 0),
            done ==> lines_from(v@, pos as int) == Seq::<Seq<char>>::empty(),
        decreases v.len() - pos + (if done { 0int } else { 1int }),
    {
        let mut e = pos;
        while e < v.len() && v[e] != '\n'
            invariant
                pos <= e <= v.len(),
                next_newline(v@, e as int) == next_newline(v@, pos as int),
            decreases v.len() - e,
        {
            e += 1;
        }
        let end = if e < v.len() && e > pos && v[e - 1] == '\r' {
            e - 1
        } else {
            e
        };
        let line = vec_range(v, pos, end);
        let ghost lb = ls@;
        proof {
            let raw = v@.subrange(pos as int, e as int);
            if e < v.len() && e > pos && v@[e - 1] == '\r' {
                assert(raw.drop_last() =~= line@);
            } else {
                assert(raw =~= line@);
            }
            assert(lines_from(v@, pos as int) == seq![line@] + lines_from(v@, e + 1));
        }
        ls.push(line);
        assert(lines_view(ls@) =~= lines_view(lb).push(line@));
        if e == v.len() {
            done = true;
            assert(lines_view(ls@) =~= lines_view(lb) + seq![line@]);
            pos = e;
        } else {
            assert(lines_view(ls@) + lines_from(v@, e + 1) =~= lines_view(lb) + (seq![line@] + lines_from(v@, e + 1)));
            pos = e + 1;
        }
    }
    proof {
        let all = lines_from(v@, 0);
        if !done && pos >= v.len() {
            assert(lines_view(ls@) + Seq::<Seq<char>>::empty() =~= lines_view(ls@));
        }
        if done {
            assert(lines_view(ls@) + Seq::<Seq<char>>::empty() =~= lines_view(ls@));
        }
        if ls@.len() >= MAX_SCAN_LINES && !done && pos < v.len() {
            assert(all.take(MAX_SCAN_LINES as int) =~= lines_view(ls@));
        }
    }
    ls
}

fn dashes_exec() -> (d: Vec<char>)
    ensures
        d@ == dashes(),
{
    let d = vec!['-', '-', '-'];
    assert(d@ =~= dashes());
    d
}

fn opens_header_exec(line: &Vec<char>, i: usize) -> (b: bool)
    ensures
        b == opens_header(line@, i as int),
{
    let t = trim_start_vec(line);
    if i == 0 {
        let sb = vec!['#', '!'];
        assert(sb@ =~= shebang());
        if starts_with_exec(&t, &sb) {
            return false;
        }
    }
    contains_exec(&t, &dashes_exec())
}

fn header_prefix_exec(line: &Vec<char>) -> (p: Vec<char>)
    requires
        contains_sub(trim_start(line@), dashes()),
    ensures
        p@ == header_prefix(line@),
{
    let t = trim_start_vec(line);
    let d = dashes_exec();
    match find_exec(&t, &d) {
        Some(k) => {
            let e = skip_ws_backward(&t, 0, k);
            vec_range(&t, 0, e)
        },
        None => Vec::new(),
    }
}

fn is_boundary_exec(line: &Vec<char>, prefix: &Vec<char>) -> (b: bool)
    ensures
        b == is_boundary(line@, prefix@),
{
    let t = trim_start_vec(line);
    if !starts_with_exec(&t, prefix) {
        return false;
    }
    let rest = vec_range(&t, prefix.len(), t.len());
    let r = trim_start_vec(&rest);
    starts_with_exec(&r, &dashes_exec())
}

fn strip_line_prefix_exec(line: &Vec<char>, prefix: &Vec<char>) -> (r: Vec<char>)
    ensures
        r@ == strip_line_prefix(line@, prefix@),
{
    if prefix.len() == 0 {
        return vec_range(line, 0, line.len());
    }
    let t = trim_start_vec(line);
    if starts_with_exec(&t, prefix) {
        let plen = prefix.len();
        if plen < t.len() && t[plen] == ' ' {
            let r = vec_range(&t, plen + 1, t.len());
            assert(r@ =~= t@.subrange(plen as int, t@.len() as int).drop_first());
            r
        } else {
            vec_range(&t, plen, t.len())
        }
    } else {
        t
    }
}

/// The first line that opens a header.
fn find_opening(ls: &Vec<Vec<char>>) -> (r: Option<usize>)
    ensures
        match r {
            Some(i) => first_opening(lines_view(ls@), ls@.len() as int) == Some(i as int) && i < ls@.len()
                && opens_header(ls@[i as int]@, i as int),
            None => first_opening(lines_view(ls@), ls@.len() as int) is None,
        },
{
    let ghost lv = lines_view(ls@);
    let n = ls.len();
    let mut i: usize = 0;
    while i < n
        invariant
            i <= n,
            n == ls@.len(),
            lv == lines_view(ls@),
            first_opening(lv, i as int) is None,
        decreases n - i,
    {
        if opens_header_exec(&ls[i], i) {
            assert(first_opening(lv, i + 1) == Some(i as int));
            proof {
                lemma_first_opening_stable(lv, i as int + 1, n as int);
            }
            return Some(i);
        }
        i += 1;
    }
    None
}

/// The first line in `from..` that closes a header with `prefix`.
fn find_boundary(ls: &Vec<Vec<char>>, prefix: &Vec<char>, from: usize) -> (r: Option<usize>)
    requires
        from <= ls@.len(),
    ensures
        match r {
            Some(j) => first_boundary(lines_view(ls@), prefix@, from as int, ls@.len() as int) == Some(j as int)
                && from <= j < ls@.len(),
            None => first_boundary(lines_view(ls@), prefix@, from as int, ls@.len() as int) is None,
        },
{
    let ghost lv = lines_view(ls@);
    let n = ls.len();
    let mut j: usize = from;
    while j < n
        invariant
            from <= j <= n,
            n == ls@.len(),
            lv == lines_view(ls@),
            first_boundary(lv, prefix@, from as int, j as int) is None,
        decreases n - j,
    {
        if is_boundary_exec(&ls[j], prefix) {
            assert(first_boundary(lv, prefix@, from as int, j + 1) == Some(j as int));
            proof {
                lemma_first_boundary_stable(lv, prefix@, from as int, j as int + 1, n as int);
            }
            return Some(j);
        }
        j += 1;
    }
    None
}

/// The header text made of lines `from..to`.
fn build_body(ls: &Vec<Vec<char>>, prefix: &Vec<char>, from: usize, to: usize) -> (y: String)
    requires
        from <= to <= ls@.len(),
    ensures
        y@ == header_body(lines_view(ls@), prefix@, from as int, to as int),
{
    let ghost lv = lines_view(ls@);
    let mut yaml = String::new();
    let mut k: usize = from;
    while k < to
        invariant
            from <= k <= to <= ls@.len(),
            lv == lines_view(ls@),
            yaml@ == header_body(lv, prefix@, from as int, k as int),
        decreases to - k,
    {
        let stripped = strip_line_prefix_exec(&ls[k], prefix);
        let mut m: usize = 0;
        let ghost y0 = yaml@;
        while m < stripped.len()
            invariant
                m <= stripped.len(),
                yaml@ == y0 + stripped@.take(m as int),
            decreases stripped.len() - m,
        {
            yaml.push(stripped[m]);
            m += 1;
            assert(yaml@ =~= y0 + stripped@.take(m as int));
        }
        yaml.push('\n');
        assert(stripped@.take(m as int) =~= stripped@);
        assert(yaml@ =~= y0 + stripped@.push('\n'));
        k += 1;
    }
    yaml
}

/// Locates skill headers in file contents.
pub struct HeaderParser;

impl HeaderParser {
    /// The YAML text of the header of `content`, or `None` when the first
    /// fifty lines hold no complete, non-blank header.
    pub fn extract_header(content: &str) -> (r: Option<String>)
        ensures
            match r {
                Some(y) => header_text(content@) == Some(y@),
                None => header_text(content@) is None,
            },
    {
        let v = chars_of(content);
        let ls = scan_lines_exec(&v);
        let i = match find_opening(&ls) {
            Some(i) => i,
            None => return None,
        };
        let prefix = header_prefix_exec(&ls[i]);
        let j = match find_boundary(&ls, &prefix, i + 1) {
            Some(j) => j,
            None => return None,
        };
        let yaml = build_body(&ls, &prefix, i + 1, j);
        let yv = chars_of(yaml.as_str());
        let a = skip_ws_forward(&yv, 0, yv.len());
        let b = skip_ws_backward(&yv, a, yv.len());
        assert(yv@.subrange(0, yv@.len() as int) =~= yv@);
        if a == b {
            None
        } else {
            Some(yaml)
        }
    }
}

proof fn lemma_first_opening_stable(lines: Seq<Seq<char>>, k: int, n: int)
    requires
        0 <= k <= n,
        first_opening(lines, k) is Some,
    ensures
        first_opening(lines, n) == first_opening(lines, k),
    decreases n - k,
{
    if n > k {
        lemma_first_opening_stable(lines, k, n - 1);
    }
}

proof fn lemma_first_boundary_stable(lines: Seq<Seq<char>>, prefix: Seq<char>, from: int, k: int, n: int)
    requires
        from <= k <= n,
        first_boundary(lines, prefix, from, k) is Some,
    ensures
        first_boundary(lines, prefix, from, n) == first_boundary(lines, prefix, from, k),
    decreases n - k,
{
    if n > k {
        lemma_first_boundary_stable(lines, prefix, from, k, n - 1);
    }
}

} // verus!
