//! Path text on Unix-style systems: the final component and its stem,
//! separator conversion, joining, and the resolution of configured scan
//! paths against a base directory and the home directory.
use vstd::prelude::*;
use crate::config::opt_string_view;
use crate::text::{chars_of, push_str, starts_with, string_of_range};

verus! {

/// `p` without trailing separators and trailing `.` components, which
/// do not name anything.
pub open spec fn strip_tail(p: Seq<char>) -> Seq<char>
    decreases p.len(),
{
    if p.len() > 0 && (p.last() == '/' || (p.last() == '.' && (p.len() == 1 || p[p.len() - 2]
        == '/'))) {
        strip_tail(p.drop_last())
    } else {
        p
    }
}

/// Start of the last component of `q[..k]`: just after the last separator.
pub open spec fn seg_start(q: Seq<char>, k: int) -> int
    decreases k,
{
    if k <= 0 {
        0
    } else if q[k - 1] == '/' {
        k
    } else {
        seg_start(q, k - 1)
    }
}

/// The final component of a path, when it is a normal name (not the root,
/// not `.` and not `..`).
pub open spec fn file_name_of(p: Seq<char>) -> Option<Seq<char>> {
    let q = strip_tail(p);
    let n = q.subrange(seg_start(q, q.len() as int), q.len() as int);
    if n.len() == 0 || n == seq!['.', '.'] {
        None
    } else {
        Some(n)
    }
}

/// Index of the last `.` in `n[..k]`, or -1.
pub open spec fn last_dot(n: Seq<char>, k: int) -> int
    decreases k,
{
    if k <= 0 {
        -1
    } else if n[k - 1] == '.' {
        k - 1
    } else {
        last_dot(n, k - 1)
    }
}

/// A file name without its extension: everything before the last `.`,
/// unless that `.` is the first scalar or there is none.
pub open spec fn stem_of(n: Seq<char>) -> Seq<char> {
    let d = last_dot(n, n.len() as int);
    if d <= 0 {
        n
    } else {
        n.subrange(0, d)
    }
}

/// The stem of the final component of `p`.
pub open spec fn file_stem_of(p: Seq<char>) -> Option<Seq<char>> {
    match file_name_of(p) {
        Some(n) => Some(stem_of(n)),
        None => None,
    }
}

/// The final component of `path`, if it is a name.
pub fn file_name(path: &str) -> (r: Option<String>)
    ensures
        opt_string_view(r) == file_name_of(path@),
{
    let v = chars_of(path);
    let mut end: usize = v.len();
    assert(v@.take(end as int) =~= v@);
    while end > 0 && (v[end - 1] == '/' || (v[end - 1] == '.' && (end == 1 || v[end - 2] == '/')))
        invariant
            end <= v.len(),
            strip_tail(v@.take(end as int)) == strip_tail(path@),
            v@ == path@,
        decreases end,
    {
        assert(v@.take(end as int).drop_last() =~= v@.take(end - 1));
        end -= 1;
    }
    let ghost q = v@.take(end as int);
    assert(strip_tail(q) == q);
    let mut start: usize = end;
    while start > 0 && v[start - 1] != '/'
        invariant
            start <= end <= v.len(),
            q == v@.take(end as int),
            seg_start(q, start as int) == seg_start(q, end as int),
        decreases start,
    {
        start -= 1;
    }
    let ghost n = q.subrange(start as int, end as int);
    assert(n =~= v@.subrange(start as int, end as int));
    if end == start || (end - start == 2 && v[start] == '.' && v[start + 1] == '.') {
        proof {
            if end - start == 2 {
                assert(n =~= seq!['.', '.']);
            }
        }
        return None;
    }
    proof {
        if n == seq!['.', '.'] {
            assert(n[0] == '.' && n[1] == '.');
        }
    }
    Some(string_of_range(&v, start, end))
}

/// The stem of a file name.
pub fn stem(name: &str) -> (r: String)
    ensures
        r@ == stem_of(name@),
{
    let v = chars_of(name);
    let mut k: usize = v.len();
    while k > 0 && v[k - 1] != '.'
        invariant
            k <= v.len(),
            v@ == name@,
            last_dot(v@, k as int) == last_dot(v@, v@.len() as int),
        decreases k,
    {
        k -= 1;
    }
    if k <= 1 {
        string_of_range(&v, 0, v.len())
    } else {
        string_of_range(&v, 0, k - 1)
    }
}

/// The stem of the final component of `path`, if that component is a name.
pub fn file_stem(path: &str) -> (r: Option<String>)
    ensures
        opt_string_view(r) == file_stem_of(path@),
{
    match file_name(path) {
        Some(n) => Some(stem(n.as_str())),
        None => None,
    }
}

/// The extension of a file name: what follows its last `.`, unless that
/// `.` is the first scalar or there is none.
pub open spec fn extension_of(n: Seq<char>) -> Option<Seq<char>> {
    let d = last_dot(n, n.len() as int);
    if d <= 0 {
        None
    } else {
        Some(n.subrange(d + 1, n.len() as int))
    }
}

/// The extension of the final component of `path`.
pub fn file_extension(path: &str) -> (r: Option<String>)
    ensures
        opt_string_view(r) == match file_name_of(path@) {
            Some(n) => extension_of(n),
            None => None,
        },
{
    let n = match file_name(path) {
        Some(n) => n,
        None => return None,
    };
    let v = chars_of(n.as_str());
    let mut k: usize = v.len();
    while k > 0 && v[k - 1] != '.'
        invariant
            k <= v.len(),
            v@ == n@,
            last_dot(v@, k as int) == last_dot(v@, v@.len() as int),
        decreases k,
    {
        k -= 1;
    }
    if k <= 1 {
        None
    } else {
        Some(string_of_range(&v, k, v.len()))
    }
}

/// Each `\` of `p` replaced by `/`.
pub open spec fn unix_style(p: Seq<char>) -> Seq<char> {
    p.map_values(|c: char| if c == '\\' { '/' } else { c })
}

/// The path text with every `\` turned into `/`.
pub fn to_unix_style(path: &str) -> (r: String)
    ensures
        r@ == unix_style(path@),
{
    let v = chars_of(path);
    let mut s = String::new();
    let mut i: usize = 0;
    while i < v.len()
        invariant
            i <= v.len(),
            v@ == path@,
            s@ == unix_style(v@.take(i as int)),
        decreases v.len() - i,
    {
        let c = v[i];
        if c == '\\' {
            s.push('/');
        } else {
            s.push(c);
        }
        i += 1;
        assert(s@ =~= unix_style(v@.take(i as int)));
    }
    assert(v@.take(v@.len() as int) =~= v@);
    s
}

/// Whether a Unix path is absolute.
pub open spec fn is_absolute(p: Seq<char>) -> bool {
    p.len() > 0 && p[0] == '/'
}

/// `base` joined with `rel` as `Path::join` does on Unix: an absolute
/// `rel` replaces `base`; otherwise a `/` goes between them unless `base`
/// is empty or already ends with one.
pub open spec fn join(base: Seq<char>, rel: Seq<char>) -> Seq<char> {
    if is_absolute(rel) {
        rel
    } else if base.len() == 0 || base.last() == '/' {
        base + rel
    } else {
        base.push('/') + rel
    }
}

/// `base` joined with `rel`.
pub fn join_path(base: &str, rel: &str) -> (r: String)
    ensures
        r@ == join(base@, rel@),
{
    let rv = chars_of(rel);
    if rv.len() > 0 && rv[0] == '/' {
        return string_of_range(&rv, 0, rv.len());
    }
    let bv = chars_of(base);
    let mut s = string_of_range(&bv, 0, bv.len());
    assert(bv@.subrange(0, bv@.len() as int) =~= bv@);
    if bv.len() > 0 && bv[bv.len() - 1] != '/' {
        s.push('/');
    }
    push_str(&mut s, rel);
    s
}

pub open spec fn tilde() -> Seq<char> {
    seq!['~']
}

/// A configured scan path made absolute: `~` is the home directory, a
/// path starting with `~/` or `~\` lies under it, another relative path
/// lies under `base`, and an absolute path stays as it is.
pub open spec fn resolve_scan(base: Seq<char>, home: Seq<char>, p: Seq<char>) -> Seq<char> {
    if p == tilde() {
        home
    } else if starts_with(p, seq!['~', '/']) || starts_with(p, seq!['~', '\\']) {
        join(home, p.subrange(2, p.len() as int))
    } else if !is_absolute(p) {
        join(base, p)
    } else {
        p
    }
}

/// Resolves one configured scan path.
pub fn resolve_scan_path(base_dir: &str, home: &str, scan_path: &str) -> (r: String)
    ensures
        r@ == resolve_scan(base_dir@, home@, scan_path@),
{
    let v = chars_of(scan_path);
    if v.len() == 1 && v[0] == '~' {
        assert(v@ =~= tilde());
        let hv = chars_of(home);
        let r = string_of_range(&hv, 0, hv.len());
        assert(hv@.subrange(0, hv@.len() as int) =~= hv@);
        return r;
    }
    proof {
        if scan_path@ == tilde() {
            assert(v@.len() == 1 && v@[0] == '~');
        }
    }
    if v.len() >= 2 && v[0] == '~' && (v[1] == '/' || v[1] == '\\') {
        proof {
            if v@[1] == '/' {
                assert(v@.subrange(0, 2) =~= seq!['~', '/']);
            } else {
                assert(v@.subrange(0, 2) =~= seq!['~', '\\']);
            }
        }
        let rest = string_of_range(&v, 2, v.len());
        return join_path(home, rest.as_str());
    }
    proof {
        if starts_with(scan_path@, seq!['~', '/']) {
            assert(v@.subrange(0, 2)[1] == '/');
        }
        if starts_with(scan_path@, seq!['~', '\\']) {
            assert(v@.subrange(0, 2)[1] == '\\');
        }
    }
    if v.len() == 0 || v[0] != '/' {
        return join_path(base_dir, scan_path);
    }
    let r = string_of_range(&v, 0, v.len());
    assert(v@.subrange(0, v@.len() as int) =~= v@);
    r
}


/// What `path_clean::clean` gives for `p`, as text: the path reduced
/// lexically (no `.`, no `name/..`, single separators).
pub uninterp spec fn cleaned_path(p: Seq<char>) -> Seq<char>;

/// A path text that begins with the root separator and not with two
/// separators (which on Windows would open a `\\server\share` prefix).
pub open spec fn rooted_once(p: Seq<char>) -> bool {
    is_absolute(p) && (p.len() == 1 || (p[1] != '/' && p[1] != '\\'))
}

/// `path_clean::clean`. Of a rooted path it keeps the root: the root
/// component is never dropped (`/..` becomes `/`), so the text starts
/// with the root separator, `/` on Unix and `\` on Windows, followed by a
/// normal component, which holds no separator, or by nothing.
#[verifier::external_body]
fn clean_path(p: &str) -> (r: String)
    ensures
        r@ == cleaned_path(p@),
        rooted_once(p@) ==> r@.len() > 0 && (r@[0] == '/' || (r@[0] == '\\' && (r@.len() == 1 || r@[1] != '\\'))),
{
    path_clean::clean(p).to_string_lossy().into_owned()
}

/// The Windows verbatim prefix `\\?\`.
pub open spec fn verbatim_prefix() -> Seq<char> {
    seq!['\\', '\\', '?', '\\']
}

/// What `dunce::simplified` gives for a path that starts with the verbatim
/// prefix `\\?\`, as text.
pub uninterp spec fn verbatim_simplified(p: Seq<char>) -> Seq<char>;

/// What `dunce::simplified` gives for `p`, as text: a path without the
/// verbatim prefix is returned as it is.
pub open spec fn simplified_path(p: Seq<char>) -> Seq<char> {
    if starts_with(p, verbatim_prefix()) {
        verbatim_simplified(p)
    } else {
        p
    }
}

/// `dunce::simplified`: on Unix it returns the path unchanged; on Windows
/// it strips the four characters of the verbatim prefix `\\?\` from a
/// `\\?\C:\...` path whose components are all safe file names, and
/// returns every other path unchanged.
#[verifier::external_body]
fn simplify_path(p: &str) -> (r: String)
    ensures
        r@ == simplified_path(p@),
        starts_with(p@, verbatim_prefix()) ==> r@ == verbatim_simplified(p@),
        starts_with(p@, verbatim_prefix()) ==> (r@ == p@ || r@ == p@.skip(4)),
        !starts_with(p@, verbatim_prefix()) ==> r@ == p@,
{
    dunce::simplified(std::path::Path::new(p)).to_string_lossy().into_owned()
}

/// A path made absolute: kept when it is absolute already; otherwise its
/// canonical form when the file system gave one, else the working
/// directory joined with it and cleaned, else the path as it is.
pub open spec fn absolute_form(p: Seq<char>, canonical: Option<Seq<char>>, cwd: Option<Seq<char>>) -> Seq<char> {
    if is_absolute(p) {
        p
    } else {
        match canonical {
            Some(c) => c,
            None => match cwd {
                Some(d) => cleaned_path(join(d, p)),
                None => p,
            },
        }
    }
}

/// The normalised text of a path: made absolute, simplified, with `/`
/// separators.
pub open spec fn normalized_path(p: Seq<char>, canonical: Option<Seq<char>>, cwd: Option<Seq<char>>) -> Seq<char> {
    unix_style(simplified_path(absolute_form(p, canonical, cwd)))
}

/// Whether the file system's answers make a path absolute: the path is
/// absolute already, or its canonical form is, or there is none and the
/// working directory joined with the path is rooted once (an absolute
/// working directory that does not start with two separators, unless it
/// is `/` and the path starts with `\`).
pub open spec fn absolute_answers(p: Seq<char>, canonical: Option<Seq<char>>, cwd: Option<Seq<char>>) -> bool {
    ||| is_absolute(p)
    ||| (match canonical {
        Some(c) => is_absolute(c),
        None => match cwd {
            Some(d) => rooted_once(join(d, p)),
            None => false,
        },
    })
}

/// The normalised text of a path: made absolute, simplified, with `/`
/// separators. `canonical` and `cwd` are what the file system reported
/// for the path and the working directory. The result holds no `\`; it is
/// absolute when the answers make the path absolute, and an absolute path
/// keeps its text apart from `\` turning into `/`. Normalising such a
/// result again gives it back (see
/// `crate::laws::law_normalized_paths_are_stable`).
pub fn normalize_path(path: &str, canonical: Option<String>, cwd: Option<String>) -> (r: String)
    ensures
        r@ == normalized_path(path@, opt_string_view(canonical), opt_string_view(cwd)),
        !r@.contains('\\'),
        absolute_answers(path@, opt_string_view(canonical), opt_string_view(cwd)) ==> is_absolute(r@),
        is_absolute(path@) ==> r@ == unix_style(path@),
{
    let ghost cv = opt_string_view(canonical);
    let ghost dv = opt_string_view(cwd);
    let v = chars_of(path);
    let absolute = if v.len() > 0 && v[0] == '/' {
        path.to_owned()
    } else {
        match canonical {
            Some(c) => c,
            None => match cwd {
                Some(d) => {
                    let joined = join_path(d.as_str(), path);
                    clean_path(joined.as_str())
                },
                None => path.to_owned(),
            },
        }
    };
    let simplified = simplify_path(absolute.as_str());
    proof {
        if absolute@.len() >= 4 {
            assert(absolute@.subrange(0, 4)[0] == absolute@[0]);
            assert(absolute@.subrange(0, 4)[1] == absolute@[1]);
        }
        if absolute_answers(path@, cv, dv) {
            assert(absolute@.len() > 0);
            assert(!starts_with(absolute@, verbatim_prefix()));
            assert(simplified@ == absolute@);
        }
        if is_absolute(path@) {
            assert(absolute@ == path@);
        }
    }
    let r = to_unix_style(simplified.as_str());
    proof {
        crate::laws::law_unix_style_has_no_backslash(simplified@);
    }
    r
}

} // verus!
