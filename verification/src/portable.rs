//! Relative Unix-style paths written in registry files, checked the same
//! way on every platform and resolved against the directory of the file.
use vstd::prelude::*;
use typed_path::{Utf8UnixComponent, Utf8UnixPath, Utf8WindowsComponent, Utf8WindowsPath};
use crate::paths::{join, join_path};
use crate::registry::{PathProblem, RegistryError};
use crate::text::{chars_of, is_ascii_lower, is_ascii_upper, str_eq, trim, trim_str};

verus! {

/// One component of a Unix path.
pub enum UnixPart {
    Root,
    Cur,
    Parent,
    Normal(String),
}

pub enum UnixPartView {
    Root,
    Cur,
    Parent,
    Normal(Seq<char>),
}

impl View for UnixPart {
    type V = UnixPartView;

    open spec fn view(&self) -> UnixPartView {
        match self {
            UnixPart::Root => UnixPartView::Root,
            UnixPart::Cur => UnixPartView::Cur,
            UnixPart::Parent => UnixPartView::Parent,
            UnixPart::Normal(s) => UnixPartView::Normal(s@),
        }
    }
}

pub open spec fn parts_view(v: Seq<UnixPart>) -> Seq<UnixPartView> {
    v.map_values(|p: UnixPart| p@)
}

/// The components `typed_path` finds in `path` read as a Unix path.
pub uninterp spec fn unix_components_of(path: Seq<char>) -> Seq<UnixPartView>;

/// `Utf8UnixPath::new(path).components()`, collected.
#[verifier::external_body]
fn unix_components(path: &str) -> (r: Vec<UnixPart>)
    ensures
        parts_view(r@) == unix_components_of(path@),
{
    Utf8UnixPath::new(path).components().map(|c| match c {
        Utf8UnixComponent::RootDir => UnixPart::Root,
        Utf8UnixComponent::CurDir => UnixPart::Cur,
        Utf8UnixComponent::ParentDir => UnixPart::Parent,
        Utf8UnixComponent::Normal(s) => UnixPart::Normal(s.to_owned()),
    }).collect()
}

/// `Utf8UnixPath::is_absolute`: on Unix a path is absolute when it begins
/// with `/`.
#[verifier::external_body]
fn unix_is_absolute(path: &str) -> (r: bool)
    ensures
        r == (path@.len() > 0 && path@[0] == '/'),
{
    Utf8UnixPath::new(path).is_absolute()
}

/// What `Utf8WindowsPath::has_root` answers for `path`.
pub uninterp spec fn windows_rooted(path: Seq<char>) -> bool;

/// `Utf8WindowsPath::new(path).has_root()`.
#[verifier::external_body]
fn windows_has_root(path: &str) -> (r: bool)
    ensures
        r == windows_rooted(path@),
{
    Utf8WindowsPath::new(path).has_root()
}

/// Whether the first component `typed_path` finds in `path`, read as a
/// Windows path, is a prefix such as `C:` or `\\server\share`.
pub uninterp spec fn windows_prefixed(path: Seq<char>) -> bool;

/// A text that starts with an ASCII letter and `:`, as a drive does.
pub open spec fn drive_letter_start(p: Seq<char>) -> bool {
    p.len() >= 2 && (is_ascii_upper(p[0]) || is_ascii_lower(p[0])) && p[1] == ':'
}

/// `Utf8WindowsPath::new(path).components().next()` is a prefix. A path
/// that starts with an ASCII letter and `:` opens with a disk prefix.
#[verifier::external_body]
fn windows_has_prefix(path: &str) -> (r: bool)
    ensures
        r == windows_prefixed(path@),
        drive_letter_start(path@) ==> r,
{
    matches!(Utf8WindowsPath::new(path).components().next(), Some(Utf8WindowsComponent::Prefix(_)))
}

/// The problem with a registered path, if any: blank, `\` separators, or
/// not relative (absolute on Unix, or rooted or prefixed on Windows).
pub open spec fn path_problem(value: Seq<char>) -> Option<PathProblem> {
    if trim(value).len() == 0 {
        Some(PathProblem::Empty)
    } else if value.contains('\\') {
        Some(PathProblem::Backslash)
    } else if (value.len() > 0 && value[0] == '/') || windows_rooted(value) || windows_prefixed(value) {
        Some(PathProblem::NotRelative)
    } else {
        None
    }
}

/// Checks a registered path. A path that starts with a drive letter and
/// `:` is refused.
pub fn validate_unix_relative(value: &str, label: &str) -> (r: Result<(), RegistryError>)
    ensures
        r is Ok <==> path_problem(value@) is None,
        drive_letter_start(value@) ==> r is Err,
        r matches Err(e) ==> (e matches RegistryError::InvalidPath { label: l, value: v, problem } && l@ == label@
            && v@ == value@ && path_problem(value@) == Some(problem)),
{
    let t = trim_str(value);
    if t.as_str().is_empty() {
        return Err(RegistryError::InvalidPath { label: label.to_owned(), value: value.to_owned(), problem: PathProblem::Empty });
    }
    let v = chars_of(value);
    let mut i: usize = 0;
    while i < v.len()
        invariant
            i <= v.len(),
            v@ == value@,
            trim(value@).len() != 0,
            forall|j: int| 0 <= j < i ==> v@[j] != '\\',
        decreases v.len() - i,
    {
        if v[i] == '\\' {
            assert(value@.contains('\\')) by {
                assert(value@[i as int] == '\\');
            }

            return Err(RegistryError::InvalidPath { label: label.to_owned(), value: value.to_owned(), problem: PathProblem::Backslash });
        }
        i += 1;
    }
    if unix_is_absolute(value) || windows_has_root(value) || windows_has_prefix(value) {
        return Err(RegistryError::InvalidPath { label: label.to_owned(), value: value.to_owned(), problem: PathProblem::NotRelative });
    }
    Ok(())
}

pub open spec fn dot_dot() -> Seq<char> {
    seq!['.', '.']
}

/// The names left after `.` components are dropped and each `..` cancels
/// the name before it (a leading `..` stays).
pub open spec fn reduce_parts(parts: Seq<UnixPartView>) -> Seq<Seq<char>>
    decreases parts.len(),
{
    if parts.len() == 0 {
        Seq::empty()
    } else {
        let r = reduce_parts(parts.drop_last());
        match parts.last() {
            UnixPartView::Normal(n) => r.push(n),
            UnixPartView::Parent => if r.len() > 0 && r.last() != dot_dot() {
                r.drop_last()
            } else {
                r.push(dot_dot())
            },
            _ => r,
        }
    }
}

/// `base` joined with each name in turn.
pub open spec fn join_all(base: Seq<char>, names: Seq<Seq<char>>) -> Seq<char>
    decreases names.len(),
{
    if names.len() == 0 {
        base
    } else {
        join(join_all(base, names.drop_last()), names.last())
    }
}

/// Checks a registered path and resolves it against `base_dir`.
pub fn resolve_unix_relative(base_dir: &str, value: &str, label: &str) -> (r: Result<String, RegistryError>)
    ensures
        r is Ok <==> path_problem(value@) is None,
        drive_letter_start(value@) ==> r is Err,
        r matches Ok(p) ==> p@ == join_all(base_dir@, reduce_parts(unix_components_of(value@))),
        r matches Err(e) ==> (e matches RegistryError::InvalidPath { label: l, value: v, problem } && l@ == label@
            && v@ == value@ && path_problem(value@) == Some(problem)),
{
    match validate_unix_relative(value, label) {
        Ok(()) => {},
        Err(e) => return Err(e),
    }
    let parts = unix_components(value);
    let ghost pv = parts_view(parts@);
    let mut names: Vec<String> = Vec::new();
    let mut i: usize = 0;
    while i < parts.len()
        invariant
            i <= parts.len(),
            pv == parts_view(parts@),
            crate::config::strings_view(names@) == reduce_parts(pv.take(i as int)),
        decreases parts.len() - i,
    {
        proof {
            assert(pv.take(i + 1).drop_last() =~= pv.take(i as int));
            assert(pv.take(i + 1).last() == pv[i as int]);
        }
        let ghost nb = crate::config::strings_view(names@);
        match &parts[i] {
            UnixPart::Normal(n) => {
                names.push(n.clone());
                assert(crate::config::strings_view(names@) =~= nb.push(n@));
            },
            UnixPart::Parent => {
                let pop = names.len() > 0 && !str_eq(names[names.len() - 1].as_str(), "..");
                proof {
                    reveal_strlit("..");
                    assert(".."@ =~= dot_dot());
                }
                if pop {
                    names.pop();
                    assert(crate::config::strings_view(names@) =~= nb.drop_last());
                } else {
                    names.push("..".to_owned());
                    assert(crate::config::strings_view(names@) =~= nb.push(dot_dot()));
                }
            },
            _ => {},
        }
        i += 1;
    }
    assert(pv.take(parts@.len() as int) =~= pv);
    let ghost nv = crate::config::strings_view(names@);
    let mut resolved = base_dir.to_owned();
    let mut k: usize = 0;
    while k < names.len()
        invariant
            k <= names.len(),
            nv == crate::config::strings_view(names@),
            resolved@ == join_all(base_dir@, nv.take(k as int)),
        decreases names.len() - k,
    {
        proof {
            assert(nv.take(k + 1).drop_last() =~= nv.take(k as int));
            assert(nv.take(k + 1).last() == nv[k as int]);
        }
        resolved = join_path(resolved.as_str(), names[k].as_str());
        k += 1;
    }
    assert(nv.take(names@.len() as int) =~= nv);
    Ok(resolved)
}

} // verus!
