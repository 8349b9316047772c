//! The script registry: names, registrations and the checks that turn
//! registrations read from YAML files into the list of runnable scripts.
use vstd::prelude::*;
use crate::config::{copy_opt_string, copy_string, opt_string_view, strings_view};
use crate::order::{lemma_seq_lt_total, lemma_seq_lt_trans};
use crate::text::{
    chars_eq, chars_lt, chars_of, contains_exec, contains_sub, eq_ignore_ascii_case,
    eq_ignore_ascii_case_exec, is_ascii_digit, is_ascii_lower, is_ascii_upper, seq_lt, str_eq,
    trim, trim_str,
};

verus! {

pub const DEFAULT_MCP_SEARCH_LIMIT: usize = 5;

pub const MAX_MCP_SEARCH_LIMIT: usize = 10;

pub open spec fn is_name_start(c: char) -> bool {
    is_ascii_upper(c) || is_ascii_lower(c) || c == '_'
}

pub open spec fn is_name_char(c: char) -> bool {
    is_name_start(c) || is_ascii_digit(c)
}

/// A script name is an ASCII identifier: `[A-Za-z_][A-Za-z0-9_]*`.
pub open spec fn valid_script_name(s: Seq<char>) -> bool {
    s.len() > 0 && is_name_start(s[0]) && forall|i: int| 1 <= i < s.len() ==> is_name_char(#[trigger] s[i])
}

/// The validated name of a registered script.
pub struct ScriptName {
    pub name: String,
}

impl View for ScriptName {
    type V = Seq<char>;

    open spec fn view(&self) -> Seq<char> {
        self.name@
    }
}

/// What is wrong with a registered relative path.
pub enum PathProblem {
    /// It is blank.
    Empty,
    /// It uses `\` separators.
    Backslash,
    /// It is absolute or has a Windows root or prefix.
    NotRelative,
}

/// Why a registry could not be loaded.
pub enum RegistryError {
    InvalidScriptName { name: String },
    MissingScriptFile { name: String, path: String },
    EmptyCommand { name: String },
    MissingPathPlaceholder { name: String },
    EmptyTag { name: String },
    DuplicateName { name: String, first: String, second: String },
    SearchLimitOutOfRange { limit: usize },
    ImportDeclaresImports { path: String },
    ImportDeclaresMcp { path: String },
    InvalidPath { label: String, value: String, problem: PathProblem },
}

fn is_name_start_exec(c: char) -> (b: bool)
    ensures
        b == is_name_start(c),
{
    ('A' <= c && c <= 'Z') || ('a' <= c && c <= 'z') || c == '_'
}

impl ScriptName {
    /// The name, if `s` is a valid script name.
    pub fn parse(s: &str) -> (r: Option<ScriptName>)
        ensures
            r is Some <==> valid_script_name(s@),
            r matches Some(n) ==> n@ == s@,
    {
        let v = chars_of(s);
        if v.len() == 0 || !is_name_start_exec(v[0]) {
            return None;
        }
        let mut i: usize = 1;
        while i < v.len()
            invariant
                1 <= i <= v.len(),
                v@ == s@,
                forall|k: int| 1 <= k < i ==> is_name_char(#[trigger] v@[k]),
            decreases v.len() - i,
        {
            let c = v[i];
            if !(is_name_start_exec(c) || ('0' <= c && c <= '9')) {
                return None;
            }
            i += 1;
        }
        Some(ScriptName { name: s.to_owned() })
    }

    /// The name, or `InvalidScriptName` naming the rejected text.
    pub fn from_str(s: &str) -> (r: Result<ScriptName, RegistryError>)
        ensures
            r is Ok <==> valid_script_name(s@),
            r matches Ok(n) ==> n@ == s@,
            r matches Err(e) ==> e matches RegistryError::InvalidScriptName { name } && name@ == s@,
    {
        match ScriptName::parse(s) {
            Some(n) => Ok(n),
            None => Err(RegistryError::InvalidScriptName { name: s.to_owned() }),
        }
    }

    pub fn as_str(&self) -> (r: &str)
        ensures
            r@ == self@,
    {
        self.name.as_str()
    }

    pub fn copy(&self) -> (r: ScriptName)
        ensures
            r@ == self@,
    {
        ScriptName { name: copy_string(&self.name) }
    }
}

/// One `scripts` entry of a registry file.
pub struct ScriptRegistration {
    pub name: String,
    pub path: String,
    pub command: String,
    pub comment: Option<String>,
    pub tags: Vec<String>,
}

/// A registered script ready to run.
pub struct Script {
    pub name: ScriptName,
    pub path: String,
    pub command: String,
    pub comment: Option<String>,
    pub tags: Vec<String>,
}

pub struct ScriptView {
    pub name: Seq<char>,
    pub path: Seq<char>,
    pub command: Seq<char>,
    pub comment: Option<Seq<char>>,
    pub tags: Seq<Seq<char>>,
}

impl View for Script {
    type V = ScriptView;

    open spec fn view(&self) -> ScriptView {
        ScriptView {
            name: self.name@,
            path: self.path@,
            command: self.command@,
            comment: opt_string_view(self.comment),
            tags: strings_view(self.tags@),
        }
    }
}

pub open spec fn scripts_view(v: Seq<Script>) -> Seq<ScriptView> {
    v.map_values(|s: Script| s@)
}

/// The `mcp` section of the global registry file.
pub struct McpConfig {
    pub search_limit: usize,
}

/// A registry file: options, imports and registrations.
pub struct ConfigFile {
    pub mcp: Option<McpConfig>,
    pub imports: Vec<String>,
    pub scripts: Vec<ScriptRegistration>,
}

/// The scripts of all registry files, with the default search limit.
pub struct LoadedRegistry {
    pub scripts: Vec<Script>,
    pub mcp_search_limit: usize,
}

pub open spec fn path_placeholder() -> Seq<char> {
    "{{path}}"@
}

/// The tags with surrounding whitespace removed, each kept only when no
/// earlier kept tag equals it up to ASCII case.
pub open spec fn normalized_tags(tags: Seq<Seq<char>>) -> Seq<Seq<char>>
    decreases tags.len(),
{
    if tags.len() == 0 {
        Seq::empty()
    } else {
        let r = normalized_tags(tags.drop_last());
        let t = trim(tags.last());
        if exists|k: int| 0 <= k < r.len() && eq_ignore_ascii_case(#[trigger] r[k], t) {
            r
        } else {
            r.push(t)
        }
    }
}

/// Some tag is blank.
pub open spec fn has_blank_tag(tags: Seq<Seq<char>>) -> bool {
    exists|i: int| 0 <= i < tags.len() && trim(#[trigger] tags[i]).len() == 0
}

/// The tags of a registration, trimmed and without case-insensitive
/// repeats; `EmptyTag` when one of them is blank.
pub fn normalize_tags(name: &str, tags: &Vec<String>) -> (r: Result<Vec<String>, RegistryError>)
    ensures
        r is Err <==> has_blank_tag(strings_view(tags@)),
        r matches Ok(v) ==> strings_view(v@) == normalized_tags(strings_view(tags@)),
        r matches Err(e) ==> e matches RegistryError::EmptyTag { name: n } && n@ == name@,
{
    let ghost tv = strings_view(tags@);
    let mut out: Vec<String> = Vec::new();
    let mut i: usize = 0;
    while i < tags.len()
        invariant
            i <= tags.len(),
            tv == strings_view(tags@),
            strings_view(out@) == normalized_tags(tv.take(i as int)),
            !has_blank_tag(tv.take(i as int)),
        decreases tags.len() - i,
    {
        let t = trim_str(tags[i].as_str());
        proof {
            assert(tv.take(i + 1).drop_last() =~= tv.take(i as int));
            assert(tv.take(i + 1).last() == tv[i as int]);
        }
        if t.as_str().is_empty() {
            proof {
                assert(tv[i as int] == tags@[i as int]@);
                assert(trim(tv[i as int]).len() == 0);
            }
            return Err(RegistryError::EmptyTag { name: name.to_owned() });
        }
        let tc = chars_of(t.as_str());
        let mut found = false;
        let mut k: usize = 0;
        while k < out.len()
            invariant
                k <= out.len(),
                tc@ == t@,
                found == exists|j: int| 0 <= j < k && eq_ignore_ascii_case(#[trigger] strings_view(out@)[j], t@),
            decreases out.len() - k,
        {
            let ec = chars_of(out[k].as_str());
            assert(ec@ == strings_view(out@)[k as int]);
            if eq_ignore_ascii_case_exec(&ec, &tc) {
                found = true;
            }
            k += 1;
        }
        let ghost ob = out@;
        if !found {
            out.push(t);
            proof {
                assert(strings_view(out@) =~= strings_view(ob).push(t@));
            }
        }
        proof {
            assert forall|j: int| 0 <= j < i + 1 implies trim(#[trigger] tv.take(i + 1)[j]).len() != 0 by {
                if j < i {
                    assert(tv.take(i + 1)[j] == tv.take(i as int)[j]);
                }
            }
        }
        i += 1;
    }
    assert(tv.take(tags@.len() as int) =~= tv);
    Ok(out)
}

/// Turns a registration whose path resolved to `path` into a script. The
/// checks, in order: the name, that `path` is a file, that the command is
/// not blank and holds `{{path}}`, and that no tag is blank.
pub fn build_script(entry: &ScriptRegistration, path: String, is_file: bool) -> (r: Result<Script, RegistryError>)
    ensures
        !valid_script_name(entry.name@) ==> (r matches Err(RegistryError::InvalidScriptName { name })
            && name@ == entry.name@),
        valid_script_name(entry.name@) && !is_file ==> (r matches Err(
            RegistryError::MissingScriptFile { name, path: p },
        ) && name@ == entry.name@ && p@ == path@),
        valid_script_name(entry.name@) && is_file && trim(entry.command@).len() == 0 ==> (r matches Err(
            RegistryError::EmptyCommand { name },
        ) && name@ == entry.name@),
        valid_script_name(entry.name@) && is_file && trim(entry.command@).len() != 0 && !contains_sub(
            entry.command@,
            path_placeholder(),
        ) ==> (r matches Err(RegistryError::MissingPathPlaceholder { name }) && name@ == entry.name@),
        valid_script_name(entry.name@) && is_file && trim(entry.command@).len() != 0 && contains_sub(
            entry.command@,
            path_placeholder(),
        ) && has_blank_tag(strings_view(entry.tags@)) ==> (r matches Err(RegistryError::EmptyTag { name })
            && name@ == entry.name@),
        r is Ok <==> (valid_script_name(entry.name@) && is_file && trim(entry.command@).len() != 0
            && contains_sub(entry.command@, path_placeholder()) && !has_blank_tag(strings_view(entry.tags@))),
        r matches Ok(s) ==> s@ == (ScriptView {
            name: entry.name@,
            path: path@,
            command: entry.command@,
            comment: opt_string_view(entry.comment),
            tags: normalized_tags(strings_view(entry.tags@)),
        }),
{
    let name = match ScriptName::parse(entry.name.as_str()) {
        Some(n) => n,
        None => return Err(RegistryError::InvalidScriptName { name: copy_string(&entry.name) }),
    };
    if !is_file {
        return Err(RegistryError::MissingScriptFile { name: copy_string(&entry.name), path });
    }
    let trimmed = trim_str(entry.command.as_str());
    if trimmed.as_str().is_empty() {
        return Err(RegistryError::EmptyCommand { name: copy_string(&entry.name) });
    }
    let cv = chars_of(entry.command.as_str());
    let pv = chars_of("{{path}}");
    if !contains_exec(&cv, &pv) {
        return Err(RegistryError::MissingPathPlaceholder { name: copy_string(&entry.name) });
    }
    let tags = match normalize_tags(entry.name.as_str(), &entry.tags) {
        Ok(t) => t,
        Err(e) => return Err(e),
    };
    Ok(Script {
        name,
        path,
        command: copy_string(&entry.command),
        comment: copy_opt_string(&entry.comment),
        tags,
    })
}

/// The search limit of an `mcp` section must lie in `1..=10`.
pub fn validate_mcp_config(config: &ConfigFile) -> (r: Result<(), RegistryError>)
    ensures
        r is Ok <==> (config.mcp matches Some(m) ==> 1 <= m.search_limit <= MAX_MCP_SEARCH_LIMIT),
        r matches Err(e) ==> (e matches RegistryError::SearchLimitOutOfRange { limit } && config.mcp
            matches Some(m) && limit == m.search_limit),
{
    match &config.mcp {
        Some(m) => if 1 <= m.search_limit && m.search_limit <= MAX_MCP_SEARCH_LIMIT {
            Ok(())
        } else {
            Err(RegistryError::SearchLimitOutOfRange { limit: m.search_limit })
        },
        None => Ok(()),
    }
}

/// An imported registry file may declare neither imports nor `mcp`.
pub fn check_imported_config(path: &str, config: &ConfigFile) -> (r: Result<(), RegistryError>)
    ensures
        config.imports@.len() > 0 ==> (r matches Err(RegistryError::ImportDeclaresImports { path: p })
            && p@ == path@),
        config.imports@.len() == 0 && config.mcp is Some ==> (r matches Err(
            RegistryError::ImportDeclaresMcp { path: p },
        ) && p@ == path@),
        r is Ok <==> (config.imports@.len() == 0 && config.mcp is None),
{
    if config.imports.len() > 0 {
        return Err(RegistryError::ImportDeclaresImports { path: path.to_owned() });
    }
    if config.mcp.is_some() {
        return Err(RegistryError::ImportDeclaresMcp { path: path.to_owned() });
    }
    Ok(())
}

/// The global registry file written by `init`: the default search limit,
/// one import of `scripts.yaml`, and no scripts.
pub fn default_global_config() -> (c: ConfigFile)
    ensures
        c.mcp matches Some(m) && m.search_limit == DEFAULT_MCP_SEARCH_LIMIT,
        strings_view(c.imports@) == seq!["scripts.yaml"@],
        c.scripts@.len() == 0,
{
    let mut imports: Vec<String> = Vec::new();
    imports.push("scripts.yaml".to_owned());
    assert(strings_view(imports@) =~= seq!["scripts.yaml"@]);
    ConfigFile {
        mcp: Some(McpConfig { search_limit: DEFAULT_MCP_SEARCH_LIMIT }),
        imports,
        scripts: Vec::new(),
    }
}

/// The search limit configured in the global file, or the default.
pub fn configured_search_limit(global: &ConfigFile) -> (n: usize)
    ensures
        n == match global.mcp {
            Some(m) => m.search_limit,
            None => DEFAULT_MCP_SEARCH_LIMIT,
        },
{
    match &global.mcp {
        Some(m) => m.search_limit,
        None => DEFAULT_MCP_SEARCH_LIMIT,
    }
}

/// A path compared component by component: the separator sorts before
/// every other scalar.
pub open spec fn path_key(p: Seq<char>) -> Seq<char> {
    p.map_values(|c: char| if c == '/' { '\0' } else { c })
}

/// Registry order: by name, then by path.
pub open spec fn script_lt(a: ScriptView, b: ScriptView) -> bool {
    seq_lt(a.name, b.name) || (a.name == b.name && seq_lt(path_key(a.path), path_key(b.path)))
}

pub open spec fn same_key(a: ScriptView, b: ScriptView) -> bool {
    a.name == b.name && path_key(a.path) == path_key(b.path)
}

/// `out` is `input` in registry order, scripts with equal keys in input order.
pub open spec fn registry_sorted(input: Seq<ScriptView>, out: Seq<ScriptView>) -> bool {
    exists|idx: Seq<int>|
        #![trigger crate::sync::is_permutation(idx, input.len() as int)]
        crate::sync::is_permutation(idx, input.len() as int) && out.len() == input.len() && (forall|k: int|
            0 <= k < out.len() ==> #[trigger] out[k] == input[idx[k]]) && (forall|a: int, b: int|
            0 <= a < b < out.len() ==> script_lt(#[trigger] out[a], #[trigger] out[b]) || (same_key(out[a], out[b])
                && idx[a] < idx[b]))
}

fn path_key_exec(p: &str) -> (r: Vec<char>)
    ensures
        r@ == path_key(p@),
{
    let v = chars_of(p);
    let mut r: Vec<char> = Vec::new();
    let mut i: usize = 0;
    while i < v.len()
        invariant
            i <= v.len(),
            v@ == p@,
            r@ == path_key(v@.take(i as int)),
        decreases v.len() - i,
    {
        if v[i] == '/' {
            r.push('\0');
        } else {
            r.push(v[i]);
        }
        i += 1;
        assert(r@ =~= path_key(v@.take(i as int)));
    }
    assert(v@.take(v@.len() as int) =~= v@);
    r
}

fn script_lt_exec(a: &Script, b: &Script) -> (r: bool)
    ensures
        r == script_lt(a@, b@),
{
    let an = chars_of(a.name.as_str());
    let bn = chars_of(b.name.as_str());
    if chars_lt(&an, &bn) {
        return true;
    }
    if !chars_eq(&an, &bn) {
        return false;
    }
    let ap = path_key_exec(a.path.as_str());
    let bp = path_key_exec(b.path.as_str());
    chars_lt(&ap, &bp)
}

proof fn lemma_script_not_lt(a: ScriptView, x: ScriptView)
    requires
        !script_lt(x, a),
    ensures
        script_lt(a, x) || same_key(a, x),
{
    lemma_seq_lt_total(a.name, x.name);
    lemma_seq_lt_total(path_key(a.path), path_key(x.path));
}

proof fn lemma_script_lt_trans(x: ScriptView, y: ScriptView, z: ScriptView)
    requires
        script_lt(x, y),
        script_lt(y, z) || same_key(y, z),
    ensures
        script_lt(x, z),
{
    lemma_seq_lt_trans(x.name, y.name, z.name);
    lemma_seq_lt_trans(path_key(x.path), path_key(y.path), path_key(z.path));
}

/// Sorts scripts into registry order, keeping equal keys in input order.
pub fn sort_scripts(scripts: Vec<Script>) -> (out: Vec<Script>)
    ensures
        registry_sorted(scripts_view(scripts@), scripts_view(out@)),
{
    let ghost iv = scripts_view(scripts@);
    let ghost n = scripts@.len() as int;
    let len0 = scripts.len();
    assert(n == len0);
    let mut rest = scripts;
    let mut out: Vec<Script> = Vec::new();
    let ghost mut idx: Seq<int> = Seq::empty();
    let mut i: usize = 0;
    while rest.len() > 0
        invariant
            i <= n,
            n <= usize::MAX,
            iv.len() == n,
            rest@.len() == n - i,
            forall|j: int| 0 <= j < n - i ==> #[trigger] rest@[j]@ == iv[i + j],
            out@.len() == i,
            idx.len() == i,
            forall|k: int| 0 <= k < i ==> 0 <= #[trigger] idx[k] < i,
            forall|a: int, b: int| 0 <= a < b < i ==> #[trigger] idx[a] != #[trigger] idx[b],
            forall|k: int| 0 <= k < i ==> #[trigger] scripts_view(out@)[k] == iv[idx[k]],
            forall|a: int, b: int| 0 <= a < b < i ==> script_lt(#[trigger] scripts_view(out@)[a], #[trigger] scripts_view(out@)[b])
                || (same_key(scripts_view(out@)[a], scripts_view(out@)[b]) && idx[a] < idx[b]),
        decreases rest@.len(),
    {
        let ghost rb = rest@;
        let s = rest.remove(0);
        proof {
            assert forall|j: int| 0 <= j < n - i - 1 implies #[trigger] rest@[j]@ == iv[i + 1 + j] by {
                assert(rest@[j] == rb[j + 1]);
                assert(rb[j + 1]@ == iv[i + (j + 1)]);
            }
            assert(rb[0]@ == iv[i + 0]);
        }
        let mut p: usize = 0;
        while p < out.len()
            invariant
                p <= out.len(),
                forall|a: int| 0 <= a < p ==> !script_lt(s@, #[trigger] scripts_view(out@)[a]),
            ensures
                p <= out.len(),
                forall|a: int| 0 <= a < p ==> !script_lt(s@, #[trigger] scripts_view(out@)[a]),
                p < out.len() ==> script_lt(s@, scripts_view(out@)[p as int]),
            decreases out.len() - p,
        {
            if script_lt_exec(&s, &out[p]) {
                break;
            }
            p += 1;
        }
        let ghost ob = scripts_view(out@);
        let ghost ib = idx;
        out.insert(p, s);
        proof {
            idx = ib.insert(p as int, i as int);
            let ov = scripts_view(out@);
            assert(ov =~= ob.insert(p as int, s@));
            assert forall|k: int| 0 <= k < i + 1 implies 0 <= #[trigger] idx[k] < i + 1 by {
                if k < p { assert(idx[k] == ib[k]); } else if k > p { assert(idx[k] == ib[k - 1]); }
            }
            assert forall|a: int, b: int| 0 <= a < b < i + 1 implies #[trigger] idx[a] != #[trigger] idx[b] by {
                if a < p && b < p { assert(idx[a] == ib[a] && idx[b] == ib[b]); }
                else if a < p && b == p { assert(idx[a] == ib[a]); }
                else if a < p { assert(idx[a] == ib[a] && idx[b] == ib[b - 1]); }
                else if a == p { assert(idx[b] == ib[b - 1]); }
                else { assert(idx[a] == ib[a - 1] && idx[b] == ib[b - 1]); }
            }
            assert forall|k: int| 0 <= k < i + 1 implies #[trigger] ov[k] == iv[idx[k]] by {
                if k < p { assert(ov[k] == ob[k] && idx[k] == ib[k]); }
                else if k > p { assert(ov[k] == ob[k - 1] && idx[k] == ib[k - 1]); }
            }
            assert forall|a: int, b: int| 0 <= a < b < i + 1 implies script_lt(#[trigger] ov[a], #[trigger] ov[b])
                || (same_key(ov[a], ov[b]) && idx[a] < idx[b]) by {
                let x = s@;
                if a < p && b < p {
                    assert(ov[a] == ob[a] && ov[b] == ob[b] && idx[a] == ib[a] && idx[b] == ib[b]);
                } else if a < p && b == p {
                    assert(ov[a] == ob[a] && idx[a] == ib[a]);
                    lemma_script_not_lt(ob[a], x);
                } else if a < p {
                    assert(ov[a] == ob[a] && ov[b] == ob[b - 1] && idx[a] == ib[a] && idx[b] == ib[b - 1]);
                } else if a == p {
                    assert(ov[b] == ob[b - 1]);
                    if b - 1 > p {
                        lemma_script_lt_trans(x, ob[p as int], ob[b - 1]);
                    }
                } else {
                    assert(ov[a] == ob[a - 1] && ov[b] == ob[b - 1] && idx[a] == ib[a - 1] && idx[b] == ib[b - 1]);
                }
            }
        }
        i += 1;
    }
    proof {
        assert(crate::sync::is_permutation(idx, n));
        assert(scripts_view(out@).len() == iv.len());
    }
    out
}

/// The first script whose name an earlier script already has.
pub open spec fn first_repeat(v: Seq<ScriptView>, k: int) -> Option<int>
    decreases k,
{
    if k <= 0 {
        None
    } else {
        match first_repeat(v, k - 1) {
            Some(i) => Some(i),
            None => if exists|j: int| 0 <= j < k - 1 && #[trigger] v[j].name == v[k - 1].name {
                Some(k - 1)
            } else {
                None
            },
        }
    }
}

/// The first script before `i` named like script `i`.
pub open spec fn first_with_name(v: Seq<ScriptView>, name: Seq<char>, k: int) -> int
    decreases k,
{
    if k <= 0 {
        -1
    } else {
        let r = first_with_name(v, name, k - 1);
        if r >= 0 {
            r
        } else if v[k - 1].name == name {
            k - 1
        } else {
            -1
        }
    }
}

proof fn lemma_first_repeat_stable(v: Seq<ScriptView>, k: int, n: int)
    requires
        0 <= k <= n,
        first_repeat(v, k) is Some,
    ensures
        first_repeat(v, n) == first_repeat(v, k),
    decreases n - k,
{
    if n > k {
        lemma_first_repeat_stable(v, k, n - 1);
    }
}

/// Names must be unique: the error names the first script, in order, whose
/// name an earlier one has, and the first script with that name.
pub fn validate_unique_names(scripts: &Vec<Script>) -> (r: Result<(), RegistryError>)
    ensures
        r is Ok <==> first_repeat(scripts_view(scripts@), scripts@.len() as int) is None,
        r matches Err(e) ==> (e matches RegistryError::DuplicateName { name, first, second } && first_repeat(
            scripts_view(scripts@),
            scripts@.len() as int,
        ) matches Some(i) && name@ == scripts@[i].name@ && second@ == scripts@[i].path@ && first@
            == scripts@[first_with_name(scripts_view(scripts@), scripts@[i].name@, i)].path@ && 0
            <= first_with_name(scripts_view(scripts@), scripts@[i].name@, i) < i),
{
    let ghost v = scripts_view(scripts@);
    let n = scripts.len();
    let mut i: usize = 0;
    while i < n
        invariant
            i <= n,
            n == scripts@.len(),
            v == scripts_view(scripts@),
            first_repeat(v, i as int) is None,
        decreases n - i,
    {
        let mut j: usize = 0;
        let mut found: Option<usize> = None;
        while j < i
            invariant
                j <= i < n,
                n == scripts@.len(),
                v == scripts_view(scripts@),
                found is None ==> forall|m: int| 0 <= m < j ==> #[trigger] v[m].name != v[i as int].name,
                found is None ==> first_with_name(v, v[i as int].name, j as int) == -1,
                found matches Some(f) ==> f < i && v[f as int].name == v[i as int].name && first_with_name(
                    v,
                    v[i as int].name,
                    j as int,
                ) == f,
            decreases i - j,
        {
            if found.is_none() && str_eq(scripts[j].name.as_str(), scripts[i].name.as_str()) {
                found = Some(j);
            }
            j += 1;
        }
        match found {
            Some(f) => {
                assert(v[f as int].name == v[i as int].name);
                assert(first_repeat(v, i + 1) == Some(i as int));
                proof {
                    lemma_first_repeat_stable(v, i as int + 1, n as int);
                }
                return Err(RegistryError::DuplicateName {
                    name: copy_string(&scripts[i].name.name),
                    first: copy_string(&scripts[f].path),
                    second: copy_string(&scripts[i].path),
                });
            },
            None => {},
        }
        i += 1;
    }
    Ok(())
}

/// The registry made of the scripts of all files: sorted into registry
/// order, checked for repeated names, with the configured search limit.
pub fn finish_registry(scripts: Vec<Script>, search_limit: usize) -> (r: Result<LoadedRegistry, RegistryError>)
    ensures
        exists|sorted: Seq<ScriptView>|
            #![trigger registry_sorted(scripts_view(scripts@), sorted)]
            registry_sorted(scripts_view(scripts@), sorted) && (r is Ok <==> first_repeat(sorted, sorted.len() as int) is None)
                && (r matches Ok(l) ==> scripts_view(l.scripts@) == sorted && l.mcp_search_limit == search_limit),
{
    let sorted = sort_scripts(scripts);
    match validate_unique_names(&sorted) {
        Ok(()) => Ok(LoadedRegistry { scripts: sorted, mcp_search_limit: search_limit }),
        Err(e) => Err(e),
    }
}

} // verus!
