//! What the MCP server says about registered scripts: resource URIs,
//! source MIME types, checked search requests and their responses.
use vstd::prelude::*;
use crate::config::{copy_opt_string, copy_strings, opt_string_view, strings_view};
use crate::paths::{extension_of, file_extension, file_name_of};
use crate::registry::{Script, ScriptName, ScriptView, scripts_view, valid_script_name};
use crate::search::{matches_view, opt_str_view, result_limit, search_candidates, search_skills};
use crate::text::{chars_of, decimal, decimal_string, push_str, starts_with, string_of_range, trim, trim_str};

verus! {

pub open spec fn scripts_prefix() -> Seq<char> {
    "sks://scripts/"@
}

pub open spec fn source_suffix() -> Seq<char> {
    "/source"@
}

/// URI of a script's metadata resource.
pub fn details_uri(name: &ScriptName) -> (r: String)
    ensures
        r@ == scripts_prefix() + name@,
{
    let mut s = "sks://scripts/".to_owned();
    push_str(&mut s, name.as_str());
    s
}

/// URI of a script's source resource.
pub fn source_uri(name: &ScriptName) -> (r: String)
    ensures
        r@ == scripts_prefix() + name@ + source_suffix(),
{
    let mut s = details_uri(name);
    push_str(&mut s, "/source");
    s
}

/// Index of the first `/` in `s`, or its length.
pub open spec fn first_slash(s: Seq<char>, from: int) -> int
    decreases s.len() - from,
{
    if from < 0 || from >= s.len() {
        s.len() as int
    } else if s[from] == '/' {
        from
    } else {
        first_slash(s, from + 1)
    }
}

/// A script resource URI: `sks://scripts/<name>` for metadata and
/// `sks://scripts/<name>/source` for the source, `<name>` being a valid
/// script name. Gives the name and whether the source is meant.
pub open spec fn script_uri(uri: Seq<char>) -> Option<(Seq<char>, bool)> {
    if !starts_with(uri, scripts_prefix()) {
        None
    } else {
        let rest = uri.subrange(scripts_prefix().len() as int, uri.len() as int);
        let k = first_slash(rest, 0);
        let name = rest.subrange(0, k);
        let suffix = if k < rest.len() {
            rest.subrange(k + 1, rest.len() as int)
        } else {
            Seq::empty()
        };
        if !valid_script_name(name) {
            None
        } else if suffix.len() == 0 {
            Some((name, false))
        } else if suffix == "source"@ {
            Some((name, true))
        } else {
            None
        }
    }
}

/// Parses a script resource URI.
pub fn parse_script_uri(uri: &str) -> (r: Option<(ScriptName, bool)>)
    ensures
        match r {
            Some((n, src)) => script_uri(uri@) == Some((n@, src)),
            None => script_uri(uri@) is None,
        },
{
    let v = chars_of(uri);
    let p = chars_of("sks://scripts/");
    if !crate::text::starts_with_exec(&v, &p) {
        return None;
    }
    let ghost rest = uri@.subrange(scripts_prefix().len() as int, uri@.len() as int);
    let start = p.len();
    let mut k: usize = start;
    while k < v.len() && v[k] != '/'
        invariant
            start <= k <= v.len(),
            v@ == uri@,
            p@ == scripts_prefix(),
            start == scripts_prefix().len(),
            rest == v@.subrange(start as int, v@.len() as int),
            first_slash(rest, k - start) == first_slash(rest, 0),
        decreases v.len() - k,
    {
        k += 1;
    }
    let name = string_of_range(&v, start, k);
    assert(name@ =~= rest.subrange(0, k - start));
    let suffix = if k < v.len() {
        string_of_range(&v, k + 1, v.len())
    } else {
        String::new()
    };
    proof {
        if k < v.len() {
            assert(suffix@ =~= rest.subrange(k - start + 1, rest.len() as int));
        }
    }
    let parsed = match ScriptName::parse(name.as_str()) {
        Some(n) => n,
        None => return None,
    };
    if suffix.as_str().is_empty() {
        return Some((parsed, false));
    }
    let sv = chars_of(suffix.as_str());
    let src = chars_of("source");
    if crate::text::chars_eq(&sv, &src) {
        Some((parsed, true))
    } else {
        None
    }
}

/// The MIME type given to a script's source, by the extension of its
/// file name.
pub open spec fn mime_for(ext: Option<Seq<char>>) -> Seq<char> {
    match ext {
        Some(e) => if e == "py"@ {
            "text/x-python"@
        } else if e == "rs"@ {
            "text/x-rust"@
        } else if e == "js"@ || e == "mjs"@ || e == "cjs"@ {
            "text/javascript"@
        } else if e == "ts"@ || e == "mts"@ || e == "cts"@ {
            "text/typescript"@
        } else if e == "sh"@ || e == "bash"@ {
            "text/x-shellscript"@
        } else if e == "ps1"@ {
            "text/x-powershell"@
        } else {
            "text/plain"@
        },
        None => "text/plain"@,
    }
}

fn is(s: &str, lit: &str) -> (b: bool)
    ensures
        b == (s@ == lit@),
{
    crate::text::str_eq(s, lit)
}

/// The MIME type of a script's source.
pub fn source_mime(script: &Script) -> (r: &'static str)
    ensures
        r@ == mime_for(
            match file_name_of(script.path@) {
                Some(n) => extension_of(n),
                None => None,
            },
        ),
{
    match file_extension(script.path.as_str()) {
        Some(e) => {
            let e = e.as_str();
            if is(e, "py") {
                "text/x-python"
            } else if is(e, "rs") {
                "text/x-rust"
            } else if is(e, "js") || is(e, "mjs") || is(e, "cjs") {
                "text/javascript"
            } else if is(e, "ts") || is(e, "mts") || is(e, "cts") {
                "text/typescript"
            } else if is(e, "sh") || is(e, "bash") {
                "text/x-shellscript"
            } else if is(e, "ps1") {
                "text/x-powershell"
            } else {
                "text/plain"
            }
        },
        None => "text/plain",
    }
}

/// Why a search request was refused.
pub enum SearchRequestError {
    /// Neither a non-blank query nor a non-blank tag was given.
    NothingToSearch,
    /// The limit is zero.
    LimitOutOfRange,
}

/// The non-blank tags, trimmed, in order.
pub open spec fn clean_tags(tags: Seq<Seq<char>>) -> Seq<Seq<char>>
    decreases tags.len(),
{
    if tags.len() == 0 {
        Seq::empty()
    } else {
        let r = clean_tags(tags.drop_last());
        if trim(tags.last()).len() > 0 {
            r.push(trim(tags.last()))
        } else {
            r
        }
    }
}

/// A requested limit, when given, is at least one; one above ten is
/// accepted and capped at ten by the search (see `result_limit`).
pub open spec fn limit_ok(limit: Option<usize>) -> bool {
    match limit {
        Some(l) => 1 <= l,
        None => true,
    }
}

/// Checks a search request: it needs a non-blank query or a non-blank tag,
/// and a limit, when given, of at least one. Gives the cleaned tags.
pub fn validate_search_request(query: Option<&str>, tags: &Vec<String>, limit: Option<usize>) -> (r: Result<Vec<String>, SearchRequestError>)
    ensures
        ({
            let has_query = match opt_str_view(query) {
                Some(q) => trim(q).len() > 0,
                None => false,
            };
            let ct = clean_tags(strings_view(tags@));
            &&& (!has_query && ct.len() == 0) ==> (r matches Err(SearchRequestError::NothingToSearch))
            &&& ((has_query || ct.len() > 0) && !limit_ok(limit)) ==> (r matches Err(SearchRequestError::LimitOutOfRange))
            &&& r is Ok <==> ((has_query || ct.len() > 0) && limit_ok(limit))
            &&& (r matches Ok(t) ==> strings_view(t@) == ct)
        }),
{
    let has_query = match query {
        Some(q) => {
            let t = trim_str(q);
            !t.as_str().is_empty()
        },
        None => false,
    };
    let ghost tv = strings_view(tags@);
    let mut cleaned: Vec<String> = Vec::new();
    let mut i: usize = 0;
    while i < tags.len()
        invariant
            i <= tags.len(),
            tv == strings_view(tags@),
            strings_view(cleaned@) == clean_tags(tv.take(i as int)),
        decreases tags.len() - i,
    {
        proof {
            assert(tv.take(i + 1).drop_last() =~= tv.take(i as int));
            assert(tv.take(i + 1).last() == tv[i as int]);
        }
        let t = trim_str(tags[i].as_str());
        if !t.as_str().is_empty() {
            let ghost cb = cleaned@;
            cleaned.push(t);
            assert(strings_view(cleaned@) =~= strings_view(cb).push(t@));
        }
        i += 1;
    }
    assert(tv.take(tags@.len() as int) =~= tv);
    if !has_query && cleaned.len() == 0 {
        return Err(SearchRequestError::NothingToSearch);
    }
    match limit {
        Some(l) => if l < 1 {
            return Err(SearchRequestError::LimitOutOfRange);
        },
        None => {},
    }
    Ok(cleaned)
}

/// The message sent with search results.
pub open spec fn search_message(n: nat) -> Seq<char> {
    if n == 0 {
        "No matching registered scripts found."@
    } else {
        "Found "@ + decimal(n) + " matching registered script(s)."@
    }
}

pub fn search_message_text(n: usize) -> (r: String)
    ensures
        r@ == search_message(n as nat),
{
    if n == 0 {
        "No matching registered scripts found.".to_owned()
    } else {
        let mut s = "Found ".to_owned();
        let d = decimal_string(n as u64);
        push_str(&mut s, d.as_str());
        push_str(&mut s, " matching registered script(s).");
        s
    }
}

/// A script as described to agents.
pub struct ScriptMatch {
    pub name: String,
    pub description: Option<String>,
    pub tags: Vec<String>,
    pub usage: String,
    pub command_template: String,
    pub details_uri: String,
    pub source_uri: String,
}

/// The description of `script` given to agents: its name, comment and
/// tags, how to run it, its command and its resource URIs.
pub fn script_match(script: &Script) -> (m: ScriptMatch)
    ensures
        m.name@ == script@.name,
        opt_string_view(m.description) == script@.comment,
        strings_view(m.tags@) == script@.tags,
        m.usage@ == "sks run "@ + script@.name + " [args...]"@,
        m.command_template@ == script@.command,
        m.details_uri@ == scripts_prefix() + script@.name,
        m.source_uri@ == scripts_prefix() + script@.name + source_suffix(),
{
    let mut usage = "sks run ".to_owned();
    push_str(&mut usage, script.name.as_str());
    push_str(&mut usage, " [args...]");
    ScriptMatch {
        name: script.name.name.clone(),
        description: copy_opt_string(&script.comment),
        tags: copy_strings(&script.tags),
        usage,
        command_template: script.command.clone(),
        details_uri: details_uri(&script.name),
        source_uri: source_uri(&script.name),
    }
}

/// The answer to a search request.
pub struct SearchScriptsResponse {
    pub matches: Vec<ScriptMatch>,
    pub message: String,
}

/// `m` describes the script `s` as [`script_match`] does.
pub open spec fn describes(m: ScriptMatch, s: ScriptView) -> bool {
    &&& m.name@ == s.name
    &&& opt_string_view(m.description) == s.comment
    &&& strings_view(m.tags@) == s.tags
    &&& m.usage@ == "sks run "@ + s.name + " [args...]"@
    &&& m.command_template@ == s.command
    &&& m.details_uri@ == scripts_prefix() + s.name
    &&& m.source_uri@ == scripts_prefix() + s.name + source_suffix()
}

/// Answers a checked search request against the loaded scripts: the
/// ranked matches, as many as the request's limit (or the registry's
/// default) allows, each described as by [`script_match`], and a message
/// with their number.
pub fn search_scripts_response(
    scripts: &Vec<Script>,
    default_limit: usize,
    query: Option<&str>,
    tags: &Vec<String>,
    limit: Option<usize>,
) -> (r: SearchScriptsResponse)
    ensures
        r.message@ == search_message(r.matches@.len() as nat),
        exists|full: Seq<(int, int)>|
            #![trigger crate::search::ranked(scripts_view(scripts@), search_candidates(scripts_view(scripts@), opt_str_view(query), strings_view(tags@)), full)]
            crate::search::ranked(
                scripts_view(scripts@),
                search_candidates(scripts_view(scripts@), opt_str_view(query), strings_view(tags@)),
                full,
            ) && r.matches@.len() == (if full.len() < result_limit(Some(effective_limit(default_limit, limit))) {
                full.len() as int
            } else {
                result_limit(Some(effective_limit(default_limit, limit)))
            }) && forall|k: int|
                0 <= k < r.matches@.len() ==> describes(#[trigger] r.matches@[k], scripts_view(scripts@)[full[k].0]),
{
    let lim = match limit {
        Some(l) => l,
        None => default_limit,
    };
    let found = search_skills(scripts, query, tags, Some(lim));
    let ghost fv = matches_view(found@);
    let mut matches: Vec<ScriptMatch> = Vec::new();
    let mut i: usize = 0;
    while i < found.len()
        invariant
            i <= found.len(),
            matches@.len() == i,
            fv == matches_view(found@),
            forall|k: int| 0 <= k < found@.len() ==> (#[trigger] found@[k]).index < scripts@.len(),
            forall|k: int| 0 <= k < i ==> describes(#[trigger] matches@[k], scripts_view(scripts@)[fv[k].0]),
        decreases found.len() - i,
    {
        let m = script_match(&scripts[found[i].index]);
        matches.push(m);
        i += 1;
    }
    let message = search_message_text(matches.len());
    proof {
        let sv = scripts_view(scripts@);
        let cands = search_candidates(sv, opt_str_view(query), strings_view(tags@));
        let rl = result_limit(Some(lim));
        let full = choose|full: Seq<(int, int)>| crate::search::ranked(sv, cands, full) && matches_view(found@) == full.take(
            if full.len() < rl { full.len() as int } else { rl });
        assert(crate::search::ranked(sv, cands, full));
        let n = if full.len() < rl { full.len() as int } else { rl };
        assert(fv == full.take(n));
        assert(fv.len() == n);
        assert forall|k: int| 0 <= k < matches@.len() implies describes(#[trigger] matches@[k], sv[full[k].0]) by {
            assert(fv[k] == full[k]);
        }
        assert(matches@.len() == n);
    }
    SearchScriptsResponse { matches, message }
}

/// The URI of the registry resource.
pub open spec fn registry_uri() -> Seq<char> {
    "sks://registry"@
}

/// What a resource URI asks for.
pub enum ResourceRequest {
    /// The summary of every registered script.
    Registry,
    /// The metadata of the script at this position.
    Details(usize),
    /// The source of the script at this position.
    Source(usize),
    /// A script URI naming no registered script.
    UnknownScript,
    /// A URI of no known form.
    UnknownUri,
}

/// The position of the first script named `name`, or `None`.
pub open spec fn first_named(scripts: Seq<ScriptView>, name: Seq<char>, k: int) -> Option<int>
    decreases k,
{
    if k <= 0 {
        None
    } else {
        match first_named(scripts, name, k - 1) {
            Some(i) => Some(i),
            None => if scripts[k - 1].name == name {
                Some(k - 1)
            } else {
                None
            },
        }
    }
}

/// What `uri` asks for among `scripts`: the registry, or the metadata or
/// source of the first script with the name a script URI carries.
pub open spec fn resource_request(uri: Seq<char>, scripts: Seq<ScriptView>) -> ResourceRequest {
    if uri == registry_uri() {
        ResourceRequest::Registry
    } else {
        match script_uri(uri) {
            None => ResourceRequest::UnknownUri,
            Some((name, source)) => match first_named(scripts, name, scripts.len() as int) {
                None => ResourceRequest::UnknownScript,
                Some(i) => if source {
                    ResourceRequest::Source(i as usize)
                } else {
                    ResourceRequest::Details(i as usize)
                },
            },
        }
    }
}

/// Routes a resource read: see [`resource_request`].
pub fn route_resource(uri: &str, scripts: &Vec<Script>) -> (r: ResourceRequest)
    ensures
        r == resource_request(uri@, scripts_view(scripts@)),
        r matches ResourceRequest::Details(i) ==> i < scripts@.len(),
        r matches ResourceRequest::Source(i) ==> i < scripts@.len(),
{
    proof {
        reveal_strlit("sks://registry");
    }
    if crate::text::str_eq(uri, "sks://registry") {
        return ResourceRequest::Registry;
    }
    let ghost sv = scripts_view(scripts@);
    match parse_script_uri(uri) {
        None => ResourceRequest::UnknownUri,
        Some((name, source)) => {
            let mut i: usize = 0;
            while i < scripts.len()
                invariant
                    i <= scripts.len(),
                    sv == scripts_view(scripts@),
                    uri@ != registry_uri(),
                    script_uri(uri@) == Some((name@, source)),
                    first_named(sv, name@, i as int) is None,
                decreases scripts.len() - i,
            {
                if crate::text::str_eq(scripts[i].name.as_str(), name.as_str()) {
                    proof {
                        assert(sv[i as int] == scripts@[i as int]@);
                        assert(sv[i as int].name == name@);
                        assert(uri@ != registry_uri());
                        lemma_first_named_found(sv, name@, i as int);
                        lemma_first_named_stable(sv, name@, i + 1, sv.len() as int);
                    }
                    return if source {
                        ResourceRequest::Source(i)
                    } else {
                        ResourceRequest::Details(i)
                    };
                }
                i += 1;
            }
            ResourceRequest::UnknownScript
        },
    }
}

proof fn lemma_first_named_found(s: Seq<ScriptView>, name: Seq<char>, i: int)
    requires
        0 <= i < s.len(),
        first_named(s, name, i) is None,
        s[i].name == name,
    ensures
        first_named(s, name, i + 1) == Some(i),
{
}

proof fn lemma_first_named_stable(s: Seq<ScriptView>, name: Seq<char>, a: int, b: int)
    requires
        0 <= a <= b,
        first_named(s, name, a) is Some,
    ensures
        first_named(s, name, b) == first_named(s, name, a),
    decreases b - a,
{
    if b > a {
        lemma_first_named_stable(s, name, a, b - 1);
    }
}

/// The limit a search uses: the request's, or the registry default.
pub open spec fn effective_limit(default_limit: usize, limit: Option<usize>) -> usize {
    match limit {
        Some(l) => l,
        None => default_limit,
    }
}

} // verus!
