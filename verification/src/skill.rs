//! The indexed skill model: headers parsed from source files, the skills
//! built from them, the parameter schema offered to agents, parse errors
//! and the index itself.
use vstd::prelude::*;
use crate::config::{copy_opt_string, copy_string, copy_strings, opt_string_view, strings_view};
use crate::order::{lemma_seq_lt_total, lemma_seq_lt_trans};
use crate::text::{chars_lt, chars_of, seq_lt};
use crate::paths::{file_stem, file_stem_of};
use crate::text::{decimal, decimal_string};
use crate::tool_name::{auto_tool_name, build_auto_tool_name};

verus! {

/// A parameter declared in a skill header.
pub struct ArgDef {
    pub arg_type: String,
    pub description: String,
    pub required: bool,
}

pub struct ArgDefView {
    pub arg_type: Seq<char>,
    pub description: Seq<char>,
    pub required: bool,
}

impl View for ArgDef {
    type V = ArgDefView;

    open spec fn view(&self) -> ArgDefView {
        ArgDefView { arg_type: self.arg_type@, description: self.description@, required: self.required }
    }
}

/// The YAML header of a skill file. `args` lists each declared parameter
/// once, keyed by its name.
pub struct SkillHeader {
    pub name: String,
    pub description: String,
    pub tags: Vec<String>,
    pub version: Option<String>,
    pub command_template: Option<String>,
    pub tool_name: Option<String>,
    pub args: Vec<(String, ArgDef)>,
}

pub open spec fn args_view(args: Seq<(String, ArgDef)>) -> Seq<(Seq<char>, ArgDefView)> {
    args.map_values(|a: (String, ArgDef)| (a.0@, a.1@))
}

/// No parameter name occurs twice.
pub open spec fn distinct_arg_names(args: Seq<(Seq<char>, ArgDefView)>) -> bool {
    forall|i: int, j: int| 0 <= i < j < args.len() ==> (#[trigger] args[i]).0 != (#[trigger] args[j]).0
}

/// One property of the JSON-schema-like parameter description.
pub struct ParamProperty {
    pub name: String,
    pub arg_type: String,
    pub description: String,
}

/// Parameter description offered to agents: the properties in name order
/// and the names of the required ones.
pub struct ParamSchema {
    pub properties: Vec<ParamProperty>,
    pub required: Vec<String>,
}

pub struct ParamSchemaView {
    pub properties: Seq<(Seq<char>, Seq<char>, Seq<char>)>,
    pub required: Seq<Seq<char>>,
}

impl View for ParamSchema {
    type V = ParamSchemaView;

    open spec fn view(&self) -> ParamSchemaView {
        ParamSchemaView {
            properties: self.properties@.map_values(
                |p: ParamProperty| (p.name@, p.arg_type@, p.description@),
            ),
            required: strings_view(self.required@),
        }
    }
}

/// A skill as stored in the index.
pub struct Skill {
    pub name: String,
    pub description: String,
    pub path: String,
    pub tags: Vec<String>,
    pub command_template: Option<String>,
    pub parameters: Option<ParamSchema>,
    pub checksum: Option<String>,
    pub tool_name: Option<String>,
}

pub struct SkillView {
    pub name: Seq<char>,
    pub description: Seq<char>,
    pub path: Seq<char>,
    pub tags: Seq<Seq<char>>,
    pub command_template: Option<Seq<char>>,
    pub parameters: Option<ParamSchemaView>,
    pub checksum: Option<Seq<char>>,
    pub tool_name: Option<Seq<char>>,
}

pub open spec fn opt_schema_view(p: Option<ParamSchema>) -> Option<ParamSchemaView> {
    match p {
        Some(s) => Some(s@),
        None => None,
    }
}

impl View for Skill {
    type V = SkillView;

    open spec fn view(&self) -> SkillView {
        SkillView {
            name: self.name@,
            description: self.description@,
            path: self.path@,
            tags: strings_view(self.tags@),
            command_template: opt_string_view(self.command_template),
            parameters: opt_schema_view(self.parameters),
            checksum: opt_string_view(self.checksum),
            tool_name: opt_string_view(self.tool_name),
        }
    }
}

pub open spec fn skills_view(v: Seq<Skill>) -> Seq<SkillView> {
    v.map_values(|s: Skill| s@)
}

/// The parameter properties of `args` in order of their names.
pub open spec fn properties_of(args: Seq<(Seq<char>, ArgDefView)>) -> Seq<(Seq<char>, Seq<char>, Seq<char>)> {
    args.map_values(|a: (Seq<char>, ArgDefView)| (a.0, a.1.arg_type, a.1.description))
}

pub open spec fn names_strictly_sorted(p: Seq<(Seq<char>, Seq<char>, Seq<char>)>) -> bool {
    forall|i: int, j: int| 0 <= i < j < p.len() ==> seq_lt((#[trigger] p[i]).0, (#[trigger] p[j]).0)
}

/// Names of the required parameters, in the order of the properties.
pub open spec fn required_names(props: Seq<(Seq<char>, Seq<char>, Seq<char>)>, args: Seq<(Seq<char>, ArgDefView)>) -> Seq<Seq<char>>
    decreases props.len(),
{
    if props.len() == 0 {
        Seq::empty()
    } else {
        let rest = required_names(props.drop_last(), args);
        if exists|k: int| 0 <= k < args.len() && args[k].0 == props.last().0 && args[k].1.required {
            rest.push(props.last().0)
        } else {
            rest
        }
    }
}

/// The schema built from `args`: every parameter once, ordered by name,
/// and the required names in the same order.
pub open spec fn schema_of(args: Seq<(Seq<char>, ArgDefView)>, s: ParamSchemaView) -> bool {
    &&& s.properties.len() == args.len()
    &&& forall|i: int| 0 <= i < args.len() ==> #[trigger] s.properties.contains(properties_of(args)[i])
    &&& names_strictly_sorted(s.properties)
    &&& s.required == required_names(s.properties, args)
}

/// The names of `args` in the order given by `order` are strictly increasing.
pub open spec fn order_sorted(av: Seq<(Seq<char>, ArgDefView)>, order: Seq<usize>) -> bool {
    forall|a: int, b: int|
        0 <= a < b < order.len() ==> seq_lt(av[(#[trigger] order[a]) as int].0, av[(#[trigger] order[b]) as int].0)
}

/// `x` occurs in `order`.
pub open spec fn has_index(order: Seq<usize>, x: int) -> bool {
    exists|k: int| 0 <= k < order.len() && order[k] == x
}

/// Where the parameter `x` goes in `order` so that names stay increasing.
fn insertion_point(names: &Vec<Vec<char>>, order: &Vec<usize>, x: usize, Ghost(av): Ghost<Seq<(Seq<char>, ArgDefView)>>) -> (p: usize)
    requires
        x < names.len(),
        names.len() == av.len(),
        forall|k: int| 0 <= k < names.len() ==> (#[trigger] names@[k])@ == av[k].0,
        distinct_arg_names(av),
        forall|k: int| 0 <= k < order.len() ==> (#[trigger] order@[k]) < x,
        order_sorted(av, order@),
    ensures
        p <= order.len(),
        forall|a: int| 0 <= a < p ==> seq_lt(av[(#[trigger] order@[a]) as int].0, av[x as int].0),
        forall|a: int| p <= a < order.len() ==> seq_lt(av[x as int].0, av[(#[trigger] order@[a]) as int].0),
{
    let mut p: usize = 0;
    while p < order.len()
        invariant
            p <= order.len(),
            x < names.len(),
            names.len() == av.len(),
            forall|k: int| 0 <= k < names.len() ==> (#[trigger] names@[k])@ == av[k].0,
            distinct_arg_names(av),
            forall|k: int| 0 <= k < order.len() ==> (#[trigger] order@[k]) < x,
            forall|a: int| 0 <= a < p ==> seq_lt(av[(#[trigger] order@[a]) as int].0, av[x as int].0),
        ensures
            p <= order.len(),
            forall|a: int| 0 <= a < p ==> seq_lt(av[(#[trigger] order@[a]) as int].0, av[x as int].0),
            p < order.len() ==> seq_lt(av[x as int].0, av[order@[p as int] as int].0),
        decreases order.len() - p,
    {
        let o = order[p];
        if chars_lt(&names[x], &names[o]) {
            break;
        }
        proof {
            let ni = av[x as int].0;
            let no = av[o as int].0;
            assert(av[o as int].0 != av[x as int].0);
            lemma_seq_lt_total(no, ni);
        }
        p += 1;
    }
    proof {
        if p < order.len() {
            assert forall|a: int| p <= a < order.len() implies seq_lt(av[x as int].0, av[(#[trigger] order@[a]) as int].0) by {
                if a > p {
                    lemma_seq_lt_trans(av[x as int].0, av[order@[p as int] as int].0, av[order@[a] as int].0);
                }
            }
        }
    }
    p
}

/// View of the properties built so far.
pub open spec fn props_view(v: Seq<ParamProperty>) -> Seq<(Seq<char>, Seq<char>, Seq<char>)> {
    v.map_values(|p: ParamProperty| (p.name@, p.arg_type@, p.description@))
}

/// Builds the parameter schema of a header's arguments.
pub fn build_parameters_schema(args: &Vec<(String, ArgDef)>) -> (s: ParamSchema)
    requires
        distinct_arg_names(args_view(args@)),
    ensures
        schema_of(args_view(args@), s@),
{
    let ghost av = args_view(args@);
    let mut names: Vec<Vec<char>> = Vec::new();
    let mut i: usize = 0;
    while i < args.len()
        invariant
            i <= args.len(),
            av == args_view(args@),
            names@.len() == i,
            forall|k: int| 0 <= k < i ==> (#[trigger] names@[k])@ == av[k].0,
        decreases args.len() - i,
    {
        names.push(chars_of(args[i].0.as_str()));
        i += 1;
    }
    let mut order: Vec<usize> = Vec::new();
    i = 0;
    while i < args.len()
        invariant
            i <= args.len(),
            av == args_view(args@),
            distinct_arg_names(av),
            names@.len() == args.len(),
            forall|k: int| 0 <= k < names.len() ==> (#[trigger] names@[k])@ == av[k].0,
            order@.len() == i,
            forall|k: int| 0 <= k < order.len() ==> (#[trigger] order@[k]) < i,
            forall|x: int| 0 <= x < i ==> #[trigger] has_index(order@, x),
            order_sorted(av, order@),
        decreases args.len() - i,
    {
        let p = insertion_point(&names, &order, i, Ghost(av));
        let ghost before = order@;
        order.insert(p, i);
        proof {
            assert forall|k: int| 0 <= k < order.len() implies (#[trigger] order@[k]) < i + 1 by {
                if k < p {
                    assert(order@[k] == before[k]);
                } else if k > p {
                    assert(order@[k] == before[k - 1]);
                }
            }
            assert forall|x: int| 0 <= x < i + 1 implies #[trigger] has_index(order@, x) by {
                if x == i {
                    assert(order@[p as int] == x);
                } else {
                    assert(has_index(before, x));
                    let k = choose|k: int| 0 <= k < before.len() && before[k] == x;
                    if k < p {
                        assert(order@[k] == x);
                    } else {
                        assert(order@[k + 1] == x);
                    }
                }
            }
            assert forall|a: int, b: int| 0 <= a < b < order.len() implies seq_lt(
                av[(#[trigger] order@[a]) as int].0,
                av[(#[trigger] order@[b]) as int].0,
            ) by {
                if b < p {
                    assert(order@[a] == before[a] && order@[b] == before[b]);
                } else if b == p {
                    assert(order@[a] == before[a]);
                } else if a < p {
                    assert(order@[a] == before[a] && order@[b] == before[b - 1]);
                    lemma_seq_lt_trans(av[before[a] as int].0, av[i as int].0, av[before[b - 1] as int].0);
                } else if a == p {
                    assert(order@[b] == before[b - 1]);
                } else {
                    assert(order@[a] == before[a - 1] && order@[b] == before[b - 1]);
                }
            }
        }
        i += 1;
    }
    let mut properties: Vec<ParamProperty> = Vec::new();
    let mut required: Vec<String> = Vec::new();
    let mut j: usize = 0;
    while j < order.len()
        invariant
            j <= order.len(),
            order.len() == args.len(),
            av == args_view(args@),
            distinct_arg_names(av),
            forall|k: int| 0 <= k < order.len() ==> (#[trigger] order@[k]) < args.len(),
            properties@.len() == j,
            forall|k: int| 0 <= k < j ==> #[trigger] props_view(properties@)[k] == properties_of(av)[order@[k] as int],
            strings_view(required@) == required_names(props_view(properties@), av),
        decreases order.len() - j,
    {
        let idx = order[j];
        let ghost before = props_view(properties@);
        properties.push(ParamProperty {
            name: copy_string(&args[idx].0),
            arg_type: copy_string(&args[idx].1.arg_type),
            description: copy_string(&args[idx].1.description),
        });
        let ghost after = props_view(properties@);
        proof {
            assert(after.drop_last() =~= before);
            assert(after.last() == (av[idx as int].0, av[idx as int].1.arg_type, av[idx as int].1.description));
            assert forall|k: int| 0 <= k < j + 1 implies #[trigger] after[k] == properties_of(av)[order@[k] as int] by {
                if k < j {
                    assert(after[k] == before[k]);
                }
            }
        }
        if args[idx].1.required {
            required.push(copy_string(&args[idx].0));
            proof {
                assert(strings_view(required@) =~= required_names(before, av).push(av[idx as int].0));
            }
        } else {
            proof {
                assert forall|k: int| 0 <= k < av.len() && av[k].0 == av[idx as int].0 implies !av[k].1.required by {
                    if k < idx {
                        assert(av[k].0 != av[idx as int].0);
                    } else if k > idx {
                        assert(av[idx as int].0 != av[k].0);
                    }
                }
            }
        }
        j += 1;
    }
    let s = ParamSchema { properties, required };
    proof {
        let pv = s@.properties;
        assert(pv == props_view(s.properties@));
        assert forall|x: int| 0 <= x < av.len() implies #[trigger] pv.contains(properties_of(av)[x]) by {
            assert(has_index(order@, x));
            let k = choose|k: int| 0 <= k < order.len() && order@[k] == x;
            assert(pv[k] == properties_of(av)[x]);
        }
        assert forall|a: int, b: int| 0 <= a < b < pv.len() implies seq_lt((#[trigger] pv[a]).0, (#[trigger] pv[b]).0) by {
            assert(pv[a] == properties_of(av)[order@[a] as int]);
            assert(pv[b] == properties_of(av)[order@[b] as int]);
        }
        assert(pv.len() == av.len());
        assert(names_strictly_sorted(pv));
        assert(s@.required == required_names(pv, av));
    }
    s
}

impl Skill {
    /// The skill described by `header`, found at `path`.
    pub fn from_header(header: SkillHeader, path: String) -> (s: Skill)
        requires
            distinct_arg_names(args_view(header.args@)),
        ensures
            s@.name == header.name@,
            s@.description == header.description@,
            s@.path == path@,
            s@.tags == strings_view(header.tags@),
            s@.command_template == opt_string_view(header.command_template),
            header.args@.len() == 0 ==> s@.parameters is None,
            header.args@.len() > 0 ==> (s@.parameters matches Some(p) && schema_of(args_view(header.args@), p)),
            s@.checksum is None,
            s@.tool_name == opt_string_view(header.tool_name),
    {
        let parameters = if header.args.len() == 0 {
            None
        } else {
            Some(build_parameters_schema(&header.args))
        };
        Skill {
            name: header.name,
            description: header.description,
            path,
            tags: header.tags,
            command_template: header.command_template,
            parameters,
            checksum: None,
            tool_name: header.tool_name,
        }
    }
}


/// The automatic tool name of a skill, from its name, its path and the
/// stem of its file name.
pub open spec fn skill_auto_name(s: SkillView) -> Seq<char> {
    auto_tool_name(s.name, s.path, file_stem_of(s.path))
}

/// The name under which agents see a skill: its tool name, or the
/// automatic one when it has none.
pub open spec fn agent_name(s: SkillView) -> Seq<char> {
    match s.tool_name {
        Some(t) => t,
        None => skill_auto_name(s),
    }
}

impl Skill {
    /// Stem of the file name of the skill's path.
    pub fn path_file_stem(&self) -> (r: Option<String>)
        ensures
            opt_string_view(r) == file_stem_of(self.path@),
    {
        file_stem(self.path.as_str())
    }

    /// The stable tool name used in agent-facing output.
    pub fn agent_tool_name(&self) -> (r: String)
        ensures
            r@ == agent_name(self@),
    {
        match &self.tool_name {
            Some(t) => copy_string(t),
            None => self.fallback_tool_name(),
        }
    }

    /// An independent copy of this skill.
    pub fn copy(&self) -> (r: Skill)
        ensures
            r@ == self@,
    {
        Skill {
            name: copy_string(&self.name),
            description: copy_string(&self.description),
            path: copy_string(&self.path),
            tags: copy_strings(&self.tags),
            command_template: copy_opt_string(&self.command_template),
            parameters: match &self.parameters {
                Some(p) => Some(p.copy()),
                None => None,
            },
            checksum: copy_opt_string(&self.checksum),
            tool_name: copy_opt_string(&self.tool_name),
        }
    }

    /// The automatic tool name of this skill.
    pub fn fallback_tool_name(&self) -> (r: String)
        ensures
            r@ == skill_auto_name(self@),
    {
        let stem = self.path_file_stem();
        match &stem {
            Some(st) => build_auto_tool_name(self.name.as_str(), self.path.as_str(), Some(st.as_str())),
            None => build_auto_tool_name(self.name.as_str(), self.path.as_str(), None),
        }
    }
}

impl ParamSchema {
    /// A copy of the schema.
    pub fn copy(&self) -> (r: ParamSchema)
        ensures
            r@ == self@,
    {
        let mut properties: Vec<ParamProperty> = Vec::new();
        let mut i: usize = 0;
        while i < self.properties.len()
            invariant
                i <= self.properties.len(),
                properties@.len() == i,
                forall|k: int| 0 <= k < i ==> #[trigger] props_view(properties@)[k] == props_view(self.properties@)[k],
            decreases self.properties.len() - i,
        {
            let p = &self.properties[i];
            let ghost before = properties@;
            properties.push(ParamProperty {
                name: copy_string(&p.name),
                arg_type: copy_string(&p.arg_type),
                description: copy_string(&p.description),
            });
            proof {
                assert forall|k: int| 0 <= k < i + 1 implies #[trigger] props_view(properties@)[k]
                    == props_view(self.properties@)[k] by {
                    if k < i {
                        assert(properties@[k] == before[k]);
                        assert(props_view(before)[k] == props_view(self.properties@)[k]);
                    } else {
                        assert(properties@[k].name@ == self.properties@[k].name@);
                        assert(properties@[k].arg_type@ == self.properties@[k].arg_type@);
                        assert(properties@[k].description@ == self.properties@[k].description@);
                    }
                }
            }
            i += 1;
        }
        assert(props_view(properties@) =~= props_view(self.properties@));
        ParamSchema { properties, required: copy_strings(&self.required) }
    }
}

/// A failure to index one file.
pub struct ParseError {
    pub path: String,
    pub reason: String,
}

impl View for ParseError {
    type V = (Seq<char>, Seq<char>);

    open spec fn view(&self) -> (Seq<char>, Seq<char>) {
        (self.path@, self.reason@)
    }
}

pub open spec fn errors_view(v: Seq<ParseError>) -> Seq<(Seq<char>, Seq<char>)> {
    v.map_values(|e: ParseError| e@)
}

impl ParseError {
    pub fn new(path: String, reason: String) -> (e: ParseError)
        ensures
            e@ == (path@, reason@),
    {
        ParseError { path, reason }
    }
}

/// The function part of an OpenAI-style tool description.
pub struct OpenAIFunction {
    pub name: String,
    pub description: String,
    pub parameters: Option<ParamSchema>,
}

/// An OpenAI-style tool description of a skill.
pub struct OpenAITool {
    pub tool_type: String,
    pub function: OpenAIFunction,
}

impl OpenAITool {
    /// The tool description of `skill`: a `function` named by the skill's
    /// agent tool name, with its description and parameters.
    pub fn from_skill(skill: &Skill) -> (t: OpenAITool)
        ensures
            t.tool_type@ == "function"@,
            t.function.name@ == agent_name(skill@),
            t.function.description@ == skill.description@,
            opt_schema_view(t.function.parameters) == skill@.parameters,
    {
        let parameters = match &skill.parameters {
            Some(p) => Some(p.copy()),
            None => None,
        };
        OpenAITool {
            tool_type: "function".to_owned(),
            function: OpenAIFunction {
                name: skill.agent_tool_name(),
                description: copy_string(&skill.description),
                parameters,
            },
        }
    }
}

/// The cached index of all skills found by a sync.
pub struct Index {
    pub version: String,
    pub last_sync: String,
    pub skills: Vec<Skill>,
}

/// The format version written into every index.
pub open spec fn index_version() -> Seq<char> {
    "1.0.0"@
}

/// A sync time stamp: seconds since the Unix epoch followed by `Z`.
pub open spec fn sync_stamp(secs: nat) -> Seq<char> {
    decimal(secs).push('Z')
}

impl Index {
    /// An empty index stamped with the given number of seconds since the
    /// Unix epoch.
    pub fn at(secs: u64) -> (ix: Index)
        ensures
            ix.version@ == index_version(),
            ix.last_sync@ == sync_stamp(secs as nat),
            ix.skills@.len() == 0,
    {
        let mut stamp = decimal_string(secs);
        stamp.push('Z');
        Index { version: "1.0.0".to_owned(), last_sync: stamp, skills: Vec::new() }
    }

    /// An empty index stamped with the current time; the clock reading
    /// itself is not stated.
    pub fn new() -> (ix: Index)
        ensures
            ix.version@ == index_version(),
            exists|secs: u64| ix.last_sync@ == sync_stamp(secs as nat),
            ix.skills@.len() == 0,
    {
        Index::at(crate::clock::seconds_since_epoch())
    }
}

} // verus!
