//! The strongly-typed resolved configuration, its decoder from a document
//! tree, and the resolution of every artifact's download location from its
//! explicit URL, its named source, or the default source.

use vstd::prelude::*;

use crate::envsub::{env_view, pass_envs, subst_v, SubstOutcome};
use crate::errors::McError;
use crate::merge::{get_v, key_index, lemma_key_index_at, lemma_key_index_none, merge_v, merge_yamls};
use crate::yamlio::{emit_yaml, emitted_yaml, parse_yaml_docs, parsed_wf};
use crate::node::{entries_view, lemma_entries_view, lemma_nodes_view, node_view, nodes_view, Node, NodeV};
use crate::text::{lemma_strings_view_at, replace_all, replaced, str_eq, strings_view};

verus! {

broadcast use vstd::std_specs::vec::group_vec_axioms, vstd::seq::group_seq_axioms;

/// A named URL template; `$NAME` and `$VERSION` stand for the artifact.
#[derive(Debug, PartialEq, Eq)]
pub struct Source {
    pub url: String,
}

/// The main runtime artifact to launch.
#[derive(Debug, PartialEq, Eq)]
pub struct Core {
    pub name: String,
    pub version: String,
    pub source: Option<String>,
    pub url: Option<String>,
}

/// One named, versioned add-on artifact.
#[derive(Debug, PartialEq, Eq)]
pub struct Plugin {
    pub version: String,
    pub source: Option<String>,
    pub url: Option<String>,
}

/// The runtime arguments around the main artifact argument.
#[derive(Debug, PartialEq, Eq)]
pub struct Launch {
    pub java_args: Vec<String>,
    pub mc_args: Vec<String>,
}

/// The fully merged configuration of one build.
#[derive(Debug, PartialEq, Eq)]
pub struct Config {
    pub includes: Vec<String>,
    pub sources: Vec<(String, Source)>,
    pub default_source: Option<String>,
    pub launch: Launch,
    pub core: Core,
    pub plugins: Vec<(String, Plugin)>,
}

/// Image of a `Source`.
pub struct SourceV {
    pub url: Seq<char>,
}

/// Image of a `Core`.
pub struct CoreV {
    pub name: Seq<char>,
    pub version: Seq<char>,
    pub source: Option<Seq<char>>,
    pub url: Option<Seq<char>>,
}

/// Image of a `Plugin`.
pub struct PluginV {
    pub version: Seq<char>,
    pub source: Option<Seq<char>>,
    pub url: Option<Seq<char>>,
}

/// Image of a `Launch`.
pub struct LaunchV {
    pub java_args: Seq<Seq<char>>,
    pub mc_args: Seq<Seq<char>>,
}

/// Image of a `Config`.
pub struct ConfigV {
    pub includes: Seq<Seq<char>>,
    pub sources: Seq<(Seq<char>, SourceV)>,
    pub default_source: Option<Seq<char>>,
    pub launch: LaunchV,
    pub core: CoreV,
    pub plugins: Seq<(Seq<char>, PluginV)>,
}

/// Image of an optional string.
pub open spec fn opt_view(o: Option<String>) -> Option<Seq<char>> {
    match o {
        Some(s) => Some(s@),
        None => None,
    }
}

impl View for Source {
    type V = SourceV;

    open spec fn view(&self) -> SourceV {
        SourceV { url: self.url@ }
    }
}

impl View for Core {
    type V = CoreV;

    open spec fn view(&self) -> CoreV {
        CoreV {
            name: self.name@,
            version: self.version@,
            source: opt_view(self.source),
            url: opt_view(self.url),
        }
    }
}

impl View for Plugin {
    type V = PluginV;

    open spec fn view(&self) -> PluginV {
        PluginV {
            version: self.version@,
            source: opt_view(self.source),
            url: opt_view(self.url),
        }
    }
}

impl View for Launch {
    type V = LaunchV;

    open spec fn view(&self) -> LaunchV {
        LaunchV {
            java_args: self.java_args@.map(|i: int, s: String| s@),
            mc_args: self.mc_args@.map(|i: int, s: String| s@),
        }
    }
}

impl View for Config {
    type V = ConfigV;

    open spec fn view(&self) -> ConfigV {
        ConfigV {
            includes: self.includes@.map(|i: int, s: String| s@),
            sources: self.sources@.map(|i: int, e: (String, Source)| (e.0@, e.1@)),
            default_source: opt_view(self.default_source),
            launch: self.launch@,
            core: self.core@,
            plugins: self.plugins@.map(|i: int, e: (String, Plugin)| (e.0@, e.1@)),
        }
    }
}

/// The include list a configuration has when it declares none.
pub fn default_includes() -> (r: Vec<String>)
    ensures
        r@.len() == 0,
{
    let includes: Vec<String> = Vec::new();
    includes
}

/// The source table a configuration has when it declares none.
pub fn default_sources() -> (r: Vec<(String, Source)>)
    ensures
        r@.len() == 0,
{
    let sources: Vec<(String, Source)> = Vec::new();
    sources
}

/// The plugin table a configuration has when it declares none.
pub fn default_plugins() -> (r: Vec<(String, Plugin)>)
    ensures
        r@.len() == 0,
{
    let plugins: Vec<(String, Plugin)> = Vec::new();
    plugins
}

/// The pre-artifact argument list a configuration has when it declares none.
pub fn default_java_args() -> (r: Vec<String>)
    ensures
        r@.len() == 0,
{
    let java_args: Vec<String> = Vec::new();
    java_args
}

/// The post-artifact argument list a configuration has when it declares none.
pub fn default_mc_args() -> (r: Vec<String>)
    ensures
        r@.len() == 0,
{
    let mc_args: Vec<String> = Vec::new();
    mc_args
}

/// The source a name denotes in the source table (first match).
pub open spec fn source_lookup_v(sources: Seq<(Seq<char>, SourceV)>, name: Seq<char>) -> Option<
    SourceV,
>
    decreases sources,
{
    if sources.len() == 0 {
        None
    } else if sources[0].0 == name {
        Some(sources[0].1)
    } else {
        source_lookup_v(sources.drop_first(), name)
    }
}

/// The first binding of a source name fixes `source_lookup_v`.
proof fn lemma_source_lookup_at(sources: Seq<(Seq<char>, SourceV)>, name: Seq<char>, j: int)
    requires
        0 <= j < sources.len(),
        sources[j].0 == name,
        forall|l: int| 0 <= l < j ==> sources[l].0 != name,
    ensures
        source_lookup_v(sources, name) == Some(sources[j].1),
    decreases j,
{
    if j > 0 {
        assert forall|l: int| 0 <= l < j - 1 implies sources.drop_first()[l].0 != name by {
            assert(sources.drop_first()[l] == sources[l + 1]);
        }
        assert(sources.drop_first()[j - 1] == sources[j]);
        lemma_source_lookup_at(sources.drop_first(), name, j - 1);
    }
}

/// A name bound nowhere in the source table has no lookup result.
proof fn lemma_source_lookup_none(sources: Seq<(Seq<char>, SourceV)>, name: Seq<char>)
    requires
        forall|l: int| 0 <= l < sources.len() ==> sources[l].0 != name,
    ensures
        source_lookup_v(sources, name) is None,
    decreases sources,
{
    if sources.len() > 0 {
        assert forall|l: int| 0 <= l < sources.drop_first().len() implies sources.drop_first()[l].0
            != name by {
            assert(sources.drop_first()[l] == sources[l + 1]);
        }
        lemma_source_lookup_none(sources.drop_first(), name);
    }
}

/// The source table's image maps the table pointwise.
proof fn lemma_sources_view_at(sources: Seq<(String, Source)>, i: int)
    requires
        0 <= i < sources.len(),
    ensures
        sources.map(|l: int, e: (String, Source)| (e.0@, e.1@)).len() == sources.len(),
        sources.map(|l: int, e: (String, Source)| (e.0@, e.1@))[i] == (sources[i].0@, sources[i].1@),
{
    assert(sources.map(|l: int, e: (String, Source)| (e.0@, e.1@))[i] == (
    sources[i].0@,
    sources[i].1@,
    ));
}

/// Find a source by name in the table.
fn lookup_source<'a>(sources: &'a Vec<(String, Source)>, name: &str) -> (r: Option<&'a Source>)
    ensures
        match r {
            Some(s) => source_lookup_v(
                sources@.map(|i: int, e: (String, Source)| (e.0@, e.1@)),
                name@,
            ) == Some(s@),
            None => source_lookup_v(
                sources@.map(|i: int, e: (String, Source)| (e.0@, e.1@)),
                name@,
            ) is None,
        },
{
    let ghost sv = sources@.map(|i: int, e: (String, Source)| (e.0@, e.1@));
    let mut j: usize = 0;
    while j < sources.len()
        invariant
            sv == sources@.map(|i: int, e: (String, Source)| (e.0@, e.1@)),
            j <= sources@.len(),
            forall|l: int| 0 <= l < j ==> sources@[l].0@ != name@,
        decreases sources@.len() - j,
    {
        if str_eq(sources[j].0.as_str(), name) {
            proof {
                lemma_sources_view_at(sources@, j as int);
                assert forall|l: int| 0 <= l < j implies sv[l].0 != name@ by {
                    lemma_sources_view_at(sources@, l);
                }
                lemma_source_lookup_at(sv, name@, j as int);
            }
            return Some(&sources[j].1);
        }
        j = j + 1;
    }
    proof {
        assert forall|l: int| 0 <= l < sv.len() implies sv[l].0 != name@ by {
            lemma_sources_view_at(sources@, l);
        }
        lemma_source_lookup_none(sv, name@);
    }
    None
}

impl Config {
    /// The source the `default_source` field names: absent field or unknown
    /// name is a missing-source condition, exactly then.
    pub fn get_default_source(&self) -> (r: Result<&Source, McError>)
        ensures
            match r {
                Ok(s) => self@.default_source matches Some(n) && source_lookup_v(self@.sources, n)
                    == Some(s@),
                Err(e) => e is MissingSource && match self@.default_source {
                    Some(n) => source_lookup_v(self@.sources, n) is None,
                    None => true,
                },
            },
    {
        let default_source_name = match &self.default_source {
            Some(default_source) => default_source,
            None => {
                return Err(McError::MissingSource("no default source specified".to_owned()));
            },
        };
        let source = match lookup_source(&self.sources, default_source_name.as_str()) {
            Some(default_source) => default_source,
            None => {
                return Err(McError::MissingSource(default_source_name.clone()));
            },
        };
        Ok(source)
    }
}

/// A URL template instantiated for an artifact: every `$NAME` replaced by
/// the artifact's name, then every `$VERSION` by its version.
pub fn prepare_url(url: &String, name: &String, version: &String) -> (r: String)
    ensures
        r@ == replaced(replaced(url@, "$NAME"@, name@), "$VERSION"@, version@),
{
    proof {
        reveal_strlit("$NAME");
        reveal_strlit("$VERSION");
    }
    let with_name = replace_all(url.as_str(), "$NAME", name.as_str());
    let new_url = replace_all(with_name.as_str(), "$VERSION", version.as_str());
    new_url
}

/// Where an artifact's bytes are to be fetched from, resolved once:
/// an explicit URL wins over a named source, which wins over the default
/// source; anything else is unresolvable.
pub enum UrlOutcome {
    Url(Seq<char>),
    NoDefault,
    SourceNotFound(Seq<char>),
}

/// The download URL of an artifact with the given name, version and
/// optional explicit source name and URL, under a configuration.
pub open spec fn spec_artifact_url(
    name: Seq<char>,
    version: Seq<char>,
    source: Option<Seq<char>>,
    url: Option<Seq<char>>,
    c: ConfigV,
) -> UrlOutcome {
    match url {
        Some(u) => UrlOutcome::Url(u),
        None => {
            let sname = match source {
                Some(s) => Some(s),
                None => c.default_source,
            };
            match sname {
                None => UrlOutcome::NoDefault,
                Some(sn) => match source_lookup_v(c.sources, sn) {
                    Some(src) => UrlOutcome::Url(
                        replaced(replaced(src.url, "$NAME"@, name), "$VERSION"@, version),
                    ),
                    None => UrlOutcome::SourceNotFound(sn),
                },
            }
        },
    }
}

/// The download URL of an artifact, or the missing-source condition,
/// exactly as `spec_artifact_url` decides it.
pub fn resolve_artifact_url(
    name: &String,
    version: &String,
    source: &Option<String>,
    url: &Option<String>,
    config: &Config,
) -> (r: Result<String, McError>)
    ensures
        match r {
            Ok(u) => spec_artifact_url(name@, version@, opt_view(*source), opt_view(*url), config@)
                == UrlOutcome::Url(u@),
            Err(e) => e is MissingSource && !(spec_artifact_url(
                name@,
                version@,
                opt_view(*source),
                opt_view(*url),
                config@,
            ) is Url),
        },
{
    match url {
        Some(u) => Ok(u.clone()),
        None => match source {
            Some(source_name) => match lookup_source(&config.sources, source_name.as_str()) {
                Some(source) => Ok(prepare_url(&source.url, name, version)),
                None => Err(McError::MissingSource(source_name.clone())),
            },
            None => {
                let source = config.get_default_source()?;
                Ok(prepare_url(&source.url, name, version))
            },
        },
    }
}

/// The download URL of the core artifact.
pub fn core_url(core: &Core, config: &Config) -> (r: Result<String, McError>)
    ensures
        match r {
            Ok(u) => spec_artifact_url(core@.name, core@.version, core@.source, core@.url, config@)
                == UrlOutcome::Url(u@),
            Err(e) => e is MissingSource && !(spec_artifact_url(
                core@.name,
                core@.version,
                core@.source,
                core@.url,
                config@,
            ) is Url),
        },
{
    resolve_artifact_url(&core.name, &core.version, &core.source, &core.url, config)
}

/// The download URL of a plugin artifact.
pub fn plugin_url(name: &String, plugin: &Plugin, config: &Config) -> (r: Result<String, McError>)
    ensures
        match r {
            Ok(u) => spec_artifact_url(
                name@,
                plugin@.version,
                plugin@.source,
                plugin@.url,
                config@,
            ) == UrlOutcome::Url(u@),
            Err(e) => e is MissingSource && !(spec_artifact_url(
                name@,
                plugin@.version,
                plugin@.source,
                plugin@.url,
                config@,
            ) is Url),
        },
{
    resolve_artifact_url(name, &plugin.version, &plugin.source, &plugin.url, config)
}

/// A required string field of a map's entries.
pub open spec fn req_str(es: Seq<(Seq<char>, NodeV)>, k: Seq<char>) -> Option<Seq<char>> {
    match get_v(es, k) {
        Some(NodeV::Str(s)) => Some(s),
        _ => None,
    }
}

/// An optional string field: an absent key and an explicit null both stand
/// for no value; any other non-string shape is a decode error.
pub open spec fn opt_str(es: Seq<(Seq<char>, NodeV)>, k: Seq<char>) -> Option<Option<Seq<char>>> {
    match get_v(es, k) {
        None => Some(None),
        Some(NodeV::Null) => Some(None),
        Some(NodeV::Str(s)) => Some(Some(s)),
        Some(_) => None,
    }
}

/// A list of strings.
pub open spec fn dec_strings(a: Seq<NodeV>) -> Option<Seq<Seq<char>>>
    decreases a,
{
    if a.len() == 0 {
        Some(Seq::empty())
    } else {
        match (a[0], dec_strings(a.drop_first())) {
            (NodeV::Str(s), Some(rest)) => Some(seq![s] + rest),
            _ => None,
        }
    }
}

/// A list-of-strings field, absent standing for the empty list.
pub open spec fn str_list(es: Seq<(Seq<char>, NodeV)>, k: Seq<char>) -> Option<Seq<Seq<char>>> {
    match get_v(es, k) {
        None => Some(Seq::empty()),
        Some(NodeV::Arr(a)) => dec_strings(a),
        Some(_) => None,
    }
}

/// One source: a map with a required `url`.
pub open spec fn spec_source(n: NodeV) -> Option<SourceV> {
    match n {
        NodeV::Dict(es) => match req_str(es, "url"@) {
            Some(u) => Some(SourceV { url: u }),
            None => None,
        },
        _ => None,
    }
}

/// The source table: each value a source, keys kept in order.
pub open spec fn dec_sources(es: Seq<(Seq<char>, NodeV)>) -> Option<Seq<(Seq<char>, SourceV)>>
    decreases es,
{
    if es.len() == 0 {
        Some(Seq::empty())
    } else {
        match (spec_source(es[0].1), dec_sources(es.drop_first())) {
            (Some(s), Some(rest)) => Some(seq![(es[0].0, s)] + rest),
            _ => None,
        }
    }
}

/// One plugin: a map with a required `version` and optional `source`, `url`.
pub open spec fn spec_plugin(n: NodeV) -> Option<PluginV> {
    match n {
        NodeV::Dict(es) => match (req_str(es, "version"@), opt_str(es, "source"@), opt_str(
            es,
            "url"@,
        )) {
            (Some(v), Some(s), Some(u)) => Some(PluginV { version: v, source: s, url: u }),
            _ => None,
        },
        _ => None,
    }
}

/// The plugin table: each value a plugin, keys kept in order.
pub open spec fn dec_plugins(es: Seq<(Seq<char>, NodeV)>) -> Option<Seq<(Seq<char>, PluginV)>>
    decreases es,
{
    if es.len() == 0 {
        Some(Seq::empty())
    } else {
        match (spec_plugin(es[0].1), dec_plugins(es.drop_first())) {
            (Some(p), Some(rest)) => Some(seq![(es[0].0, p)] + rest),
            _ => None,
        }
    }
}

/// The core artifact: a map with required `name`, `version` and optional
/// `source`, `url`.
pub open spec fn spec_core(n: NodeV) -> Option<CoreV> {
    match n {
        NodeV::Dict(es) => match (req_str(es, "name"@), req_str(es, "version"@), opt_str(
            es,
            "source"@,
        ), opt_str(es, "url"@)) {
            (Some(nm), Some(v), Some(s), Some(u)) => Some(
                CoreV { name: nm, version: v, source: s, url: u },
            ),
            _ => None,
        },
        _ => None,
    }
}

/// The launch lists: a map whose `java_args` and `mc_args` default to empty.
pub open spec fn spec_launch(n: NodeV) -> Option<LaunchV> {
    match n {
        NodeV::Dict(es) => match (str_list(es, "java_args"@), str_list(es, "mc_args"@)) {
            (Some(j), Some(m)) => Some(LaunchV { java_args: j, mc_args: m }),
            _ => None,
        },
        _ => None,
    }
}

/// The whole resolved configuration decoded from one document: a map with
/// required `launch` and `core`; `include`, `sources` and `plugins` default
/// to empty and `default_source` to no value; unknown keys are ignored.
pub open spec fn spec_decode_config(d: NodeV) -> Option<ConfigV> {
    match d {
        NodeV::Dict(es) => {
            let launch = match get_v(es, "launch"@) {
                Some(n) => spec_launch(n),
                None => None,
            };
            let core = match get_v(es, "core"@) {
                Some(n) => spec_core(n),
                None => None,
            };
            let sources = match get_v(es, "sources"@) {
                None => Some(Seq::<(Seq<char>, SourceV)>::empty()),
                Some(NodeV::Dict(e2)) => dec_sources(e2),
                Some(_) => None,
            };
            let plugins = match get_v(es, "plugins"@) {
                None => Some(Seq::<(Seq<char>, PluginV)>::empty()),
                Some(NodeV::Dict(e2)) => dec_plugins(e2),
                Some(_) => None,
            };
            match (str_list(es, "include"@), sources, opt_str(es, "default_source"@), launch, core,
            plugins) {
                (Some(inc), Some(srcs), Some(ds), Some(l), Some(co), Some(pl)) => Some(
                    ConfigV {
                        includes: inc,
                        sources: srcs,
                        default_source: ds,
                        launch: l,
                        core: co,
                        plugins: pl,
                    },
                ),
                _ => None,
            }
        },
        _ => None,
    }
}

/// A decode error, carrying the field that did not fit.
fn parse_err(what: &str) -> (r: McError)
    ensures
        r is Parse,
{
    McError::Parse(what.to_owned())
}

/// The value at a key of a map's entry list, if any.
fn dict_find<'a>(es: &'a Vec<(String, Node)>, key: &str) -> (r: Option<&'a Node>)
    ensures
        match r {
            Some(v) => get_v(entries_view(es@), key@) == Some(v@),
            None => get_v(entries_view(es@), key@) is None,
        },
{
    proof {
        lemma_entries_view(es@);
    }
    let mut j: usize = 0;
    while j < es.len()
        invariant
            j <= es@.len(),
            entries_view(es@).len() == es@.len(),
            forall|l: int| 0 <= l < es@.len() ==> entries_view(es@)[l] == (
                es@[l].0@,
                node_view(es@[l].1),
            ),
            forall|l: int| 0 <= l < j ==> es@[l].0@ != key@,
        decreases es@.len() - j,
    {
        if str_eq(es[j].0.as_str(), key) {
            proof {
                lemma_key_index_at(entries_view(es@), key@, j as int);
            }
            return Some(&es[j].1);
        }
        j = j + 1;
    }
    proof {
        lemma_key_index_none(entries_view(es@), key@);
    }
    None
}

/// A required string field.
fn field_req_str(es: &Vec<(String, Node)>, key: &str) -> (r: Result<String, McError>)
    ensures
        match r {
            Ok(s) => req_str(entries_view(es@), key@) == Some(s@),
            Err(e) => req_str(entries_view(es@), key@) is None && e is Parse,
        },
{
    match dict_find(es, key) {
        Some(n) => match n {
            Node::Str(s) => Ok(s.clone()),
            _ => Err(parse_err(key)),
        },
        None => Err(parse_err(key)),
    }
}

/// An optional string field.
fn field_opt_str(es: &Vec<(String, Node)>, key: &str) -> (r: Result<Option<String>, McError>)
    ensures
        match r {
            Ok(s) => opt_str(entries_view(es@), key@) == Some(opt_view(s)),
            Err(e) => opt_str(entries_view(es@), key@) is None && e is Parse,
        },
{
    match dict_find(es, key) {
        Some(n) => match n {
            Node::Str(s) => Ok(Some(s.clone())),
            Node::Null => Ok(None),
            _ => Err(parse_err(key)),
        },
        None => Ok(None),
    }
}

/// A list of strings.
fn strings_list(a: &Vec<Node>) -> (r: Result<Vec<String>, McError>)
    ensures
        match r {
            Ok(v) => dec_strings(nodes_view(a@)) == Some(strings_view(v@)),
            Err(e) => dec_strings(nodes_view(a@)) is None && e is Parse,
        },
{
    let ghost nv = nodes_view(a@);
    proof {
        lemma_nodes_view(a@);
    }
    let mut out: Vec<String> = Vec::new();
    let mut i: usize = 0;
    proof {
        assert(nv.skip(0) =~= nv);
        match dec_strings(nv) {
            Some(rest) => {
                assert(strings_view(out@) + rest =~= rest);
            },
            None => {},
        }
    }
    while i < a.len()
        invariant
            nv == nodes_view(a@),
            nv.len() == a@.len(),
            forall|l: int| 0 <= l < a@.len() ==> nv[l] == node_view(a@[l]),
            i <= a@.len(),
            match dec_strings(nv.skip(i as int)) {
                Some(rest) => dec_strings(nv) == Some(strings_view(out@) + rest),
                None => dec_strings(nv) is None,
            },
        decreases a@.len() - i,
    {
        let ghost out0 = out@;
        proof {
            assert(nv.skip(i as int)[0] == nv[i as int]);
            assert(nv.skip(i as int).drop_first() =~= nv.skip(i + 1));
        }
        match &a[i] {
            Node::Str(s) => {
                out.push(s.clone());
                proof {
                    assert forall|l: int| 0 <= l < out@.len() implies strings_view(out@)[l]
                        == out@[l]@ by {
                        lemma_strings_view_at(out@, l);
                    }
                    assert(strings_view(out@) =~= strings_view(out0).push(s@));
                    match dec_strings(nv.skip(i + 1)) {
                        Some(rest) => {
                            assert(strings_view(out0) + (seq![s@] + rest) =~= strings_view(out@)
                                + rest);
                        },
                        None => {},
                    }
                }
            },
            _ => {
                return Err(parse_err("a list of strings"));
            },
        }
        i = i + 1;
    }
    proof {
        assert(nv.skip(a@.len() as int) =~= Seq::<NodeV>::empty());
        assert(strings_view(out@) + Seq::<Seq<char>>::empty() =~= strings_view(out@));
    }
    Ok(out)
}

/// A list-of-strings field, absent standing for the empty list.
fn field_str_list(es: &Vec<(String, Node)>, key: &str) -> (r: Result<Vec<String>, McError>)
    ensures
        match r {
            Ok(v) => str_list(entries_view(es@), key@) == Some(strings_view(v@)),
            Err(e) => str_list(entries_view(es@), key@) is None && e is Parse,
        },
{
    match dict_find(es, key) {
        Some(n) => match n {
            Node::Arr(a) => {
                let out = strings_list(a)?;
                proof {
                    assert(strings_view(Seq::<String>::empty()) =~= Seq::<Seq<char>>::empty());
                }
                Ok(out)
            },
            _ => Err(parse_err(key)),
        },
        None => {
            proof {
                assert(strings_view(Seq::<String>::empty()) =~= Seq::<Seq<char>>::empty());
            }
            Ok(Vec::new())
        },
    }
}

/// Image of a built source table.
pub open spec fn sources_view(v: Seq<(String, Source)>) -> Seq<(Seq<char>, SourceV)> {
    v.map(|i: int, e: (String, Source)| (e.0@, e.1@))
}

/// Image of a built plugin table.
pub open spec fn plugins_view(v: Seq<(String, Plugin)>) -> Seq<(Seq<char>, PluginV)> {
    v.map(|i: int, e: (String, Plugin)| (e.0@, e.1@))
}

/// `plugins_view` maps the table pointwise.
proof fn lemma_plugins_view_at(v: Seq<(String, Plugin)>, i: int)
    requires
        0 <= i < v.len(),
    ensures
        plugins_view(v).len() == v.len(),
        plugins_view(v)[i] == (v[i].0@, v[i].1@),
{
    assert(plugins_view(v)[i] == (v[i].0@, v[i].1@));
}

/// Decode the source table from a map's entry list.
fn sources_map(es: &Vec<(String, Node)>) -> (r: Result<Vec<(String, Source)>, McError>)
    ensures
        match r {
            Ok(v) => dec_sources(entries_view(es@)) == Some(sources_view(v@)),
            Err(e) => dec_sources(entries_view(es@)) is None && e is Parse,
        },
{
    let ghost ev = entries_view(es@);
    proof {
        lemma_entries_view(es@);
    }
    let mut out: Vec<(String, Source)> = Vec::new();
    let mut i: usize = 0;
    proof {
        assert(ev.skip(0) =~= ev);
        match dec_sources(ev) {
            Some(rest) => {
                assert(sources_view(out@) + rest =~= rest);
            },
            None => {},
        }
    }
    while i < es.len()
        invariant
            ev == entries_view(es@),
            ev.len() == es@.len(),
            forall|l: int| 0 <= l < es@.len() ==> ev[l] == (es@[l].0@, node_view(es@[l].1)),
            i <= es@.len(),
            match dec_sources(ev.skip(i as int)) {
                Some(rest) => dec_sources(ev) == Some(sources_view(out@) + rest),
                None => dec_sources(ev) is None,
            },
        decreases es@.len() - i,
    {
        let ghost out0 = out@;
        proof {
            assert(ev.skip(i as int)[0] == ev[i as int]);
            assert(ev.skip(i as int).drop_first() =~= ev.skip(i + 1));
        }
        match &es[i].1 {
            Node::Dict(inner) => {
                let url = field_req_str(inner, "url")?;
                let key = es[i].0.clone();
                out.push((key, Source { url }));
                proof {
                    assert forall|l: int| 0 <= l < out@.len() implies sources_view(out@)[l] == (
                        out@[l].0@,
                        out@[l].1@,
                    ) by {
                        lemma_sources_view_at(out@, l);
                    }
                    assert(sources_view(out@) =~= sources_view(out0).push(
                        (es@[i as int].0@, SourceV { url: url@ }),
                    ));
                    match dec_sources(ev.skip(i + 1)) {
                        Some(rest) => {
                            assert(sources_view(out0) + (seq![
                                (es@[i as int].0@, SourceV { url: url@ }),
                            ] + rest) =~= sources_view(out@) + rest);
                        },
                        None => {},
                    }
                }
            },
            _ => {
                return Err(parse_err("a source table"));
            },
        }
        i = i + 1;
    }
    proof {
        assert(ev.skip(es@.len() as int) =~= Seq::<(Seq<char>, NodeV)>::empty());
        assert(sources_view(out@) + Seq::<(Seq<char>, SourceV)>::empty() =~= sources_view(out@));
    }
    Ok(out)
}

/// Decode one plugin from its document.
fn decode_plugin(n: &Node) -> (r: Result<Plugin, McError>)
    ensures
        match r {
            Ok(p) => spec_plugin(n@) == Some(p@),
            Err(e) => spec_plugin(n@) is None && e is Parse,
        },
{
    match n {
        Node::Dict(es) => {
            let version = field_req_str(es, "version")?;
            let source = field_opt_str(es, "source")?;
            let url = field_opt_str(es, "url")?;
            Ok(Plugin { version, source, url })
        },
        _ => Err(parse_err("a plugin entry")),
    }
}

/// Decode the plugin table from a map's entry list.
fn plugins_map(es: &Vec<(String, Node)>) -> (r: Result<Vec<(String, Plugin)>, McError>)
    ensures
        match r {
            Ok(v) => dec_plugins(entries_view(es@)) == Some(plugins_view(v@)),
            Err(e) => dec_plugins(entries_view(es@)) is None && e is Parse,
        },
{
    let ghost ev = entries_view(es@);
    proof {
        lemma_entries_view(es@);
    }
    let mut out: Vec<(String, Plugin)> = Vec::new();
    let mut i: usize = 0;
    proof {
        assert(ev.skip(0) =~= ev);
        match dec_plugins(ev) {
            Some(rest) => {
                assert(plugins_view(out@) + rest =~= rest);
            },
            None => {},
        }
    }
    while i < es.len()
        invariant
            ev == entries_view(es@),
            ev.len() == es@.len(),
            forall|l: int| 0 <= l < es@.len() ==> ev[l] == (es@[l].0@, node_view(es@[l].1)),
            i <= es@.len(),
            match dec_plugins(ev.skip(i as int)) {
                Some(rest) => dec_plugins(ev) == Some(plugins_view(out@) + rest),
                None => dec_plugins(ev) is None,
            },
        decreases es@.len() - i,
    {
        let ghost out0 = out@;
        proof {
            assert(ev.skip(i as int)[0] == ev[i as int]);
            assert(ev.skip(i as int).drop_first() =~= ev.skip(i + 1));
        }
        let plugin = decode_plugin(&es[i].1)?;
        let ghost pv = plugin@;
        let key = es[i].0.clone();
        out.push((key, plugin));
        proof {
            assert forall|l: int| 0 <= l < out@.len() implies plugins_view(out@)[l] == (
                out@[l].0@,
                out@[l].1@,
            ) by {
                lemma_plugins_view_at(out@, l);
            }
            assert(plugins_view(out@) =~= plugins_view(out0).push((es@[i as int].0@, pv)));
            match dec_plugins(ev.skip(i + 1)) {
                Some(rest) => {
                    assert(plugins_view(out0) + (seq![(es@[i as int].0@, pv)] + rest)
                        =~= plugins_view(out@) + rest);
                },
                None => {},
            }
        }
        i = i + 1;
    }
    proof {
        assert(ev.skip(es@.len() as int) =~= Seq::<(Seq<char>, NodeV)>::empty());
        assert(plugins_view(out@) + Seq::<(Seq<char>, PluginV)>::empty() =~= plugins_view(out@));
    }
    Ok(out)
}

/// Decode the core artifact from its document.
fn decode_core(n: &Node) -> (r: Result<Core, McError>)
    ensures
        match r {
            Ok(c) => spec_core(n@) == Some(c@),
            Err(e) => spec_core(n@) is None && e is Parse,
        },
{
    match n {
        Node::Dict(es) => {
            let name = field_req_str(es, "name")?;
            let version = field_req_str(es, "version")?;
            let source = field_opt_str(es, "source")?;
            let url = field_opt_str(es, "url")?;
            Ok(Core { name, version, source, url })
        },
        _ => Err(parse_err("the core entry")),
    }
}

/// Decode the launch lists from their document.
fn decode_launch(n: &Node) -> (r: Result<Launch, McError>)
    ensures
        match r {
            Ok(l) => spec_launch(n@) == Some(l@),
            Err(e) => spec_launch(n@) is None && e is Parse,
        },
{
    match n {
        Node::Dict(es) => {
            let java_args = field_str_list(es, "java_args")?;
            let mc_args = field_str_list(es, "mc_args")?;
            proof {
                assert(Launch { java_args, mc_args }@ == LaunchV {
                    java_args: strings_view(java_args@),
                    mc_args: strings_view(mc_args@),
                });
            }
            Ok(Launch { java_args, mc_args })
        },
        _ => Err(parse_err("the launch entry")),
    }
}

/// Decode one document into the strongly-typed configuration: exactly what
/// `spec_decode_config` accepts, and a parse error on everything else.
pub fn decode_config(n: &Node) -> (r: Result<Config, McError>)
    ensures
        match r {
            Ok(c) => spec_decode_config(n@) == Some(c@),
            Err(e) => spec_decode_config(n@) is None && e is Parse,
        },
{
    match n {
        Node::Dict(es) => {
            let includes = field_str_list(es, "include")?;
            let sources = match dict_find(es, "sources") {
                None => {
                    let empty_sources = default_sources();
                    proof {
                        assert(sources_view(empty_sources@) =~= Seq::<
                            (Seq<char>, SourceV),
                        >::empty());
                    }
                    empty_sources
                },
                Some(n2) => match n2 {
                    Node::Dict(e2) => sources_map(e2)?,
                    _ => {
                        return Err(parse_err("sources"));
                    },
                },
            };
            let default_source = field_opt_str(es, "default_source")?;
            let launch = match dict_find(es, "launch") {
                Some(n2) => decode_launch(n2)?,
                None => {
                    return Err(parse_err("launch"));
                },
            };
            let core = match dict_find(es, "core") {
                Some(n2) => decode_core(n2)?,
                None => {
                    return Err(parse_err("core"));
                },
            };
            let plugins = match dict_find(es, "plugins") {
                None => {
                    let empty_plugins = default_plugins();
                    proof {
                        assert(plugins_view(empty_plugins@) =~= Seq::<
                            (Seq<char>, PluginV),
                        >::empty());
                    }
                    empty_plugins
                },
                Some(n2) => match n2 {
                    Node::Dict(e2) => plugins_map(e2)?,
                    _ => {
                        return Err(parse_err("plugins"));
                    },
                },
            };
            Ok(Config { includes, sources, default_source, launch, core, plugins })
        },
        _ => Err(parse_err("the root document")),
    }
}

/// The first document of a text, if the text parses to at least one.
pub open spec fn first_doc(t: Seq<char>) -> Option<NodeV> {
    match parsed_wf(t) {
        Some(docs) => if docs.len() >= 1 {
            Some(docs[0])
        } else {
            None
        },
        None => None,
    }
}

/// The include list the root configuration text declares, an absent key
/// standing for none.
pub open spec fn spec_includes(t: Seq<char>) -> Option<Seq<Seq<char>>> {
    match first_doc(t) {
        Some(NodeV::Dict(es)) => str_list(es, "include"@),
        _ => None,
    }
}

/// Extract only the include list of the root configuration text, without
/// decoding the rest: the includes must be known before their shape is.
pub fn includes_of(root_text: &str) -> (r: Result<Vec<String>, McError>)
    ensures
        match r {
            Ok(v) => spec_includes(root_text@) == Some(strings_view(v@)),
            Err(e) => spec_includes(root_text@) is None && e is Parse,
        },
{
    let docs = parse_yaml_docs(root_text)?;
    proof {
        lemma_nodes_view(docs@);
    }
    if docs.len() == 0 {
        return Err(parse_err("an empty configuration"));
    }
    match &docs[0] {
        Node::Dict(es) => field_str_list(es, "include"),
        _ => Err(parse_err("the root document")),
    }
}

/// What folding the include configurations yields: the merged accumulator,
/// or the first failure (a text that does not parse, or a document that is
/// not a map).
pub enum FoldOutcome {
    Folded(NodeV),
    FoldParse,
    FoldNotMap,
}

/// The include configuration texts folded into an accumulator document,
/// in list order: the first include has the lowest priority.
pub open spec fn fold_includes(acc: NodeV, texts: Seq<Seq<char>>) -> FoldOutcome
    decreases texts,
{
    if texts.len() == 0 {
        FoldOutcome::Folded(acc)
    } else {
        match first_doc(texts[0]) {
            None => FoldOutcome::FoldParse,
            Some(d) => if acc is Dict && d is Dict {
                fold_includes(merge_v(acc, d), texts.drop_first())
            } else {
                FoldOutcome::FoldNotMap
            },
        }
    }
}

/// What configuration resolution yields.
pub enum ResolveOutcome {
    Resolved(ConfigV),
    BadParse,
    NotMap,
    MissingVar(Seq<char>),
    Unresolvable,
}

/// Every artifact of the configuration can be located: an explicit URL, or
/// a source resolvable through its name or the default source — the
/// invariant a resolved configuration must satisfy.
pub open spec fn spec_resolvable(c: ConfigV) -> bool {
    &&& spec_artifact_url(c.core.name, c.core.version, c.core.source, c.core.url, c) is Url
    &&& forall|i: int|
        0 <= i < c.plugins.len() ==> spec_artifact_url(
            c.plugins[i].0,
            c.plugins[i].1.version,
            c.plugins[i].1.source,
            c.plugins[i].1.url,
            c,
        ) is Url
}

/// Resolution of the layered configuration: fold every include configuration
/// into an empty map in list order, merge the root document on top (the root
/// always wins), serialize the merged document, substitute the environment
/// into the text when asked to, and decode the result.
pub open spec fn spec_resolve(
    root: Seq<char>,
    incs: Seq<Seq<char>>,
    env: Seq<(Seq<char>, Seq<char>)>,
    pass_env: bool,
) -> ResolveOutcome {
    match first_doc(root) {
        None => ResolveOutcome::BadParse,
        Some(rd) => match fold_includes(NodeV::Dict(Seq::empty()), incs) {
            FoldOutcome::FoldParse => ResolveOutcome::BadParse,
            FoldOutcome::FoldNotMap => ResolveOutcome::NotMap,
            FoldOutcome::Folded(acc) => if !(rd is Dict) {
                ResolveOutcome::NotMap
            } else {
                let text = emitted_yaml(merge_v(acc, rd));
                let sub = if pass_env {
                    subst_v(text, env)
                } else {
                    SubstOutcome::Done(text)
                };
                match sub {
                    SubstOutcome::Missing(n) => ResolveOutcome::MissingVar(n),
                    SubstOutcome::Done(t2) => match first_doc(t2) {
                        None => ResolveOutcome::BadParse,
                        Some(d2) => match spec_decode_config(d2) {
                            None => ResolveOutcome::BadParse,
                            Some(cv) => if spec_resolvable(cv) {
                                ResolveOutcome::Resolved(cv)
                            } else {
                                ResolveOutcome::Unresolvable
                            },
                        },
                    },
                }
            },
        },
    }
}

/// With substitution switched off, resolution never reads the environment:
/// lock and download operations compute the same configuration under any
/// environment, so no environment value is ever baked into what they pin.
pub proof fn lemma_resolve_env_independent(
    root: Seq<char>,
    incs: Seq<Seq<char>>,
    env1: Seq<(Seq<char>, Seq<char>)>,
    env2: Seq<(Seq<char>, Seq<char>)>,
)
    ensures
        spec_resolve(root, incs, env1, false) == spec_resolve(root, incs, env2, false),
{
}

/// Resolve the layered configuration from the root text and the texts of
/// the include configurations that exist, in include-list order. A resolved
/// configuration must be able to locate every artifact; one that cannot is
/// refused as a missing-source condition.
pub fn resolve_config(
    root_text: &str,
    include_texts: &Vec<String>,
    env: &Vec<(String, String)>,
    pass_env: bool,
) -> (r: Result<Config, McError>)
    ensures
        match r {
            Ok(c) => spec_resolve(root_text@, strings_view(include_texts@), env_view(env@), pass_env)
                == ResolveOutcome::Resolved(c@),
            Err(e) => match e {
                McError::Parse(_) => spec_resolve(
                    root_text@,
                    strings_view(include_texts@),
                    env_view(env@),
                    pass_env,
                ) == ResolveOutcome::BadParse,
                McError::NotMergeable => spec_resolve(
                    root_text@,
                    strings_view(include_texts@),
                    env_view(env@),
                    pass_env,
                ) == ResolveOutcome::NotMap,
                McError::MissingEnvVar(n) => spec_resolve(
                    root_text@,
                    strings_view(include_texts@),
                    env_view(env@),
                    pass_env,
                ) == ResolveOutcome::MissingVar(n@),
                McError::MissingSource(_) => spec_resolve(
                    root_text@,
                    strings_view(include_texts@),
                    env_view(env@),
                    pass_env,
                ) == ResolveOutcome::Unresolvable,
                _ => false,
            },
        },
{
    let ghost tviews = strings_view(include_texts@);
    let ghost empty_dict = NodeV::Dict(Seq::<(Seq<char>, NodeV)>::empty());
    let root_docs = parse_yaml_docs(root_text)?;
    proof {
        lemma_nodes_view(root_docs@);
    }
    if root_docs.len() == 0 {
        return Err(parse_err("an empty configuration"));
    }
    let root_doc = &root_docs[0];
    let mut acc = Node::Dict(Vec::new());
    proof {
        assert(entries_view(Seq::<(String, Node)>::empty()) =~= Seq::<(Seq<char>, NodeV)>::empty());
        assert(tviews.skip(0) =~= tviews);
    }
    let mut i: usize = 0;
    while i < include_texts.len()
        invariant
            tviews == strings_view(include_texts@),
            tviews.len() == include_texts@.len(),
            empty_dict == NodeV::Dict(Seq::<(Seq<char>, NodeV)>::empty()),
            i <= include_texts@.len(),
            first_doc(root_text@) is Some,
            acc@ is Dict,
            fold_includes(empty_dict, tviews) == fold_includes(acc@, tviews.skip(i as int)),
        decreases include_texts@.len() - i,
    {
        proof {
            lemma_strings_view_at(include_texts@, i as int);
            assert(tviews.skip(i as int)[0] == tviews[i as int]);
            assert(tviews.skip(i as int).drop_first() =~= tviews.skip(i + 1));
        }
        let docs = match parse_yaml_docs(include_texts[i].as_str()) {
            Ok(d) => d,
            Err(e) => {
                return Err(e);
            },
        };
        proof {
            lemma_nodes_view(docs@);
        }
        if docs.len() == 0 {
            return Err(parse_err("an empty include configuration"));
        }
        let merged = merge_yamls(&acc, &docs[0])?;
        acc = merged;
        i = i + 1;
    }
    proof {
        assert(tviews.skip(include_texts@.len() as int) =~= Seq::<Seq<char>>::empty());
    }
    let merged = merge_yamls(&acc, root_doc)?;
    let text = emit_yaml(&merged);
    let final_text = if pass_env {
        match pass_envs(text.as_str(), env) {
            Ok(t) => t,
            Err(e) => {
                return Err(e);
            },
        }
    } else {
        text
    };
    let docs2 = parse_yaml_docs(final_text.as_str())?;
    proof {
        lemma_nodes_view(docs2@);
    }
    if docs2.len() == 0 {
        return Err(parse_err("an empty resolved configuration"));
    }
    let config = decode_config(&docs2[0])?;
    if let Err(e) = core_url(&config.core, &config) {
        return Err(e);
    }
    let mut i: usize = 0;
    while i < config.plugins.len()
        invariant
            i <= config.plugins@.len(),
            config@.plugins.len() == config.plugins@.len(),
            spec_artifact_url(
                config@.core.name,
                config@.core.version,
                config@.core.source,
                config@.core.url,
                config@,
            ) is Url,
            match spec_resolve(root_text@, strings_view(include_texts@), env_view(env@), pass_env) {
                ResolveOutcome::Resolved(cv) => cv == config@ && spec_resolvable(config@),
                ResolveOutcome::Unresolvable => !spec_resolvable(config@),
                _ => false,
            },
            forall|j: int|
                0 <= j < i ==> spec_artifact_url(
                    config@.plugins[j].0,
                    config@.plugins[j].1.version,
                    config@.plugins[j].1.source,
                    config@.plugins[j].1.url,
                    config@,
                ) is Url,
        decreases config.plugins@.len() - i,
    {
        proof {
            lemma_plugins_view_at(config.plugins@, i as int);
        }
        if let Err(e) = plugin_url(&config.plugins[i].0, &config.plugins[i].1, &config) {
            return Err(e);
        }
        i = i + 1;
    }
    proof {
        assert forall|j: int| 0 <= j < config@.plugins.len() implies spec_artifact_url(
            config@.plugins[j].0,
            config@.plugins[j].1.version,
            config@.plugins[j].1.source,
            config@.plugins[j].1.url,
            config@,
        ) is Url by {}
    }
    Ok(config)
}

} // verus!
