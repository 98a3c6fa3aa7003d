//! What a project's tsconfig and its `extends` chain say about the files to
//! check and the strict plugin.
use vstd::prelude::*;
use crate::config::{
    compiler_option, get, resolve_effective_base_url, resolve_effective_compiler_options,
    resolve_effective_type_roots_dir, spec_as_str, spec_effective_base_url,
    spec_effective_type_roots_dir, spec_get, spec_merged_options, spec_option,
};
use crate::errors::Error;
use crate::json::{JsonMap, JsonValue};
use crate::paths::{join, parent_dir, spec_join, spec_parent_dir};
use crate::text::{str_equal, views};

verus! {

#[verifier::external_type_specification]
#[verifier::external_body]
pub struct ExSerdeValue(serde_json::Value);

/// What `jsonc_parser::parse_to_serde_value` (default options: comments,
/// trailing commas and loose property names allowed) makes of a text, as
/// the library's JSON value: the document (`null` for an empty one), or
/// the text of its parse error.
pub uninterp spec fn jsonc_document(text: Seq<char>) -> Result<JsonValue, Seq<char>>;

/// `serde_json::Value` as the library's JSON value, variant for variant:
/// numbers keep their text, objects their entries in the order the value
/// yields them. It carries the result of [`parse_jsonc`], whose contract
/// states what the pair gives.
#[verifier::external_body]
fn json_of_serde(v: serde_json::Value) -> JsonValue {
    match v {
        serde_json::Value::Null => JsonValue::Null,
        serde_json::Value::Bool(b) => JsonValue::Bool(b),
        serde_json::Value::Number(n) => JsonValue::Number(n.to_string()),
        serde_json::Value::String(t) => JsonValue::Str(t),
        serde_json::Value::Array(a) => JsonValue::Array(a.into_iter().map(json_of_serde).collect()),
        serde_json::Value::Object(o) => {
            let mut m = JsonMap::new();
            o.into_iter().for_each(|(k, x)| m.insert(k, json_of_serde(x)));
            JsonValue::Object(m)
        },
    }
}

/// Parse a JSONC text with `jsonc_parser::parse_to_serde_value` and its
/// default options; an empty document is `null`. Claimed: the result is the
/// named [`jsonc_document`] of the text.
#[verifier::external_body]
pub fn parse_jsonc(text: &str) -> (r: Result<JsonValue, String>)
    ensures
        match r {
            Ok(v) => jsonc_document(text@) == Ok::<JsonValue, Seq<char>>(v),
            Err(m) => jsonc_document(text@) == Err::<JsonValue, Seq<char>>(m@),
        },
{
    match jsonc_parser::parse_to_serde_value(text, &jsonc_parser::ParseOptions::default()) {
        Ok(v) => Ok(json_of_serde(v.unwrap_or(serde_json::Value::Null))),
        Err(e) => Err(e.to_string()),
    }
}

/// The tsconfig read from `path`, given its text: the parsed document, or
/// a parse error that names the file.
pub fn parse_tsconfig_text(path: &str, text: &str) -> (r: Result<JsonValue, Error>)
    ensures
        match jsonc_document(text@) {
            Ok(v) => r == Ok::<JsonValue, Error>(v),
            Err(m) => r matches Err(Error::TsconfigParse { path: p, message: mm }) && p@ == path@ && mm@ == m,
        },
{
    match parse_jsonc(text) {
        Ok(v) => Ok(v),
        Err(message) => Err(Error::TsconfigParse { path: path.to_owned(), message }),
    }
}

/// The string items of a JSON array, in order (others are skipped).
pub open spec fn spec_str_items(items: Seq<JsonValue>) -> Seq<Seq<char>>
    decreases items.len(),
{
    if items.len() == 0 {
        Seq::empty()
    } else {
        let rest = spec_str_items(items.drop_last());
        match items.last() {
            JsonValue::Str(s) => rest.push(s@),
            _ => rest,
        }
    }
}

/// The string items of `items`, in order.
pub fn str_items(items: &[JsonValue]) -> (r: Vec<String>)
    ensures
        views(r@) == spec_str_items(items@),
{
    let mut r: Vec<String> = Vec::new();
    let mut i: usize = 0;
    while i < items.len()
        invariant
            i <= items@.len(),
            views(r@) == spec_str_items(items@.take(i as int)),
        decreases items@.len() - i,
    {
        proof {
            assert(items@.take(i + 1).drop_last() =~= items@.take(i as int));
            assert(items@.take(i + 1).last() == items@[i as int]);
        }
        match &items[i] {
            JsonValue::Str(s) => {
                r.push(s.clone());
                assert(views(r@) =~= spec_str_items(items@.take(i + 1)));
            },
            _ => {},
        }
        i = i + 1;
    }
    assert(items@.take(i as int) =~= items@);
    r
}

/// The member `field` of a config, when it is an array.
pub open spec fn spec_array_field(cfg: JsonValue, field: Seq<char>) -> Option<Seq<JsonValue>> {
    match spec_get(cfg, field) {
        Some(JsonValue::Array(a)) => Some(a@),
        _ => None,
    }
}

/// A top-level array field (`include`, `exclude` or `files`) with the
/// directory of the tsconfig that defined it.
#[derive(Debug, Clone)]
pub struct ResolvedField {
    pub patterns: Vec<String>,
    pub config_dir: String,
}

impl ResolvedField {
    /// The patterns and the directory, as text.
    pub open spec fn view(&self) -> (Seq<Seq<char>>, Seq<char>) {
        (views(self.patterns@), self.config_dir@)
    }
}

/// The field as the config at `(dir, cfg)` defines it, if it does.
pub open spec fn field_of(entry: (String, JsonValue), field: Seq<char>) -> Option<
    (Seq<Seq<char>>, Seq<char>),
> {
    match spec_array_field(entry.1, field) {
        Some(a) => Some((spec_str_items(a), entry.0@)),
        None => None,
    }
}

/// The last config of the chain that defines `field` as an array decides it.
pub open spec fn spec_inherited_field(chain: Seq<(String, JsonValue)>, field: Seq<char>) -> Option<
    (Seq<Seq<char>>, Seq<char>),
>
    decreases chain.len(),
{
    if chain.len() == 0 {
        None
    } else {
        match field_of(chain.last(), field) {
            Some(f) => Some(f),
            None => spec_inherited_field(chain.drop_last(), field),
        }
    }
}

/// Only the leaf (last) config of the chain is asked for `field`.
pub open spec fn spec_leaf_only_field(chain: Seq<(String, JsonValue)>, field: Seq<char>) -> Option<
    (Seq<Seq<char>>, Seq<char>),
> {
    if chain.len() == 0 {
        None
    } else {
        field_of(chain.last(), field)
    }
}

/// `field` of the config at `entry`, resolved.
fn field_at(entry: &(String, JsonValue), field: &str) -> (r: Option<ResolvedField>)
    ensures
        match r {
            Some(f) => field_of(*entry, field@) == Some(f@),
            None => field_of(*entry, field@) is None,
        },
{
    match get(&entry.1, field) {
        Some(JsonValue::Array(arr)) => {
            let patterns = str_items(arr.as_slice());
            Some(ResolvedField { patterns, config_dir: entry.0.clone() })
        },
        _ => None,
    }
}

/// Walk the extends chain and return the last-specified value of a
/// top-level array field, with the directory of the config that defined
/// it: TypeScript resolves inherited globs relative to that config.
pub fn resolve_inherited_field(chain: &[(String, JsonValue)], field: &str) -> (r: Result<
    Option<ResolvedField>,
    Error,
>)
    ensures
        r matches Ok(o) && match o {
            Some(f) => spec_inherited_field(chain@, field@) == Some(f@),
            None => spec_inherited_field(chain@, field@) is None,
        },
{
    let mut i: usize = chain.len();
    assert(chain@.take(i as int) =~= chain@);
    while i > 0
        invariant
            i <= chain@.len(),
            spec_inherited_field(chain@, field@) == spec_inherited_field(
                chain@.take(i as int),
                field@,
            ),
        decreases i,
    {
        proof {
            assert(chain@.take(i as int).drop_last() =~= chain@.take(i - 1));
            assert(chain@.take(i as int).last() == chain@[i - 1]);
        }
        let found = field_at(&chain[i - 1], field);
        if found.is_some() {
            return Ok(found);
        }
        i = i - 1;
    }
    Ok(None)
}

/// Like [`resolve_inherited_field`], but only the leaf is asked: used when
/// the leaf specifies `include`, so that a parent's `files: []` does not cut
/// file enumeration short.
pub fn resolve_leaf_only_field(chain: &[(String, JsonValue)], field: &str) -> (r: Result<
    Option<ResolvedField>,
    Error,
>)
    ensures
        r matches Ok(o) && match o {
            Some(f) => spec_leaf_only_field(chain@, field@) == Some(f@),
            None => spec_leaf_only_field(chain@, field@) is None,
        },
{
    let n = chain.len();
    if n == 0 {
        return Ok(None);
    }
    Ok(field_at(&chain[n - 1], field))
}

/// The strict plugin's block in `compilerOptions.plugins`.
#[derive(Debug, Clone)]
pub struct StrictPluginConfig {
    pub name: String,
    pub paths: Option<Vec<String>>,
    pub exclude_pattern: Option<Vec<String>>,
}

/// `paths` and `excludePattern` of a plugin block, as text.
pub open spec fn opt_views(o: Option<Vec<String>>) -> Option<Seq<Seq<char>>> {
    match o {
        Some(v) => Some(views(v@)),
        None => None,
    }
}

/// What a plugin object says when its `name` is `name`: its `paths` (an
/// array's strings) and its `excludePattern` (a string, or an array's
/// strings).
pub open spec fn plugin_match(p: JsonValue, name: Seq<char>) -> Option<
    (Option<Seq<Seq<char>>>, Option<Seq<Seq<char>>>),
> {
    match p {
        JsonValue::Object(_) => if spec_as_str(spec_get(p, "name"@)) == Some(name) {
            let paths = match spec_array_field(p, "paths"@) {
                Some(a) => Some(spec_str_items(a)),
                None => None,
            };
            let exclude = match spec_get(p, "excludePattern"@) {
                Some(JsonValue::Str(s)) => Some(seq![s@]),
                Some(JsonValue::Array(a)) => Some(spec_str_items(a@)),
                _ => None,
            };
            Some((paths, exclude))
        } else {
            None
        },
        _ => None,
    }
}

/// The last matching plugin object of a `plugins` array.
pub open spec fn plugin_in_list(plugins: Seq<JsonValue>, name: Seq<char>) -> Option<
    (Option<Seq<Seq<char>>>, Option<Seq<Seq<char>>>),
>
    decreases plugins.len(),
{
    if plugins.len() == 0 {
        None
    } else {
        match plugin_match(plugins.last(), name) {
            Some(x) => Some(x),
            None => plugin_in_list(plugins.drop_last(), name),
        }
    }
}

/// The matching plugin of one config, if it has one.
pub open spec fn plugin_of_config(cfg: JsonValue, name: Seq<char>) -> Option<
    (Option<Seq<Seq<char>>>, Option<Seq<Seq<char>>>),
> {
    match spec_option(cfg, "plugins"@) {
        Some(JsonValue::Array(a)) => plugin_in_list(a@, name),
        _ => None,
    }
}

/// The plugin block that wins across the chain: the last matching one.
pub open spec fn spec_plugin_config(chain: Seq<(String, JsonValue)>, name: Seq<char>) -> Option<
    (Option<Seq<Seq<char>>>, Option<Seq<Seq<char>>>),
>
    decreases chain.len(),
{
    if chain.len() == 0 {
        None
    } else {
        match plugin_of_config(chain.last().1, name) {
            Some(x) => Some(x),
            None => spec_plugin_config(chain.drop_last(), name),
        }
    }
}

/// A plugin config as text: `(name, paths, excludePattern)`.
pub open spec fn plugin_view(c: StrictPluginConfig) -> (
    Seq<char>,
    Option<Seq<Seq<char>>>,
    Option<Seq<Seq<char>>>,
) {
    (c.name@, opt_views(c.paths), opt_views(c.exclude_pattern))
}

/// The strict plugin block of one plugin object, if it is the one named.
fn match_plugin(p: &JsonValue, plugin_name: &str) -> (r: Option<StrictPluginConfig>)
    ensures
        match r {
            Some(c) => plugin_match(*p, plugin_name@) == Some((plugin_view(c).1, plugin_view(c).2))
                && c.name@ == plugin_name@,
            None => plugin_match(*p, plugin_name@) is None,
        },
{
    match p {
        JsonValue::Object(_) => {},
        _ => return None,
    }
    let named = match get(p, "name") {
        Some(JsonValue::Str(s)) => str_equal(s.as_str(), plugin_name),
        _ => false,
    };
    if !named {
        return None;
    }
    let paths = match get(p, "paths") {
        Some(JsonValue::Array(a)) => Some(str_items(a.as_slice())),
        _ => None,
    };
    let exclude_pattern = match get(p, "excludePattern") {
        Some(JsonValue::Str(s)) => {
            let v = vec![s.clone()];
            assert(views(v@) =~= seq![s@]);
            Some(v)
        },
        Some(JsonValue::Array(a)) => Some(str_items(a.as_slice())),
        _ => None,
    };
    Some(StrictPluginConfig { name: plugin_name.to_owned(), paths, exclude_pattern })
}

/// Find the strict plugin's block across the chain: the last config that
/// names it wins, and within a config the last matching entry.
pub fn resolve_plugin_config(chain: &[(String, JsonValue)], plugin_name: &str) -> (r: Option<
    StrictPluginConfig,
>)
    ensures
        match r {
            Some(c) => spec_plugin_config(chain@, plugin_name@) == Some(
                (plugin_view(c).1, plugin_view(c).2),
            ) && c.name@ == plugin_name@,
            None => spec_plugin_config(chain@, plugin_name@) is None,
        },
{
    let mut i: usize = chain.len();
    assert(chain@.take(i as int) =~= chain@);
    while i > 0
        invariant
            i <= chain@.len(),
            spec_plugin_config(chain@, plugin_name@) == spec_plugin_config(
                chain@.take(i as int),
                plugin_name@,
            ),
        decreases i,
    {
        proof {
            assert(chain@.take(i as int).drop_last() =~= chain@.take(i - 1));
            assert(chain@.take(i as int).last() == chain@[i - 1]);
        }
        let cfg = &chain[i - 1].1;
        match compiler_option(cfg, "plugins") {
            Some(JsonValue::Array(plugins)) => {
                let mut j: usize = plugins.len();
                assert(plugins@.take(j as int) =~= plugins@);
                while j > 0
                    invariant
                        0 < i <= chain@.len(),
                        spec_plugin_config(chain@, plugin_name@) == spec_plugin_config(
                            chain@.take(i as int),
                            plugin_name@,
                        ),
                        chain@.take(i as int).last() == chain@[i - 1],
                        plugin_of_config(chain@[i - 1].1, plugin_name@) == plugin_in_list(
                            plugins@,
                            plugin_name@,
                        ),
                        j <= plugins@.len(),
                        plugin_in_list(plugins@, plugin_name@) == plugin_in_list(
                            plugins@.take(j as int),
                            plugin_name@,
                        ),
                    decreases j,
                {
                    proof {
                        assert(plugins@.take(j as int).drop_last() =~= plugins@.take(j - 1));
                        assert(plugins@.take(j as int).last() == plugins@[j - 1]);
                    }
                    let found = match_plugin(&plugins[j - 1], plugin_name);
                    if found.is_some() {
                        return found;
                    }
                    j = j - 1;
                }
            },
            _ => {},
        }
        i = i - 1;
    }
    None
}

/// `o` is the optional text `s`.
pub open spec fn opt_text_is(o: Option<String>, s: Option<Seq<char>>) -> bool {
    match o {
        Some(x) => s == Some(x@),
        None => s is None,
    }
}

/// `o` is the optional resolved field `s`.
pub open spec fn opt_field_is(o: Option<ResolvedField>, s: Option<(Seq<Seq<char>>, Seq<char>)>) -> bool {
    match o {
        Some(f) => s == Some(f@),
        None => s is None,
    }
}

/// `o` is the optional plugin block `s`, named `name`.
pub open spec fn opt_plugin_is(
    o: Option<StrictPluginConfig>,
    s: Option<(Option<Seq<Seq<char>>>, Option<Seq<Seq<char>>>)>,
    name: Seq<char>,
) -> bool {
    match o {
        Some(c) => s == Some((plugin_view(c).1, plugin_view(c).2)) && c.name@ == name,
        None => s is None,
    }
}

/// The leaf config defines `include` as an array.
pub open spec fn leaf_has_include(chain: Seq<(String, JsonValue)>) -> bool {
    chain.len() > 0 && spec_array_field(chain.last().1, "include"@) is Some
}

/// `files` as the project sees it: TypeScript treats `files` and `include`
/// as a group, so when the leaf has `include` only the leaf's `files` count.
pub open spec fn spec_resolved_files(chain: Seq<(String, JsonValue)>) -> Option<
    (Seq<Seq<char>>, Seq<char>),
> {
    if leaf_has_include(chain) {
        spec_leaf_only_field(chain, "files"@)
    } else {
        spec_inherited_field(chain, "files"@)
    }
}

/// The project context built once per invocation.
#[derive(Debug)]
pub struct ProjectContext {
    pub cwd: String,
    pub project_path: String,
    pub config_dir: String,
    /// The project's own tsconfig, not a merge of the chain.
    pub raw_config: JsonValue,
    pub strict_plugin_config: Option<StrictPluginConfig>,
    pub resolved_include: Option<ResolvedField>,
    pub resolved_exclude: Option<ResolvedField>,
    pub resolved_files: Option<ResolvedField>,
    /// Absolute directory that `baseUrl` resolves to, if set anywhere in the
    /// chain.
    pub effective_base_url: Option<String>,
    /// `compilerOptions` merged across the chain; present exactly when
    /// `effective_base_url` is.
    pub effective_compiler_options: Option<JsonMap>,
    /// Directory of the last config that declares `typeRoots`.
    pub effective_type_roots_dir: Option<String>,
    /// Type directives to name explicitly, when `types` is not set.
    pub auto_type_directives: Option<Vec<String>>,
}

/// Build the project context from what was read: the working directory, the
/// `-p` argument, the project's tsconfig, the `(directory, config)` chain
/// root-first, and the discovered type directives.
pub fn build_project_context(
    cwd: &str,
    project_arg: &str,
    raw_config: JsonValue,
    chain: &[(String, JsonValue)],
    plugin_name: &str,
    auto_type_directives: Option<Vec<String>>,
) -> (r: ProjectContext)
    ensures
        r.cwd@ == cwd@,
        r.project_path@ == spec_join(cwd@, project_arg@),
        r.config_dir@ == spec_parent_dir(r.project_path@),
        r.raw_config == raw_config,
        opt_plugin_is(r.strict_plugin_config, spec_plugin_config(chain@, plugin_name@), plugin_name@),
        opt_field_is(r.resolved_include, spec_inherited_field(chain@, "include"@)),
        opt_field_is(r.resolved_exclude, spec_inherited_field(chain@, "exclude"@)),
        opt_field_is(r.resolved_files, spec_resolved_files(chain@)),
        opt_text_is(r.effective_base_url, spec_effective_base_url(chain@)),
        match r.effective_compiler_options {
            Some(m) => spec_effective_base_url(chain@) is Some && m.deep() == spec_merged_options(chain@),
            None => spec_effective_base_url(chain@) is None,
        },
        opt_text_is(r.effective_type_roots_dir, spec_effective_type_roots_dir(chain@)),
        r.auto_type_directives == auto_type_directives,
{
    let project_path = join(cwd, project_arg);
    let config_dir = parent_dir(project_path.as_str());
    let strict_plugin_config = resolve_plugin_config(chain, plugin_name);
    let resolved_include = match resolve_inherited_field(chain, "include") {
        Ok(f) => f,
        Err(_) => None,
    };
    let resolved_exclude = match resolve_inherited_field(chain, "exclude") {
        Ok(f) => f,
        Err(_) => None,
    };
    let n = chain.len();
    let has_include = n > 0 && match get(&chain[n - 1].1, "include") {
        Some(JsonValue::Array(_)) => true,
        _ => false,
    };
    let files = if has_include {
        resolve_leaf_only_field(chain, "files")
    } else {
        resolve_inherited_field(chain, "files")
    };
    let resolved_files = match files {
        Ok(f) => f,
        Err(_) => None,
    };
    let effective_base_url = resolve_effective_base_url(chain);
    let effective_compiler_options = if effective_base_url.is_some() {
        Some(resolve_effective_compiler_options(chain))
    } else {
        None
    };
    let effective_type_roots_dir = resolve_effective_type_roots_dir(chain);
    ProjectContext {
        cwd: cwd.to_owned(),
        project_path,
        config_dir,
        raw_config,
        strict_plugin_config,
        resolved_include,
        resolved_exclude,
        resolved_files,
        effective_base_url,
        effective_compiler_options,
        effective_type_roots_dir,
        auto_type_directives,
    }
}

} // verus!
