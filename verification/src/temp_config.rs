//! The transient tsconfig that the compiler is run on: the project's
//! options with `strict` and `noEmit` forced on and the checked files
//! pinned.
use vstd::prelude::*;
use crate::config::{
    get, normalize_base_url, options_of, rewrite_relative_paths, rewrite_relative_type_roots,
    spec_normalize_base_url, spec_rewrite_relative_paths, spec_rewrite_relative_type_roots,
};
use crate::json::{deep_items, deep_value, lemma_deep_items, JVal, JsonMap, JsonValue};
use crate::paths::{parent_dir, spec_parent_dir};
use crate::text::views;
use crate::v6_compat::{apply_v6_compat_shims, spec_v6_shims};

verus! {

/// The options with `noEmit` and `strict` set to `true`.
pub open spec fn with_strict(co: Map<Seq<char>, JVal>) -> Map<Seq<char>, JVal> {
    co.insert("noEmit"@, JVal::Bool(true)).insert("strict"@, JVal::Bool(true))
}

/// A JSON array of strings.
pub open spec fn str_array(items: Seq<Seq<char>>) -> JVal {
    JVal::Array(items.map_values(|t: Seq<char>| JVal::Str(t)))
}

/// The options with `types` set to the discovered directives, if any.
pub open spec fn with_types(co: Map<Seq<char>, JVal>, types: Option<Seq<Seq<char>>>) -> Map<Seq<char>, JVal> {
    match types {
        Some(ts) => co.insert("types"@, str_array(ts)),
        None => co,
    }
}

/// The `compilerOptions` of the transient tsconfig.
///
/// With a `baseUrl` somewhere in the chain, the merged options of the whole
/// chain are inlined (no `extends`): `baseUrl` is removed and `paths`
/// rewritten against it, `typeRoots` anchored at the config that defined
/// them, and the compatibility shims decided on the result itself.
/// Without one, the leaf's own options are used: relative `paths` and
/// `typeRoots` are made absolute, and the shims are decided on the merged
/// chain when it is known.
pub open spec fn spec_temp_options(
    project_path: Seq<char>,
    raw_config: JsonValue,
    base_url: Option<Seq<char>>,
    effective: Option<Map<Seq<char>, JVal>>,
    type_roots_dir: Option<Seq<char>>,
    types: Option<Seq<Seq<char>>>,
) -> Map<Seq<char>, JVal> {
    let leaf_dir = spec_parent_dir(project_path);
    let anchor = match type_roots_dir {
        Some(d) => d,
        None => leaf_dir,
    };
    match base_url {
        Some(b) => {
            let co0 = match effective {
                Some(m) => m,
                None => Map::empty(),
            };
            let co = with_types(
                spec_rewrite_relative_type_roots(spec_normalize_base_url(with_strict(co0), b), anchor),
                types,
            );
            spec_v6_shims(co, co)
        },
        None => {
            let co = with_types(
                spec_rewrite_relative_type_roots(
                    spec_rewrite_relative_paths(with_strict(options_of(raw_config)), leaf_dir),
                    anchor,
                ),
                types,
            );
            spec_v6_shims(
                co,
                match effective {
                    Some(m) => m,
                    None => co,
                },
            )
        },
    }
}

/// The transient tsconfig: `compilerOptions` and the pinned `files`, plus
/// `extends` pointing at the project's tsconfig when there is no `baseUrl`.
pub open spec fn spec_temp_config(
    project_path: Seq<char>,
    raw_config: JsonValue,
    files: Seq<Seq<char>>,
    base_url: Option<Seq<char>>,
    effective: Option<Map<Seq<char>, JVal>>,
    type_roots_dir: Option<Seq<char>>,
    types: Option<Seq<Seq<char>>>,
) -> Map<Seq<char>, JVal> {
    let co = JVal::Object(
        spec_temp_options(project_path, raw_config, base_url, effective, type_roots_dir, types),
    );
    match base_url {
        Some(_) => Map::empty().insert("compilerOptions"@, co).insert("files"@, str_array(files)),
        None => Map::empty().insert("extends"@, JVal::Str(project_path)).insert(
            "compilerOptions"@,
            co,
        ).insert("files"@, str_array(files)),
    }
}

/// A JSON array of the strings.
pub fn string_array(items: &[String]) -> (r: JsonValue)
    ensures
        deep_value(r) == str_array(views(items@)),
{
    let mut out: Vec<JsonValue> = Vec::new();
    let mut i: usize = 0;
    while i < items.len()
        invariant
            i <= items@.len(),
            out@.len() == i,
            forall|j: int| 0 <= j < i ==> #[trigger] out@[j] == JsonValue::Str(items@[j]),
        decreases items@.len() - i,
    {
        out.push(JsonValue::Str(items[i].clone()));
        i = i + 1;
    }
    proof {
        lemma_deep_items(out@);
        assert(deep_items(out@) =~= views(items@).map_values(|t: Seq<char>| JVal::Str(t)));
    }
    JsonValue::Array(out)
}

/// Set `key` to `value` in the options.
fn set(co: &mut JsonMap, key: &str, value: JsonValue)
    ensures
        final(co).deep() == old(co).deep().insert(key@, deep_value(value)),
{
    let ghost before = *co;
    co.insert(key.to_owned(), value);
    proof {
        before.lemma_deep_insert(co, key@, value);
    }
}

/// The view of an optional merged options object.
pub open spec fn opt_deep(m: Option<&JsonMap>) -> Option<Map<Seq<char>, JVal>> {
    match m {
        Some(x) => Some(x.deep()),
        None => None,
    }
}

/// The text of an optional path.
pub open spec fn opt_str(s: Option<&str>) -> Option<Seq<char>> {
    match s {
        Some(x) => Some(x@),
        None => None,
    }
}

/// The text of optional directives.
pub open spec fn opt_strs(s: Option<&[String]>) -> Option<Seq<Seq<char>>> {
    match s {
        Some(x) => Some(views(x@)),
        None => None,
    }
}

/// Build the transient tsconfig's JSON object (see [`spec_temp_config`]).
pub fn build_temp_config(
    project_path: &str,
    raw_config: &JsonValue,
    files: &[String],
    effective_base_url: Option<&str>,
    effective_compiler_options: Option<&JsonMap>,
    effective_type_roots_dir: Option<&str>,
    auto_type_directives: Option<&[String]>,
) -> (r: JsonMap)
    ensures
        r.deep() == spec_temp_config(
            project_path@,
            *raw_config,
            views(files@),
            opt_str(effective_base_url),
            opt_deep(effective_compiler_options),
            opt_str(effective_type_roots_dir),
            opt_strs(auto_type_directives),
        ),
{
    let leaf_dir = parent_dir(project_path);
    let anchor = match effective_type_roots_dir {
        Some(d) => d.to_owned(),
        None => parent_dir(project_path),
    };
    let mut co = match effective_base_url {
        Some(_) => match effective_compiler_options {
            Some(m) => m.duplicate(),
            None => JsonMap::new(),
        },
        None => match get(raw_config, "compilerOptions") {
            Some(JsonValue::Object(m)) => m.duplicate(),
            _ => JsonMap::new(),
        },
    };
    proof {
        assert(Map::<Seq<char>, JVal>::empty() =~= crate::json::deep_entries(Seq::empty()));
    }
    set(&mut co, "noEmit", JsonValue::Bool(true));
    set(&mut co, "strict", JsonValue::Bool(true));
    match effective_base_url {
        Some(b) => {
            normalize_base_url(&mut co, b);
        },
        None => {
            rewrite_relative_paths(&mut co, leaf_dir.as_str());
        },
    }
    rewrite_relative_type_roots(&mut co, anchor.as_str());
    match auto_type_directives {
        Some(types) => {
            set(&mut co, "types", string_array(types));
        },
        None => {},
    }
    match effective_base_url {
        Some(_) => {
            let snapshot = co.duplicate();
            apply_v6_compat_shims(&mut co, &snapshot);
        },
        None => match effective_compiler_options {
            Some(m) => {
                apply_v6_compat_shims(&mut co, m);
            },
            None => {
                let snapshot = co.duplicate();
                apply_v6_compat_shims(&mut co, &snapshot);
            },
        },
    }
    let mut root = JsonMap::new();
    match effective_base_url {
        Some(_) => {},
        None => {
            set(&mut root, "extends", JsonValue::Str(project_path.to_owned()));
        },
    }
    set(&mut root, "compilerOptions", JsonValue::Object(co));
    set(&mut root, "files", string_array(files));
    root
}

} // verus!
