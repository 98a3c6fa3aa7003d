//! Reading tsconfig values and resolving what an `extends` chain means.
//!
//! A chain is a sequence of `(directory, config)` pairs, root-most ancestor
//! first and the project's own tsconfig last.
use vstd::prelude::*;
use crate::json::{
    deep_entries, deep_value, lemma_deep_entries, map_of, JVal, JsonMap, JsonValue,
};
use crate::paths::{join, spec_join};

verus! {

/// `value.get(key)`: the member `key` of an object, `None` for anything else.
pub open spec fn spec_get(v: JsonValue, k: Seq<char>) -> Option<JsonValue> {
    match v {
        JsonValue::Object(m) => if m@.dom().contains(k) {
            Some(m@[k])
        } else {
            None
        },
        _ => None,
    }
}

/// `value.as_str()`.
pub open spec fn spec_as_str(v: Option<JsonValue>) -> Option<Seq<char>> {
    match v {
        Some(JsonValue::Str(s)) => Some(s@),
        _ => None,
    }
}

/// `compilerOptions.<name>` of a config.
pub open spec fn spec_option(cfg: JsonValue, name: Seq<char>) -> Option<JsonValue> {
    match spec_get(cfg, "compilerOptions"@) {
        Some(co) => spec_get(co, name),
        None => None,
    }
}

/// The member `key` of `v`, if `v` is an object that has it.
pub fn get<'a>(v: &'a JsonValue, key: &str) -> (r: Option<&'a JsonValue>)
    ensures
        match r {
            Some(x) => spec_get(*v, key@) == Some(*x),
            None => spec_get(*v, key@) is None,
        },
{
    match v {
        JsonValue::Object(m) => m.get(key),
        _ => None,
    }
}

/// `compilerOptions.<name>` of a config, if present.
pub fn compiler_option<'a>(cfg: &'a JsonValue, name: &str) -> (r: Option<&'a JsonValue>)
    ensures
        match r {
            Some(x) => spec_option(*cfg, name@) == Some(*x),
            None => spec_option(*cfg, name@) is None,
        },
{
    match get(cfg, "compilerOptions") {
        Some(co) => get(co, name),
        None => None,
    }
}

/// The effective `baseUrl` directory of a chain: the last config that sets
/// `compilerOptions.baseUrl` (a string) wins, joined onto its directory.
pub open spec fn spec_effective_base_url(chain: Seq<(String, JsonValue)>) -> Option<Seq<char>>
    decreases chain.len(),
{
    if chain.len() == 0 {
        None
    } else {
        match spec_as_str(spec_option(chain.last().1, "baseUrl"@)) {
            Some(b) => Some(spec_join(chain.last().0@, b)),
            None => spec_effective_base_url(chain.drop_last()),
        }
    }
}

/// Resolve the effective `baseUrl` of the chain as an absolute directory,
/// last one wins.
pub fn resolve_effective_base_url(chain: &[(String, JsonValue)]) -> (r: Option<String>)
    ensures
        match r {
            Some(s) => spec_effective_base_url(chain@) == Some(s@),
            None => spec_effective_base_url(chain@) is None,
        },
{
    let mut result: Option<String> = None;
    let mut i: usize = 0;
    while i < chain.len()
        invariant
            i <= chain@.len(),
            match result {
                Some(s) => spec_effective_base_url(chain@.take(i as int)) == Some(s@),
                None => spec_effective_base_url(chain@.take(i as int)) is None,
            },
        decreases chain@.len() - i,
    {
        let (dir, cfg) = &chain[i];
        proof {
            assert(chain@.take(i + 1).drop_last() =~= chain@.take(i as int));
            assert(chain@.take(i + 1).last() == chain@[i as int]);
        }
        match compiler_option(cfg, "baseUrl") {
            Some(JsonValue::Str(b)) => {
                result = Some(join(dir.as_str(), b.as_str()));
            },
            _ => {},
        }
        i = i + 1;
    }
    assert(chain@.take(i as int) =~= chain@);
    result
}

/// The directory of the last config in the chain that declares
/// `compilerOptions.typeRoots` as an array.
pub open spec fn spec_effective_type_roots_dir(chain: Seq<(String, JsonValue)>) -> Option<Seq<char>>
    decreases chain.len(),
{
    if chain.len() == 0 {
        None
    } else if spec_option(chain.last().1, "typeRoots"@) matches Some(JsonValue::Array(_)) {
        Some(chain.last().0@)
    } else {
        spec_effective_type_roots_dir(chain.drop_last())
    }
}

/// Directory of the last config in the chain to declare `typeRoots`: the
/// anchor against which its relative entries resolve.
pub fn resolve_effective_type_roots_dir(chain: &[(String, JsonValue)]) -> (r: Option<String>)
    ensures
        match r {
            Some(s) => spec_effective_type_roots_dir(chain@) == Some(s@),
            None => spec_effective_type_roots_dir(chain@) is None,
        },
{
    let mut result: Option<String> = None;
    let mut i: usize = 0;
    while i < chain.len()
        invariant
            i <= chain@.len(),
            match result {
                Some(s) => spec_effective_type_roots_dir(chain@.take(i as int)) == Some(s@),
                None => spec_effective_type_roots_dir(chain@.take(i as int)) is None,
            },
        decreases chain@.len() - i,
    {
        let (dir, cfg) = &chain[i];
        proof {
            assert(chain@.take(i + 1).drop_last() =~= chain@.take(i as int));
            assert(chain@.take(i + 1).last() == chain@[i as int]);
        }
        match compiler_option(cfg, "typeRoots") {
            Some(JsonValue::Array(_)) => {
                result = Some(dir.clone());
            },
            _ => {},
        }
        i = i + 1;
    }
    assert(chain@.take(i as int) =~= chain@);
    result
}

/// The deep map of a config's `compilerOptions` object (empty when it has
/// none or it is not an object).
pub open spec fn options_of(cfg: JsonValue) -> Map<Seq<char>, JVal> {
    match spec_get(cfg, "compilerOptions"@) {
        Some(JsonValue::Object(m)) => m.deep(),
        _ => Map::empty(),
    }
}

/// `compilerOptions` merged across the chain, key by key, the later config
/// winning.
pub open spec fn spec_merged_options(chain: Seq<(String, JsonValue)>) -> Map<Seq<char>, JVal>
    decreases chain.len(),
{
    if chain.len() == 0 {
        Map::empty()
    } else {
        spec_merged_options(chain.drop_last()).union_prefer_right(options_of(chain.last().1))
    }
}

/// Shallow-per-key merge of `compilerOptions` across the chain; the last
/// config to set a key wins.
pub fn resolve_effective_compiler_options(chain: &[(String, JsonValue)]) -> (r: JsonMap)
    ensures
        r.deep() == spec_merged_options(chain@),
{
    let mut merged = JsonMap::new();
    let mut i: usize = 0;
    while i < chain.len()
        invariant
            i <= chain@.len(),
            merged.deep() == spec_merged_options(chain@.take(i as int)),
        decreases chain@.len() - i,
    {
        let (_dir, cfg) = &chain[i];
        proof {
            assert(chain@.take(i + 1).drop_last() =~= chain@.take(i as int));
            assert(chain@.take(i + 1).last() == chain@[i as int]);
        }
        let ghost base = merged.deep();
        match get(cfg, "compilerOptions") {
            Some(JsonValue::Object(co)) => {
                let n = co.len();
                let mut j: usize = 0;
                while j < n
                    invariant
                        j <= n == co.entries_seq().len(),
                        merged.deep() == base.union_prefer_right(deep_entries(co.entries_seq().take(j as int))),
                    decreases n - j,
                {
                    let (k, v) = co.entry(j);
                    let ghost before = merged;
                    let key = k.clone();
                    let value = v.duplicate();
                    merged.insert(key, value);
                    proof {
                        before.lemma_deep_insert(&merged, k@, value);
                        let es = co.entries_seq().take(j + 1);
                        assert(es.drop_last() =~= co.entries_seq().take(j as int));
                        assert(es.last() == co.entries_seq()[j as int]);
                        assert(merged.deep() =~= base.union_prefer_right(deep_entries(es)));
                    }
                    j = j + 1;
                }
                assert(co.entries_seq().take(n as int) =~= co.entries_seq());
            },
            _ => {
                assert(base.union_prefer_right(Map::empty()) =~= base);
            },
        }
        i = i + 1;
    }
    assert(chain@.take(i as int) =~= chain@);
    merged
}

} // verus!

verus! {

/// A string entry made absolute against `anchor`; anything else unchanged.
pub open spec fn rewrite_entry_val(v: JVal, anchor: Seq<char>) -> JVal {
    match v {
        JVal::Str(s) => JVal::Str(crate::paths::spec_resolve_entry(s, anchor)),
        _ => v,
    }
}

/// Every string of an array made absolute against `anchor`; a value that is
/// not an array is unchanged.
pub open spec fn rewrite_array_val(v: JVal, anchor: Seq<char>) -> JVal {
    match v {
        JVal::Array(a) => JVal::Array(a.map_values(|x: JVal| rewrite_entry_val(x, anchor))),
        _ => v,
    }
}

/// Every array value of an object rewritten as by [`rewrite_array_val`]; a
/// value that is not an object is unchanged.
pub open spec fn rewrite_paths_val(v: JVal, anchor: Seq<char>) -> JVal {
    match v {
        JVal::Object(m) => JVal::Object(
            Map::new(|k: Seq<char>| m.dom().contains(k), |k: Seq<char>| rewrite_array_val(m[k], anchor)),
        ),
        _ => v,
    }
}

/// Make the string items of an array value absolute against `anchor`.
fn rewrite_array(v: JsonValue, anchor: &str) -> (r: JsonValue)
    ensures
        deep_value(r) == rewrite_array_val(deep_value(v), anchor@),
{
    match v {
        JsonValue::Array(items) => {
            let ghost orig = items@;
            let mut rest = items;
            let mut out: Vec<JsonValue> = Vec::new();
            let n = rest.len();
            let mut k: usize = 0;
            proof {
                crate::json::lemma_deep_items(orig);
            }
            while k < n
                invariant
                    k <= n == orig.len(),
                    rest@ == orig.skip(k as int),
                    out@.len() == k,
                    crate::json::deep_items(orig).len() == orig.len(),
                    forall|i: int| 0 <= i < orig.len() ==> #[trigger] crate::json::deep_items(orig)[i] == deep_value(orig[i]),
                    forall|i: int| 0 <= i < k ==> #[trigger] deep_value(out@[i]) == rewrite_entry_val(deep_value(orig[i]), anchor@),
                decreases n - k,
            {
                let x = rest.remove(0);
                assert(x == orig[k as int]);
                let y = match x {
                    JsonValue::Str(s) => JsonValue::Str(crate::paths::resolve_path_entry(s.as_str(), anchor)),
                    other => other,
                };
                out.push(y);
                assert(rest@ =~= orig.skip(k + 1));
                k = k + 1;
            }
            proof {
                crate::json::lemma_deep_items(out@);
                let lhs = crate::json::deep_items(out@);
                let rhs = crate::json::deep_items(orig).map_values(|x: JVal| rewrite_entry_val(x, anchor@));
                assert(lhs =~= rhs);
            }
            JsonValue::Array(out)
        },
        other => other,
    }
}

/// Rewrite every array value of an object value as [`rewrite_array`] does.
fn rewrite_paths_object(v: JsonValue, anchor: &str) -> (r: JsonValue)
    ensures
        deep_value(r) == rewrite_paths_val(deep_value(v), anchor@),
{
    match v {
        JsonValue::Object(m) => {
            let ghost es = m.entries_seq();
            let mut rest = m.into_entries();
            let mut out = JsonMap::new();
            let n = rest.len();
            let mut k: usize = 0;
            while k < n
                invariant
                    k <= n == es.len(),
                    rest@ == es.skip(k as int),
                    out.deep() == Map::new(
                        |key: Seq<char>| deep_entries(es.take(k as int)).dom().contains(key),
                        |key: Seq<char>| rewrite_array_val(deep_entries(es.take(k as int))[key], anchor@),
                    ),
                decreases n - k,
            {
                let (key, val) = rest.remove(0);
                assert((key, val) == es[k as int]);
                let ghost before = out;
                let y = rewrite_array(val, anchor);
                out.insert(key, y);
                proof {
                    before.lemma_deep_insert(&out, key@, y);
                    let t = es.take(k + 1);
                    assert(t.drop_last() =~= es.take(k as int));
                    assert(t.last() == es[k as int]);
                    assert(out.deep() =~= Map::new(
                        |kk: Seq<char>| deep_entries(t).dom().contains(kk),
                        |kk: Seq<char>| rewrite_array_val(deep_entries(t)[kk], anchor@),
                    ));
                }
                assert(rest@ =~= es.skip(k + 1));
                k = k + 1;
            }
            assert(es.take(n as int) =~= es);
            JsonValue::Object(out)
        },
        other => other,
    }
}

/// `compilerOptions` after making the entries of `paths` absolute.
pub open spec fn spec_rewrite_relative_paths(co: Map<Seq<char>, JVal>, anchor: Seq<char>) -> Map<Seq<char>, JVal> {
    if co.dom().contains("paths"@) {
        co.insert("paths"@, rewrite_paths_val(co["paths"@], anchor))
    } else {
        co
    }
}

/// `compilerOptions` after making the entries of `typeRoots` absolute.
pub open spec fn spec_rewrite_relative_type_roots(co: Map<Seq<char>, JVal>, anchor: Seq<char>) -> Map<Seq<char>, JVal> {
    if co.dom().contains("typeRoots"@) {
        co.insert("typeRoots"@, rewrite_array_val(co["typeRoots"@], anchor))
    } else {
        co
    }
}

/// The wildcard mapping that stands in for a `baseUrl` without `paths`.
pub open spec fn base_url_wildcard(dir: Seq<char>) -> JVal {
    JVal::Object(map![seq!['*'] => JVal::Array(seq![JVal::Str(dir + seq!['/', '*'])])])
}

/// `compilerOptions` after `baseUrl` is removed and `paths` anchored at the
/// directory it pointed to.
pub open spec fn spec_normalize_base_url(co: Map<Seq<char>, JVal>, dir: Seq<char>) -> Map<Seq<char>, JVal> {
    let c = co.remove("baseUrl"@);
    if c.dom().contains("paths"@) {
        spec_rewrite_relative_paths(c, dir)
    } else {
        c.insert("paths"@, base_url_wildcard(dir))
    }
}

/// Rewrite the value under `key` with `f`, where `f` is one of the two
/// rewrites above (selected by `paths`).
fn rewrite_member(co: &mut JsonMap, key: &str, anchor: &str, paths: bool)
    ensures
        final(co).deep() == (if old(co).deep().dom().contains(key@) {
            old(co).deep().insert(
                key@,
                if paths {
                    rewrite_paths_val(old(co).deep()[key@], anchor@)
                } else {
                    rewrite_array_val(old(co).deep()[key@], anchor@)
                },
            )
        } else {
            old(co).deep()
        }),
{
    proof {
        co.lemma_deep();
    }
    let ghost before = *co;
    match co.remove(key) {
        Some(v) => {
            let ghost mid = *co;
            proof {
                before.lemma_deep_remove(&mid, key@);
            }
            let y = if paths {
                rewrite_paths_object(v, anchor)
            } else {
                rewrite_array(v, anchor)
            };
            co.insert(key.to_owned(), y);
            proof {
                mid.lemma_deep_insert(&*co, key@, y);
                assert(co.deep() =~= before.deep().insert(key@, deep_value(y)));
            }
        },
        None => {
            proof {
                before.lemma_deep_remove(&*co, key@);
                assert(co.deep() =~= before.deep());
            }
        },
    }
}

/// Rewrite relative entries of `paths` to absolute paths anchored at
/// `paths_anchor`.
pub fn rewrite_relative_paths(compiler_options: &mut JsonMap, paths_anchor: &str)
    ensures
        final(compiler_options).deep() == spec_rewrite_relative_paths(old(compiler_options).deep(), paths_anchor@),
{
    rewrite_member(compiler_options, "paths", paths_anchor, true);
}

/// Rewrite relative entries of `typeRoots` to absolute paths anchored at
/// `type_roots_anchor` (the directory of the config that declared them).
pub fn rewrite_relative_type_roots(compiler_options: &mut JsonMap, type_roots_anchor: &str)
    ensures
        final(compiler_options).deep() == spec_rewrite_relative_type_roots(
            old(compiler_options).deep(),
            type_roots_anchor@,
        ),
{
    rewrite_member(compiler_options, "typeRoots", type_roots_anchor, false);
}

/// Remove `baseUrl` and rewrite `paths` to absolute paths anchored at
/// `base_url_dir`; without `paths`, map `*` to `<base_url_dir>/*`.
/// `typeRoots` is left alone.
pub fn normalize_base_url(compiler_options: &mut JsonMap, base_url_dir: &str)
    ensures
        final(compiler_options).deep() == spec_normalize_base_url(old(compiler_options).deep(), base_url_dir@),
{
    let ghost start = *compiler_options;
    let _ = compiler_options.remove("baseUrl");
    proof {
        start.lemma_deep_remove(&*compiler_options, "baseUrl"@);
        compiler_options.lemma_deep();
    }
    if compiler_options.contains_key("paths") {
        rewrite_member(compiler_options, "paths", base_url_dir, true);
    } else {
        let ghost mid = *compiler_options;
        let mut pattern = base_url_dir.to_owned();
        crate::text::push_str(&mut pattern, "/*");
        proof {
            reveal_strlit("/*");
            reveal_strlit("*");
            assert(pattern@ =~= base_url_dir@ + seq!['/', '*']);
            assert("*"@ =~= seq!['*']);
        }
        let ghost pat = pattern;
        let mut items: Vec<JsonValue> = Vec::new();
        items.push(JsonValue::Str(pattern));
        let mut wildcard = JsonMap::new();
        let ghost empty = wildcard;
        wildcard.insert("*".to_owned(), JsonValue::Array(items));
        compiler_options.insert("paths".to_owned(), JsonValue::Object(wildcard));
        proof {
            empty.lemma_deep_insert(&wildcard, "*"@, JsonValue::Array(items));
            mid.lemma_deep_insert(&*compiler_options, "paths"@, JsonValue::Object(wildcard));
            assert(empty.deep() =~= Map::<Seq<char>, JVal>::empty());
            assert(items@ =~= seq![JsonValue::Str(pat)]);
            crate::json::lemma_deep_items(items@);
            assert(crate::json::deep_items(items@) =~= seq![JVal::Str(base_url_dir@ + seq!['/', '*'])]);
            assert(wildcard.deep() =~= map![seq!['*'] => JVal::Array(seq![JVal::Str(base_url_dir@ + seq!['/', '*'])])]);
        }
    }
}

} // verus!
