//! Compatibility settings that keep TypeScript 6 defaults from changing the
//! diagnostics of code that was clean under TypeScript 5.
use vstd::prelude::*;
use crate::json::{deep_value, JVal, JsonMap, JsonValue};

verus! {

/// Set `k` to `true` when the effective options have it `false`.
pub open spec fn force_true(m: Map<Seq<char>, JVal>, eff: Map<Seq<char>, JVal>, k: Seq<char>) -> Map<Seq<char>, JVal> {
    if eff.dom().contains(k) && eff[k] == JVal::Bool(false) {
        m.insert(k, JVal::Bool(true))
    } else {
        m
    }
}

/// Set `k` to `v` when the effective options do not set `k`.
pub open spec fn default_to(m: Map<Seq<char>, JVal>, eff: Map<Seq<char>, JVal>, k: Seq<char>, v: JVal) -> Map<Seq<char>, JVal> {
    if eff.dom().contains(k) {
        m
    } else {
        m.insert(k, v)
    }
}

/// The options after the shims: `ignoreDeprecations: "6.0"`,
/// `noUncheckedSideEffectImports: false` and `libReplacement: true` where the
/// user set nothing; `esModuleInterop`, `allowSyntheticDefaultImports` and
/// `alwaysStrict` turned to `true` where the user set them `false`.
pub open spec fn spec_v6_shims(co: Map<Seq<char>, JVal>, eff: Map<Seq<char>, JVal>) -> Map<Seq<char>, JVal> {
    let a = default_to(co, eff, "ignoreDeprecations"@, JVal::Str("6.0"@));
    let b = force_true(a, eff, "esModuleInterop"@);
    let c = force_true(b, eff, "allowSyntheticDefaultImports"@);
    let d = force_true(c, eff, "alwaysStrict"@);
    let e = default_to(d, eff, "noUncheckedSideEffectImports"@, JVal::Bool(false));
    default_to(e, eff, "libReplacement"@, JVal::Bool(true))
}

/// The keys the shims may write.
pub open spec fn shim_key(k: Seq<char>) -> bool {
    k == "ignoreDeprecations"@ || k == "esModuleInterop"@ || k == "allowSyntheticDefaultImports"@
        || k == "alwaysStrict"@ || k == "noUncheckedSideEffectImports"@ || k == "libReplacement"@
}

fn set_default(co: &mut JsonMap, effective: &JsonMap, key: &str, value: JsonValue)
    ensures
        final(co).deep() == default_to(old(co).deep(), effective.deep(), key@, deep_value(value)),
{
    proof {
        effective.lemma_deep();
    }
    if !effective.contains_key(key) {
        let ghost before = *co;
        co.insert(key.to_owned(), value);
        proof {
            before.lemma_deep_insert(&*co, key@, value);
        }
    }
}

fn set_true_if_false(co: &mut JsonMap, effective: &JsonMap, key: &str)
    ensures
        final(co).deep() == force_true(old(co).deep(), effective.deep(), key@),
{
    proof {
        effective.lemma_deep();
    }
    match effective.get(key) {
        Some(JsonValue::Bool(false)) => {
            let ghost before = *co;
            co.insert(key.to_owned(), JsonValue::Bool(true));
            proof {
                before.lemma_deep_insert(&*co, key@, JsonValue::Bool(true));
            }
        },
        _ => {},
    }
}

/// Apply the TypeScript 5 to 6 compatibility shims to the options about to
/// be written. `effective_options` is the merged view of the whole extends
/// chain and decides whether the user set a key anywhere.
pub fn apply_v6_compat_shims(compiler_options: &mut JsonMap, effective_options: &JsonMap)
    ensures
        final(compiler_options).deep() == spec_v6_shims(old(compiler_options).deep(), effective_options.deep()),
{
    let version = "6.0".to_owned();
    set_default(compiler_options, effective_options, "ignoreDeprecations", JsonValue::Str(version));
    set_true_if_false(compiler_options, effective_options, "esModuleInterop");
    set_true_if_false(compiler_options, effective_options, "allowSyntheticDefaultImports");
    set_true_if_false(compiler_options, effective_options, "alwaysStrict");
    set_default(compiler_options, effective_options, "noUncheckedSideEffectImports", JsonValue::Bool(false));
    set_default(compiler_options, effective_options, "libReplacement", JsonValue::Bool(true));
}

/// Applying the shims twice with the same effective options changes nothing
/// more than applying them once.
pub proof fn law_v6_shims_idempotent(co: Map<Seq<char>, JVal>, eff: Map<Seq<char>, JVal>)
    ensures
        spec_v6_shims(spec_v6_shims(co, eff), eff) == spec_v6_shims(co, eff),
{
    assert(spec_v6_shims(spec_v6_shims(co, eff), eff) =~= spec_v6_shims(co, eff));
}

/// The shims touch no key but their own: every other option keeps its
/// presence and its value.
pub proof fn law_v6_shims_leave_other_keys(co: Map<Seq<char>, JVal>, eff: Map<Seq<char>, JVal>, k: Seq<char>)
    requires
        !shim_key(k),
    ensures
        spec_v6_shims(co, eff).dom().contains(k) == co.dom().contains(k),
        co.dom().contains(k) ==> spec_v6_shims(co, eff)[k] == co[k],
{
}

} // verus!
