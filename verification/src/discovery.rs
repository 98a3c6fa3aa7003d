//! Where things are looked for on disk: ancestors' `node_modules`, type
//! roots, `extends` targets and the compiler binary. The library computes
//! the candidates and reads what was found; the caller looks at the disk.
use vstd::prelude::*;
use crate::config::{get, spec_as_str, spec_get, spec_option};
use crate::files::{extension_of, file_name_of};
use crate::json::{JsonMap, JsonValue};
use crate::order::{compare_text, lemma_text_lt_irrefl, lemma_text_lt_total, lemma_text_lt_trans, text_lt};
use crate::paths::{join, last_slash, spec_join, resolve_path_entry, spec_resolve_entry};
use crate::sorting::{sort_dedup, sorted_dedup_of};
use crate::text::{push_char, push_str, string_of, to_chars, views, str_equal};
use crate::tsconfig::{spec_array_field, spec_str_items, str_items};

verus! {

/// `Path::parent` of a posix path without a trailing `/`: none for `/`
/// and for the empty path; the part before the last `/` (`/` for a child
/// of the root); the empty path for a single relative segment.
pub open spec fn path_parent(p: Seq<char>) -> Option<Seq<char>> {
    if p.len() == 0 || p == seq!['/'] {
        None
    } else {
        match last_slash(p) {
            Some(i) => if i == 0 {
                Some(seq!['/'])
            } else {
                Some(p.take(i))
            },
            None => Some(Seq::empty()),
        }
    }
}

pub proof fn lemma_last_slash_bound(p: Seq<char>)
    ensures
        match last_slash(p) {
            Some(i) => 0 <= i < p.len(),
            None => true,
        },
    decreases p.len(),
{
    if p.len() > 0 && p.last() != '/' {
        lemma_last_slash_bound(p.drop_last());
    }
}

pub proof fn lemma_parent_shorter(p: Seq<char>)
    ensures
        path_parent(p) matches Some(q) ==> q.len() < p.len(),
{
    lemma_last_slash_bound(p);
    if p.len() == 1 {
        if p[0] == '/' {
            assert(p =~= seq!['/']);
        } else {
            assert(p.last() == p[0]);
            assert(last_slash(p) == last_slash(p.drop_last()));
            assert(p.drop_last().len() == 0);
        }
    }
}

/// `p` and its ancestors, nearest first.
pub open spec fn ancestors(p: Seq<char>) -> Seq<Seq<char>>
    decreases p.len(),
{
    match path_parent(p) {
        Some(q) => {
            proof {
                lemma_parent_shorter(p);
            }
            if q.len() < p.len() {
                seq![p] + ancestors(q)
            } else {
                seq![p]
            }
        },
        None => seq![p],
    }
}

/// The parent of `p` (see [`path_parent`]).
pub fn parent_of(p: &str) -> (r: Option<String>)
    ensures
        match r {
            Some(q) => path_parent(p@) == Some(q@),
            None => path_parent(p@) is None,
        },
{
    let v = to_chars(p);
    let n = v.len();
    if n == 0 || (n == 1 && v[0] == '/') {
        proof {
            if n == 1 {
                assert(p@ =~= seq!['/']);
            }
        }
        return None;
    }
    proof {
        if n == 1 {
            assert(p@ != seq!['/']) by {
                assert(p@[0] != '/');
            }
        }
    }
    let mut i = n;
    assert(v@.take(n as int) =~= v@);
    while i > 0 && v[i - 1] != '/'
        invariant
            i <= v@.len(),
            v@ == p@,
            last_slash(p@) == last_slash(v@.take(i as int)),
        decreases i,
    {
        assert(v@.take(i as int).drop_last() =~= v@.take(i - 1));
        i = i - 1;
    }
    if i == 0 {
        assert(last_slash(v@.take(0)) == None::<int>);
        return Some(String::new());
    }
    assert(last_slash(v@.take(i as int)) == Some(i - 1));
    if i == 1 {
        let mut r = String::new();
        push_char(&mut r, '/');
        assert(r@ =~= seq!['/']);
        return Some(r);
    }
    let r = string_of(&v, 0, i - 1);
    assert(r@ =~= p@.take(i - 1));
    Some(r)
}

/// `p` and its ancestors, nearest first (see [`ancestors`]).
pub fn ancestors_of(p: &str) -> (r: Vec<String>)
    ensures
        views(r@) == ancestors(p@),
    decreases p@.len(),
{
    let mut r: Vec<String> = Vec::new();
    r.push(p.to_owned());
    match parent_of(p) {
        Some(q) => {
            proof {
                lemma_parent_shorter(p@);
            }
            let rest = ancestors_of(q.as_str());
            let mut i: usize = 0;
            while i < rest.len()
                invariant
                    i <= rest@.len(),
                    views(r@) == seq![p@] + views(rest@).take(i as int),
                decreases rest@.len() - i,
            {
                let ghost before = views(r@);
                r.push(rest[i].clone());
                assert(views(r@) =~= before.push(rest@[i as int]@));
                assert(views(rest@).take(i + 1) =~= views(rest@).take(i as int).push(rest@[i as int]@));
                i = i + 1;
            }
            assert(views(rest@).take(i as int) =~= views(rest@));
            r
        },
        None => {
            assert(views(r@) =~= seq![p@]);
            r
        },
    }
}

/// `dir/a/b` for each directory.
pub open spec fn under_each(dirs: Seq<Seq<char>>, a: Seq<char>, b: Seq<char>) -> Seq<Seq<char>> {
    dirs.map_values(|d: Seq<char>| spec_join(spec_join(d, a), b))
}

/// `dir/a/b` for each directory (see [`under_each`]).
fn join_under(dirs: &Vec<String>, a: &str, b: &str) -> (r: Vec<String>)
    ensures
        views(r@) == under_each(views(dirs@), a@, b@),
{
    let mut r: Vec<String> = Vec::new();
    let mut i: usize = 0;
    while i < dirs.len()
        invariant
            i <= dirs@.len(),
            r@.len() == i,
            forall|j: int| 0 <= j < i ==> #[trigger] r@[j]@ == spec_join(spec_join(dirs@[j]@, a@), b@),
        decreases dirs@.len() - i,
    {
        let first = join(dirs[i].as_str(), a);
        r.push(join(first.as_str(), b));
        i = i + 1;
    }
    assert(views(r@) =~= under_each(views(dirs@), a@, b@));
    r
}

// ---------------------------------------------------------------------
// Type roots

/// Some config of the chain sets `compilerOptions.types`, to anything.
pub open spec fn spec_types_set(chain: Seq<(String, JsonValue)>) -> bool {
    exists|i: int|
        0 <= i < chain.len() && (match spec_get(#[trigger] chain[i].1, "compilerOptions"@) {
            Some(JsonValue::Object(m)) => m@.dom().contains("types"@),
            _ => false,
        })
}

/// Does some config of the chain set `compilerOptions.types`?
pub fn types_explicitly_set(chain: &[(String, JsonValue)]) -> (r: bool)
    ensures
        r == spec_types_set(chain@),
{
    let mut i: usize = 0;
    while i < chain.len()
        invariant
            i <= chain@.len(),
            forall|j: int|
                0 <= j < i ==> !(match spec_get(#[trigger] chain@[j].1, "compilerOptions"@) {
                    Some(JsonValue::Object(m)) => m@.dom().contains("types"@),
                    _ => false,
                }),
        decreases chain@.len() - i,
    {
        match get(&chain[i].1, "compilerOptions") {
            Some(JsonValue::Object(m)) => {
                if m.contains_key("types") {
                    return true;
                }
            },
            _ => {},
        }
        i = i + 1;
    }
    false
}

/// The `typeRoots` of the last config that declares them, each resolved
/// against that config's directory.
pub open spec fn spec_configured_type_roots(chain: Seq<(String, JsonValue)>) -> Option<Seq<Seq<char>>>
    decreases chain.len(),
{
    if chain.len() == 0 {
        None
    } else {
        match spec_option(chain.last().1, "typeRoots"@) {
            Some(JsonValue::Array(a)) => Some(
                spec_str_items(a@).map_values(|e: Seq<char>| spec_resolve_entry(e, chain.last().0@)),
            ),
            _ => spec_configured_type_roots(chain.drop_last()),
        }
    }
}

/// Where types are looked for: the configured `typeRoots`, or else every
/// `node_modules/@types` from the project directory up.
pub open spec fn spec_type_root_candidates(chain: Seq<(String, JsonValue)>, project_dir: Seq<char>) -> Seq<
    Seq<char>,
> {
    match spec_configured_type_roots(chain) {
        Some(roots) => roots,
        None => under_each(ancestors(project_dir), "node_modules"@, "@types"@),
    }
}

/// The directories in which type packages are looked for (see
/// [`spec_type_root_candidates`]); those that are not directories are
/// skipped by the caller.
pub fn type_root_candidates(chain: &[(String, JsonValue)], project_dir: &str) -> (r: Vec<String>)
    ensures
        views(r@) == spec_type_root_candidates(chain@, project_dir@),
{
    let mut i: usize = chain.len();
    assert(chain@.take(i as int) =~= chain@);
    while i > 0
        invariant
            i <= chain@.len(),
            spec_configured_type_roots(chain@) == spec_configured_type_roots(chain@.take(i as int)),
        decreases i,
    {
        proof {
            assert(chain@.take(i as int).drop_last() =~= chain@.take(i - 1));
            assert(chain@.take(i as int).last() == chain@[i - 1]);
        }
        let (dir, cfg) = &chain[i - 1];
        match crate::config::compiler_option(cfg, "typeRoots") {
            Some(JsonValue::Array(a)) => {
                let entries = str_items(a.as_slice());
                let mut r: Vec<String> = Vec::new();
                let mut j: usize = 0;
                while j < entries.len()
                    invariant
                        j <= entries@.len(),
                        r@.len() == j,
                        forall|k: int| 0 <= k < j ==> #[trigger] r@[k]@ == spec_resolve_entry(entries@[k]@, dir@),
                    decreases entries@.len() - j,
                {
                    r.push(resolve_path_entry(entries[j].as_str(), dir.as_str()));
                    j = j + 1;
                }
                assert(views(r@) =~= views(entries@).map_values(|e: Seq<char>| spec_resolve_entry(e, dir@)));
                return r;
            },
            _ => {},
        }
        i = i - 1;
    }
    let dirs = ancestors_of(project_dir);
    join_under(&dirs, "node_modules", "@types")
}

/// One entry of a type root directory as the caller found it: its name,
/// whether it is a directory, and, for a scoped (`@`) directory, its own
/// entries with whether each is a directory.
#[derive(Debug)]
pub struct TypeRootEntry {
    pub name: String,
    pub is_dir: bool,
    pub children: Vec<(String, bool)>,
}

/// `s` starts with `c`.
pub open spec fn starts_with_char(s: Seq<char>, c: char) -> bool {
    s.len() > 0 && s[0] == c
}

/// The scoped directives of one scope: `scope/child` for each child
/// directory not starting with `.`.
pub open spec fn scoped_names(scope: Seq<char>, children: Seq<(String, bool)>) -> Seq<Seq<char>>
    decreases children.len(),
{
    if children.len() == 0 {
        Seq::empty()
    } else {
        let rest = scoped_names(scope, children.drop_last());
        let c = children.last();
        if !starts_with_char(c.0@, '.') && c.1 {
            rest.push(scope + seq!['/'] + c.0@)
        } else {
            rest
        }
    }
}

/// The type directive names of one type root: directories not starting
/// with `.`, scoped ones expanded one level.
pub open spec fn root_names(entries: Seq<TypeRootEntry>) -> Seq<Seq<char>>
    decreases entries.len(),
{
    if entries.len() == 0 {
        Seq::empty()
    } else {
        let rest = root_names(entries.drop_last());
        let e = entries.last();
        if starts_with_char(e.name@, '.') || !e.is_dir {
            rest
        } else if starts_with_char(e.name@, '@') {
            rest + scoped_names(e.name@, e.children@)
        } else {
            rest.push(e.name@)
        }
    }
}

/// The names of all the roots, in order.
pub open spec fn all_root_names(roots: Seq<Vec<TypeRootEntry>>) -> Seq<Seq<char>>
    decreases roots.len(),
{
    if roots.len() == 0 {
        Seq::empty()
    } else {
        all_root_names(roots.drop_last()) + root_names(roots.last()@)
    }
}

/// Does the text start with `c`?
fn starts_with_ch(s: &str, c: char) -> (r: bool)
    ensures
        r == starts_with_char(s@, c),
{
    s.unicode_len() > 0 && s.get_char(0) == c
}

/// The directive names of one root, appended to `out`.
fn push_root_names(entries: &Vec<TypeRootEntry>, out: &mut Vec<String>)
    ensures
        views(final(out)@) == views(old(out)@) + root_names(entries@),
{
    let ghost start = views(out@);
    let mut i: usize = 0;
    while i < entries.len()
        invariant
            i <= entries@.len(),
            views(out@) == start + root_names(entries@.take(i as int)),
        decreases entries@.len() - i,
    {
        proof {
            assert(entries@.take(i + 1).drop_last() =~= entries@.take(i as int));
            assert(entries@.take(i + 1).last() == entries@[i as int]);
        }
        let e = &entries[i];
        let ghost before = views(out@);
        if starts_with_ch(e.name.as_str(), '.') || !e.is_dir {
        } else if starts_with_ch(e.name.as_str(), '@') {
            let mut j: usize = 0;
            while j < e.children.len()
                invariant
                    j <= e.children@.len(),
                    views(out@) == before + scoped_names(e.name@, e.children@.take(j as int)),
                decreases e.children@.len() - j,
            {
                proof {
                    assert(e.children@.take(j + 1).drop_last() =~= e.children@.take(j as int));
                    assert(e.children@.take(j + 1).last() == e.children@[j as int]);
                }
                let (child, is_dir) = &e.children[j];
                if !starts_with_ch(child.as_str(), '.') && *is_dir {
                    let mut s = e.name.clone();
                    assert(s@ == e.name@);
                    push_char(&mut s, '/');
                    push_str(&mut s, child.as_str());
                    assert(s@ =~= e.name@ + seq!['/'] + child@);
                    let ghost mid = views(out@);
                    out.push(s);
                    assert(views(out@) =~= mid.push(e.name@ + seq!['/'] + child@));
                }
                assert(views(out@) =~= before + scoped_names(e.name@, e.children@.take(j + 1)));
                j = j + 1;
            }
            assert(e.children@.take(j as int) =~= e.children@);
        } else {
            out.push(e.name.clone());
            assert(views(out@) =~= before.push(e.name@));
        }
        assert(views(out@) =~= start + root_names(entries@.take(i + 1)));
        i = i + 1;
    }
    assert(entries@.take(i as int) =~= entries@);
}

/// The type directives to name explicitly: none when the chain sets
/// `types` (the user's choice stands); otherwise every package found in
/// the listed type roots, sorted, without duplicates. `listings` holds the
/// entries of each candidate root that is a directory.
pub fn resolve_auto_type_directives(chain: &[(String, JsonValue)], listings: &[Vec<TypeRootEntry>]) -> (r: Option<
    Vec<String>,
>)
    ensures
        spec_types_set(chain@) ==> r is None,
        !spec_types_set(chain@) ==> (r matches Some(v) && sorted_dedup_of(
            views(v@),
            all_root_names(listings@),
            false,
        )),
{
    if types_explicitly_set(chain) {
        return None;
    }
    let mut names: Vec<String> = Vec::new();
    let mut i: usize = 0;
    assert(views(names@) =~= Seq::<Seq<char>>::empty());
    while i < listings.len()
        invariant
            i <= listings@.len(),
            views(names@) == all_root_names(listings@.take(i as int)),
        decreases listings@.len() - i,
    {
        proof {
            assert(listings@.take(i + 1).drop_last() =~= listings@.take(i as int));
            assert(listings@.take(i + 1).last() == listings@[i as int]);
        }
        push_root_names(&listings[i], &mut names);
        i = i + 1;
    }
    assert(listings@.take(i as int) =~= listings@);
    Some(sort_dedup(names, false))
}

// ---------------------------------------------------------------------
// Extends

/// `ensure_json_extension`: a path without an extension gets `.json`.
pub open spec fn spec_ensure_json(p: Seq<char>) -> Seq<char> {
    if extension_of(file_name_of(p)) is Some {
        p
    } else {
        p + ".json"@
    }
}

/// Does the file name of `p` have an extension?
fn has_extension(p: &str) -> (r: bool)
    ensures
        r == (extension_of(file_name_of(p@)) is Some),
{
    let v = to_chars(p);
    let mut i = v.len();
    assert(v@.take(i as int) =~= v@);
    while i > 0 && v[i - 1] != '/'
        invariant
            i <= v@.len(),
            v@ == p@,
            crate::files::last_index(p@, '/') == crate::files::last_index(v@.take(i as int), '/'),
        decreases i,
    {
        assert(v@.take(i as int).drop_last() =~= v@.take(i - 1));
        i = i - 1;
    }
    let start = i;
    proof {
        if i > 0 {
            assert(v@.take(i as int).last() == v@[i - 1]);
        }
    }
    let ghost name = file_name_of(p@);
    assert(name =~= v@.skip(start as int));
    let mut k = v.len();
    assert(name.take(k - start) =~= name);
    while k > start && v[k - 1] != '.'
        invariant
            start <= k <= v@.len(),
            name == v@.skip(start as int),
            crate::files::last_index(name, '.') == crate::files::last_index(name.take(k - start), '.'),
        decreases k,
    {
        assert(name.take(k - start).drop_last() =~= name.take(k - start - 1));
        assert(name.take(k - start).last() == v@[k - 1]);
        k = k - 1;
    }
    if k == start {
        assert(crate::files::last_index(name.take(0), '.') is None);
        return false;
    }
    assert(name.take(k - start).last() == v@[k - 1]);
    k - 1 > start
}

/// `path` with `.json` appended when its file name has no extension.
pub fn ensure_json_extension(path: &str) -> (r: String)
    ensures
        r@ == spec_ensure_json(path@),
{
    if has_extension(path) {
        path.to_owned()
    } else {
        let mut s = path.to_owned();
        push_str(&mut s, ".json");
        s
    }
}

/// Where an `extends` specifier points: a path (it starts with `.` or
/// `/`), made absolute against the extending config's directory and given
/// `.json` when it has no extension; otherwise a package, looked up in
/// `node_modules`.
pub enum ExtendsTarget {
    Path(String),
    Package,
}

/// Resolve an `extends` specifier that is a path (see [`ExtendsTarget`]).
pub fn resolve_extends_path(base_dir: &str, spec: &str) -> (r: ExtendsTarget)
    ensures
        (starts_with_char(spec@, '.') || starts_with_char(spec@, '/')) ==> (r matches ExtendsTarget::Path(p) && p@
            == spec_ensure_json(spec_join(base_dir@, spec@))),
        !(starts_with_char(spec@, '.') || starts_with_char(spec@, '/')) ==> r is Package,
{
    if starts_with_ch(spec, '.') || starts_with_ch(spec, '/') {
        let joined = join(base_dir, spec);
        ExtendsTarget::Path(ensure_json_extension(joined.as_str()))
    } else {
        ExtendsTarget::Package
    }
}

/// The places a package specifier is looked for, nearest first: for each
/// ancestor directory, `node_modules/<spec>` as it is and with `.json`.
pub fn node_module_candidates(base_dir: &str, spec: &str) -> (r: Vec<(String, String)>)
    ensures
        r@.len() == ancestors(base_dir@).len(),
        forall|i: int|
            0 <= i < r@.len() ==> #[trigger] r@[i].0@ == spec_join(
                spec_join(ancestors(base_dir@)[i], "node_modules"@),
                spec@,
            ) && r@[i].1@ == spec_ensure_json(r@[i].0@),
{
    let dirs = ancestors_of(base_dir);
    let mut r: Vec<(String, String)> = Vec::new();
    let mut i: usize = 0;
    while i < dirs.len()
        invariant
            i <= dirs@.len(),
            views(dirs@) == ancestors(base_dir@),
            r@.len() == i,
            forall|k: int|
                0 <= k < i ==> #[trigger] r@[k].0@ == spec_join(
                    spec_join(dirs@[k]@, "node_modules"@),
                    spec@,
                ) && r@[k].1@ == spec_ensure_json(r@[k].0@),
        decreases dirs@.len() - i,
    {
        let nm = join(dirs[i].as_str(), "node_modules");
        let candidate = join(nm.as_str(), spec);
        let with_json = ensure_json_extension(candidate.as_str());
        r.push((candidate, with_json));
        i = i + 1;
    }
    proof {
        assert forall|k: int| 0 <= k < r@.len() implies dirs@[k]@ == ancestors(base_dir@)[k] by {
            assert(views(dirs@)[k] == dirs@[k]@);
        }
    }
    r
}

/// The `extends` specifier of a config, when it is a string.
pub fn extends_specifier(config: &JsonValue) -> (r: Option<String>)
    ensures
        match r {
            Some(s) => spec_as_str(spec_get(*config, "extends"@)) == Some(s@),
            None => spec_as_str(spec_get(*config, "extends"@)) is None,
        },
{
    match get(config, "extends") {
        Some(JsonValue::Str(s)) => Some(s.clone()),
        _ => None,
    }
}

/// The `tsconfig` field of a package's `package.json`, when it is a string.
pub fn package_tsconfig_field(pkg: &JsonValue) -> (r: Option<String>)
    ensures
        match r {
            Some(s) => spec_as_str(spec_get(*pkg, "tsconfig"@)) == Some(s@),
            None => spec_as_str(spec_get(*pkg, "tsconfig"@)) is None,
        },
{
    match get(pkg, "tsconfig") {
        Some(JsonValue::Str(s)) => Some(s.clone()),
        _ => None,
    }
}

/// The walk up an `extends` chain: the configs read so far, leaf first,
/// and the canonical paths already visited, so that a cycle ends the walk.
pub struct ExtendsWalk {
    visited: Vec<String>,
    configs: Vec<(String, JsonValue)>,
}

impl ExtendsWalk {
    /// The canonical paths visited, in order.
    pub closed spec fn visited(&self) -> Seq<Seq<char>> {
        views(self.visited@)
    }

    /// The configs read, leaf first.
    pub closed spec fn configs(&self) -> Seq<(String, JsonValue)> {
        self.configs@
    }

    /// Nothing visited twice.
    pub open spec fn well_formed(&self) -> bool {
        forall|i: int, j: int|
            0 <= i < j < self.visited().len() ==> #[trigger] self.visited()[i] != #[trigger] self.visited()[j]
    }

    /// A walk that has visited nothing.
    pub fn new() -> (w: ExtendsWalk)
        ensures
            w.visited().len() == 0,
            w.configs().len() == 0,
            w.well_formed(),
    {
        let w = ExtendsWalk { visited: Vec::new(), configs: Vec::new() };
        assert(w.visited() =~= Seq::<Seq<char>>::empty());
        w
    }

    /// Visit a config file by its canonical path: false, and nothing
    /// changes, when it was visited before (the chain loops); true when it
    /// is new, and it is recorded.
    pub fn visit(&mut self, canonical: &str) -> (r: bool)
        requires
            old(self).well_formed(),
        ensures
            r == !old(self).visited().contains(canonical@),
            r ==> final(self).visited() == old(self).visited().push(canonical@),
            !r ==> final(self).visited() == old(self).visited(),
            final(self).configs() == old(self).configs(),
            final(self).well_formed(),
    {
        let mut i: usize = 0;
        while i < self.visited.len()
            invariant
                i <= self.visited@.len(),
                *self == *old(self),
                self.well_formed(),
                forall|j: int| 0 <= j < i ==> #[trigger] self.visited@[j]@ != canonical@,
            decreases self.visited@.len() - i,
        {
            if str_equal(self.visited[i].as_str(), canonical) {
                proof {
                    assert(self.visited()[i as int] == canonical@);
                }
                return false;
            }
            i = i + 1;
        }
        proof {
            assert forall|j: int| 0 <= j < self.visited().len() implies self.visited()[j] != canonical@ by {
                assert(self.visited()[j] == self.visited@[j]@);
            }
        }
        let ghost before = self.visited();
        self.visited.push(canonical.to_owned());
        assert(self.visited() =~= before.push(canonical@));
        proof {
            assert forall|i: int, j: int| 0 <= i < j < self.visited().len() implies #[trigger] self.visited()[i]
                != #[trigger] self.visited()[j] by {
                if j < before.len() {
                    assert(self.visited()[i] == before[i] && self.visited()[j] == before[j]);
                } else {
                    assert(self.visited()[j] == canonical@);
                    assert(self.visited()[i] == before[i]);
                }
            }
        }
        true
    }

    /// Record the config read at `dir` (the directory of its file).
    pub fn record(&mut self, dir: String, config: JsonValue)
        ensures
            final(self).configs() == old(self).configs().push((dir, config)),
            final(self).visited() == old(self).visited(),
    {
        self.configs.push((dir, config));
    }

    /// The chain, root-most ancestor first and the project last.
    pub fn into_chain(self) -> (r: Vec<(String, JsonValue)>)
        ensures
            r@ == self.configs().reverse(),
    {
        let mut configs = self.configs;
        let ghost orig = configs@;
        let mut r: Vec<(String, JsonValue)> = Vec::new();
        while configs.len() > 0
            invariant
                configs@ == orig.take(configs@.len() as int),
                r@ == orig.skip(configs@.len() as int).reverse(),
                configs@.len() <= orig.len(),
            decreases configs@.len(),
        {
            let ghost n = configs@.len();
            let last = configs.pop().unwrap();
            proof {
                assert(configs@ =~= orig.take(n - 1));
                assert(last == orig[n - 1]);
            }
            let ghost before = r@;
            r.push(last);
            assert(r@ =~= orig.skip(n - 1).reverse()) by {
                assert(orig.skip(n - 1) =~= seq![orig[n - 1]] + orig.skip(n as int));
            }
        }
        assert(orig.skip(0) =~= orig);
        r
    }
}

// ---------------------------------------------------------------------
// The compiler binary

/// The `{platform}-{arch}` suffix of the native compiler packages for an OS
/// and architecture as Rust names them (`std::env::consts`).
pub open spec fn spec_platform_suffix(os: Seq<char>, arch: Seq<char>) -> Option<Seq<char>> {
    let platform = if os == "linux"@ {
        Some("linux"@)
    } else if os == "macos"@ {
        Some("darwin"@)
    } else if os == "windows"@ {
        Some("win32"@)
    } else {
        None
    };
    let a = if arch == "x86_64"@ {
        Some("x64"@)
    } else if arch == "aarch64"@ {
        Some("arm64"@)
    } else if arch == "arm"@ {
        Some("arm"@)
    } else {
        None
    };
    match (platform, a) {
        (Some(p), Some(x)) => Some(p + seq!['-'] + x),
        _ => None,
    }
}

/// The platform suffix, or none on targets no distribution ships.
pub fn platform_suffix(os: &str, arch: &str) -> (r: Option<String>)
    ensures
        match r {
            Some(s) => spec_platform_suffix(os@, arch@) == Some(s@),
            None => spec_platform_suffix(os@, arch@) is None,
        },
{
    let platform = if str_equal(os, "linux") {
        "linux"
    } else if str_equal(os, "macos") {
        "darwin"
    } else if str_equal(os, "windows") {
        "win32"
    } else {
        return None;
    };
    let a = if str_equal(arch, "x86_64") {
        "x64"
    } else if str_equal(arch, "aarch64") {
        "arm64"
    } else if str_equal(arch, "arm") {
        "arm"
    } else {
        return None;
    };
    let mut s = platform.to_owned();
    push_char(&mut s, '-');
    push_str(&mut s, a);
    Some(s)
}

/// The executable's file name: `.exe` appended on Windows.
pub fn exe_file_name(base: &str, windows: bool) -> (r: String)
    ensures
        r@ == (if windows {
            base@ + ".exe"@
        } else {
            base@
        }),
{
    let mut s = base.to_owned();
    if windows {
        push_str(&mut s, ".exe");
    }
    s
}

/// Where a distribution's native binary may be, nearest first: for each
/// ancestor of `start`, `node_modules/<base>-<suffix>/lib/<exe>`.
pub fn platform_binary_candidates(start: &str, package_base: &str, suffix: &str, exe: &str) -> (r: Vec<
    String,
>)
    ensures
        r@.len() == ancestors(start@).len(),
        forall|i: int|
            0 <= i < r@.len() ==> #[trigger] r@[i]@ == spec_join(
                spec_join(
                    spec_join(spec_join(ancestors(start@)[i], "node_modules"@), package_base@ + seq!['-'] + suffix@),
                    "lib"@,
                ),
                exe@,
            ),
{
    let mut package = package_base.to_owned();
    push_char(&mut package, '-');
    push_str(&mut package, suffix);
    let dirs = ancestors_of(start);
    let mut r: Vec<String> = Vec::new();
    let mut i: usize = 0;
    while i < dirs.len()
        invariant
            i <= dirs@.len(),
            views(dirs@) == ancestors(start@),
            package@ == package_base@ + seq!['-'] + suffix@,
            r@.len() == i,
            forall|k: int|
                0 <= k < i ==> #[trigger] r@[k]@ == spec_join(
                    spec_join(spec_join(spec_join(dirs@[k]@, "node_modules"@), package@), "lib"@),
                    exe@,
                ),
        decreases dirs@.len() - i,
    {
        let a = join(dirs[i].as_str(), "node_modules");
        let b = join(a.as_str(), package.as_str());
        let c = join(b.as_str(), "lib");
        r.push(join(c.as_str(), exe));
        i = i + 1;
    }
    proof {
        assert forall|k: int| 0 <= k < r@.len() implies dirs@[k]@ == ancestors(start@)[k] by {
            assert(views(dirs@)[k] == dirs@[k]@);
        }
    }
    r
}

/// The package directories looked in for a `bin` entry, nearest first:
/// `node_modules/<package>` under each ancestor of `start`.
pub fn package_dirs(start: &str, package: &str) -> (r: Vec<String>)
    ensures
        r@.len() == ancestors(start@).len(),
        forall|i: int|
            0 <= i < r@.len() ==> #[trigger] r@[i]@ == spec_join(
                spec_join(ancestors(start@)[i], "node_modules"@),
                package@,
            ),
{
    let dirs = ancestors_of(start);
    let r = join_under(&dirs, "node_modules", package);
    proof {
        assert(views(r@).len() == r@.len());
        assert forall|i: int| 0 <= i < r@.len() implies #[trigger] r@[i]@ == spec_join(
            spec_join(ancestors(start@)[i], "node_modules"@),
            package@,
        ) by {
            assert(views(r@)[i] == r@[i]@);
            assert(under_each(views(dirs@), "node_modules"@, package@)[i] == spec_join(
                spec_join(views(dirs@)[i], "node_modules"@),
                package@,
            ));
        }
    }
    r
}

/// `k` is the least key of the object.
pub open spec fn is_least_key(m: Map<Seq<char>, JsonValue>, k: Seq<char>) -> bool {
    m.dom().contains(k) && forall|k2: Seq<char>| #[trigger] m.dom().contains(k2) && k2 != k ==> text_lt(k, k2)
}

/// The `bin` entry of a `package.json`: a string as it is; in an object,
/// the `tsgo` entry, else the `tsc` entry (when strings), else the value of
/// the first key (`serde_json` keeps keys sorted) when it is a string.
pub open spec fn spec_extract_bin(pkg: JsonValue) -> Option<Seq<char>> {
    match spec_get(pkg, "bin"@) {
        Some(JsonValue::Str(s)) => Some(s@),
        Some(JsonValue::Object(m)) => if spec_as_str(spec_get(JsonValue::Object(m), "tsgo"@)) is Some {
            spec_as_str(spec_get(JsonValue::Object(m), "tsgo"@))
        } else if spec_as_str(spec_get(JsonValue::Object(m), "tsc"@)) is Some {
            spec_as_str(spec_get(JsonValue::Object(m), "tsc"@))
        } else if exists|k: Seq<char>| is_least_key(m@, k) {
            spec_as_str(Some(m@[choose|k: Seq<char>| is_least_key(m@, k)]))
        } else {
            None
        },
        _ => None,
    }
}

/// The least key of a non-empty object.
fn least_key(m: &JsonMap) -> (r: Option<String>)
    ensures
        match r {
            Some(k) => is_least_key(m@, k@),
            None => forall|k: Seq<char>| !m@.dom().contains(k),
        },
{
    let n = m.len();
    if n == 0 {
        proof {
            assert forall|k: Seq<char>| !m@.dom().contains(k) by {
                crate::json::lemma_map_of_dom(m.entries_seq(), k);
            }
        }
        return None;
    }
    let (k0, _) = m.entry(0);
    let mut best: Vec<char> = to_chars(k0.as_str());
    let mut best_s = k0.clone();
    let mut i: usize = 1;
    while i < n
        invariant
            1 <= i <= n == m.entries_seq().len(),
            best@ == best_s@,
            exists|j: int| 0 <= j < i && #[trigger] m.entries_seq()[j].0@ == best@,
            forall|j: int| 0 <= j < i ==> #[trigger] m.entries_seq()[j].0@ == best@ || text_lt(best@, m.entries_seq()[j].0@),
        decreases n - i,
    {
        let (k, _) = m.entry(i);
        let kc = to_chars(k.as_str());
        if compare_text(&kc, &best) < 0 {
            proof {
                assert forall|j: int| 0 <= j < i + 1 implies #[trigger] m.entries_seq()[j].0@ == kc@ || text_lt(kc@, m.entries_seq()[j].0@) by {
                    if j < i {
                        if m.entries_seq()[j].0@ != best@ {
                            lemma_text_lt_trans(kc@, best@, m.entries_seq()[j].0@);
                        }
                    }
                }
            }
            best = kc;
            best_s = k.clone();
        } else {
            proof {
                lemma_text_lt_total(kc@, best@);
            }
        }
        i = i + 1;
    }
    proof {
        crate::json::lemma_map_of_dom(m.entries_seq(), best@);
        assert forall|k2: Seq<char>| #[trigger] m@.dom().contains(k2) && k2 != best@ implies text_lt(best@, k2) by {
            crate::json::lemma_map_of_dom(m.entries_seq(), k2);
            let j = choose|j: int| 0 <= j < m.entries_seq().len() && m.entries_seq()[j].0@ == k2;
            assert(m.entries_seq()[j].0@ == k2);
        }
    }
    Some(best_s)
}

/// Find the `bin` entry of a `package.json` (see [`spec_extract_bin`]).
pub fn extract_bin(pkg: &JsonValue) -> (r: Option<String>)
    ensures
        match r {
            Some(s) => spec_extract_bin(*pkg) == Some(s@),
            None => spec_extract_bin(*pkg) is None,
        },
{
    let bin = match get(pkg, "bin") {
        Some(b) => b,
        None => return None,
    };
    match bin {
        JsonValue::Str(s) => Some(s.clone()),
        JsonValue::Object(m) => {
            match get(bin, "tsgo") {
                Some(JsonValue::Str(s)) => return Some(s.clone()),
                _ => {},
            }
            match get(bin, "tsc") {
                Some(JsonValue::Str(s)) => return Some(s.clone()),
                _ => {},
            }
            match least_key(m) {
                Some(k) => {
                    proof {
                        assert(exists|k2: Seq<char>| is_least_key(m@, k2));
                        let c = choose|k2: Seq<char>| is_least_key(m@, k2);
                        assert(is_least_key(m@, k@));
                        if c != k@ {
                            assert(text_lt(k@, c));
                            assert(text_lt(c, k@));
                            lemma_text_lt_trans(k@, c, k@);
                            lemma_text_lt_irrefl(k@);
                        }
                    }
                    match m.get(k.as_str()) {
                        Some(JsonValue::Str(s)) => Some(s.clone()),
                        _ => None,
                    }
                },
                None => {
                    proof {
                        assert(!exists|k2: Seq<char>| is_least_key(m@, k2));
                    }
                    None
                },
            }
        },
        _ => None,
    }
}

/// The `TSGO_BINARY` override: the value trimmed, when not blank.
pub fn binary_override(value: &str) -> (r: Option<String>)
    ensures
        match r {
            Some(s) => crate::text::trim(value@).len() > 0 && s@ == crate::text::trim(value@),
            None => crate::text::trim(value@).len() == 0,
        },
{
    let t = crate::pipeline::trimmed(value);
    if t.as_str().unicode_len() == 0 {
        None
    } else {
        Some(t)
    }
}


/// The native compiler distributions, in the order they are preferred:
/// the base name of the platform package and of its executable. The
/// official TypeScript 7 package comes before the older preview.
pub fn native_distributions() -> (r: Vec<(String, String)>)
    ensures
        r@.len() == 2,
        r@[0].0@ == "@typescript/typescript"@ && r@[0].1@ == "tsc"@,
        r@[1].0@ == "@typescript/native-preview"@ && r@[1].1@ == "tsgo"@,
{
    vec![
        ("@typescript/typescript".to_owned(), "tsc".to_owned()),
        ("@typescript/native-preview".to_owned(), "tsgo".to_owned()),
    ]
}

/// The packages whose `package.json` `bin` entry may name the compiler, in
/// the order they are tried.
pub fn bin_packages() -> (r: Vec<String>)
    ensures
        views(r@) == seq!["typescript"@, "@typescript/native-preview"@, "tsgo"@],
{
    let r = vec!["typescript".to_owned(), "@typescript/native-preview".to_owned(), "tsgo".to_owned()];
    assert(views(r@) =~= seq!["typescript"@, "@typescript/native-preview"@, "tsgo"@]);
    r
}

/// The commands looked up on `PATH` when nothing else was found, in order.
pub fn path_commands() -> (r: Vec<String>)
    ensures
        views(r@) == seq!["tsgo"@, "tsc"@],
{
    let r = vec!["tsgo".to_owned(), "tsc".to_owned()];
    assert(views(r@) =~= seq!["tsgo"@, "tsc"@]);
    r
}


/// What a place to look for the compiler is: the `TSGO_BINARY` override
/// (taken as it is), a native binary file, a package directory whose
/// `package.json` may name a `bin`, the `tsgo` of the working directory's
/// `node_modules/.bin`, or a command on `PATH`.
#[derive(Debug, Clone, Copy, PartialEq, Eq, Structural)]
pub enum ProbeKind {
    Override,
    NativeBinary,
    PackageBin,
    LocalBin,
    OnPath,
}

/// One place to look for the compiler.
#[derive(Debug)]
pub struct BinaryProbe {
    pub kind: ProbeKind,
    pub target: String,
}

/// A probe as its kind and text.
pub open spec fn probe_views(ps: Seq<BinaryProbe>) -> Seq<(ProbeKind, Seq<char>)> {
    ps.map_values(|p: BinaryProbe| (p.kind, p.target@))
}

/// Paths as probes of one kind.
pub open spec fn as_probes(kind: ProbeKind, paths: Seq<Seq<char>>) -> Seq<(ProbeKind, Seq<char>)> {
    paths.map_values(|p: Seq<char>| (kind, p))
}

/// The executable name of a distribution's binary on an OS.
pub open spec fn spec_exe_name(base: Seq<char>, os: Seq<char>) -> Seq<char> {
    if os == "windows"@ {
        base + ".exe"@
    } else {
        base
    }
}

/// A distribution's native binary under each ancestor of `cwd`.
pub open spec fn native_paths(cwd: Seq<char>, base: Seq<char>, suffix: Seq<char>, exe: Seq<char>) -> Seq<
    Seq<char>,
> {
    ancestors(cwd).map_values(
        |a: Seq<char>|
            spec_join(
                spec_join(spec_join(spec_join(a, "node_modules"@), base + seq!['-'] + suffix), "lib"@),
                exe,
            ),
    )
}

/// A package's directory under each ancestor of `cwd`.
pub open spec fn package_paths(cwd: Seq<char>, package: Seq<char>) -> Seq<Seq<char>> {
    ancestors(cwd).map_values(|a: Seq<char>| spec_join(spec_join(a, "node_modules"@), package))
}

/// Where the compiler is looked for, in order; the first hit wins: the
/// `TSGO_BINARY` override when it is not blank; the native binaries of the
/// TypeScript 7 distribution, then of the preview, nearest first (on
/// targets the distributions ship); the `bin` of the `typescript`,
/// `@typescript/native-preview` and `tsgo` packages, nearest first; the
/// `tsgo` in the working directory's `node_modules/.bin`; and `tsgo`, then
/// `tsc`, on `PATH`.
pub open spec fn spec_binary_probes(cwd: Seq<char>, setting: Option<Seq<char>>, os: Seq<char>, arch: Seq<char>) -> Seq<
    (ProbeKind, Seq<char>),
> {
    let over = match setting {
        Some(v) => if crate::text::trim(v).len() > 0 {
            seq![(ProbeKind::Override, crate::text::trim(v))]
        } else {
            Seq::empty()
        },
        None => Seq::empty(),
    };
    let natives = match spec_platform_suffix(os, arch) {
        Some(sfx) => as_probes(
            ProbeKind::NativeBinary,
            native_paths(cwd, "@typescript/typescript"@, sfx, spec_exe_name("tsc"@, os)),
        ) + as_probes(
            ProbeKind::NativeBinary,
            native_paths(cwd, "@typescript/native-preview"@, sfx, spec_exe_name("tsgo"@, os)),
        ),
        None => Seq::empty(),
    };
    let packages = as_probes(ProbeKind::PackageBin, package_paths(cwd, "typescript"@)) + as_probes(
        ProbeKind::PackageBin,
        package_paths(cwd, "@typescript/native-preview"@),
    ) + as_probes(ProbeKind::PackageBin, package_paths(cwd, "tsgo"@));
    let local = seq![(ProbeKind::LocalBin, spec_join(spec_join(spec_join(cwd, "node_modules"@), ".bin"@), "tsgo"@))];
    over + natives + packages + local + seq![(ProbeKind::OnPath, "tsgo"@), (ProbeKind::OnPath, "tsc"@)]
}

/// Append each path as a probe of `kind`.
fn append_probes(r: &mut Vec<BinaryProbe>, paths: Vec<String>, kind: ProbeKind)
    ensures
        probe_views(final(r)@) == probe_views(old(r)@) + as_probes(kind, views(paths@)),
{
    let ghost start = probe_views(r@);
    let mut i: usize = 0;
    while i < paths.len()
        invariant
            i <= paths@.len(),
            probe_views(r@) == start + as_probes(kind, views(paths@.take(i as int))),
        decreases paths@.len() - i,
    {
        let ghost before = probe_views(r@);
        r.push(BinaryProbe { kind, target: paths[i].clone() });
        assert(probe_views(r@) =~= before.push((kind, paths@[i as int]@)));
        assert(as_probes(kind, views(paths@.take(i + 1))) =~= as_probes(kind, views(paths@.take(i as int))).push(
            (kind, paths@[i as int]@),
        ));
        i = i + 1;
    }
    assert(paths@.take(i as int) =~= paths@);
}

/// The places to look for the compiler, in order (see
/// [`spec_binary_probes`]). `setting` is the value of `TSGO_BINARY`, `os`
/// and `arch` the target as Rust names it.
#[verifier::spinoff_prover]
#[verifier::rlimit(50)]
pub fn binary_probes(cwd: &str, setting: Option<&str>, os: &str, arch: &str) -> (r: Vec<BinaryProbe>)
    ensures
        probe_views(r@) == spec_binary_probes(cwd@, match setting {
            Some(v) => Some(v@),
            None => None,
        }, os@, arch@),
{
    let mut r: Vec<BinaryProbe> = Vec::new();
    match setting {
        Some(v) => match binary_override(v) {
            Some(t) => r.push(BinaryProbe { kind: ProbeKind::Override, target: t }),
            None => {},
        },
        None => {},
    }
    let ghost over = probe_views(r@);
    let windows = str_equal(os, "windows");
    match platform_suffix(os, arch) {
        Some(sfx) => {
            let dists = native_distributions();
            let exe0 = exe_file_name(dists[0].1.as_str(), windows);
            let exe1 = exe_file_name(dists[1].1.as_str(), windows);
            proof {
                reveal_strlit(".exe");
            }
            assert(exe0@ == spec_exe_name("tsc"@, os@));
            assert(exe1@ == spec_exe_name("tsgo"@, os@));
            let c0 = platform_binary_candidates(cwd, dists[0].0.as_str(), sfx.as_str(), exe0.as_str());
            let c1 = platform_binary_candidates(cwd, dists[1].0.as_str(), sfx.as_str(), exe1.as_str());
            assert(views(c0@) =~= native_paths(cwd@, "@typescript/typescript"@, sfx@, exe0@));
            assert(views(c1@) =~= native_paths(cwd@, "@typescript/native-preview"@, sfx@, exe1@));
            append_probes(&mut r, c0, ProbeKind::NativeBinary);
            append_probes(&mut r, c1, ProbeKind::NativeBinary);
        },
        None => {},
    }
    let ghost natives = probe_views(r@).skip(over.len() as int);
    let pkgs = bin_packages();
    assert(views(pkgs@).len() == pkgs@.len());
    assert(pkgs@.len() == 3);
    let ghost p0 = pkgs@[0]@;
    let ghost p1 = pkgs@[1]@;
    let ghost p2 = pkgs@[2]@;
    assert(views(pkgs@)[0] == p0 && views(pkgs@)[1] == p1 && views(pkgs@)[2] == p2);
    assert(p0 == "typescript"@ && p1 == "@typescript/native-preview"@ && p2 == "tsgo"@);
    let d0 = package_dirs(cwd, pkgs[0].as_str());
    let d1 = package_dirs(cwd, pkgs[1].as_str());
    let d2 = package_dirs(cwd, pkgs[2].as_str());
    assert(views(d0@) =~= package_paths(cwd@, p0));
    assert(views(d1@) =~= package_paths(cwd@, p1));
    assert(views(d2@) =~= package_paths(cwd@, p2));
    append_probes(&mut r, d0, ProbeKind::PackageBin);
    append_probes(&mut r, d1, ProbeKind::PackageBin);
    append_probes(&mut r, d2, ProbeKind::PackageBin);
    let nm = join(cwd, "node_modules");
    let bin_dir = join(nm.as_str(), ".bin");
    let local = join(bin_dir.as_str(), "tsgo");
    let ghost before_local = probe_views(r@);
    r.push(BinaryProbe { kind: ProbeKind::LocalBin, target: local });
    assert(probe_views(r@) =~= before_local.push((ProbeKind::LocalBin, spec_join(spec_join(spec_join(cwd@, "node_modules"@), ".bin"@), "tsgo"@))));
    let cmds = path_commands();
    assert(views(cmds@).len() == cmds@.len());
    assert(cmds@.len() == 2);
    assert(views(cmds@)[0] == cmds@[0]@ && views(cmds@)[1] == cmds@[1]@);
    let ghost before_cmds = probe_views(r@);
    r.push(BinaryProbe { kind: ProbeKind::OnPath, target: cmds[0].clone() });
    r.push(BinaryProbe { kind: ProbeKind::OnPath, target: cmds[1].clone() });
    assert(probe_views(r@) =~= before_cmds + seq![(ProbeKind::OnPath, "tsgo"@), (ProbeKind::OnPath, "tsc"@)]);
    assert(probe_views(r@) =~= spec_binary_probes(cwd@, match setting {
        Some(v) => Some(v@),
        None => None,
    }, os@, arch@));
    r
}

} // verus!
