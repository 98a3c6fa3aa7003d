//! Posix path text: joining, absoluteness, `.`/`..` resolution.
use vstd::prelude::*;
use crate::text::{push_str, push_char, to_chars, string_of};

verus! {

/// An absolute posix path starts with `/`.
pub open spec fn spec_is_absolute(p: Seq<char>) -> bool {
    p.len() > 0 && p[0] == '/'
}

/// `Path::join` / `PathBuf::push`: an absolute `b` replaces `a`; otherwise
/// `b` is appended, with a `/` in between unless `a` is empty or already
/// ends in `/`.
pub open spec fn spec_join(a: Seq<char>, b: Seq<char>) -> Seq<char> {
    if spec_is_absolute(b) {
        b
    } else if a.len() == 0 || a.last() == '/' {
        a + b
    } else {
        a + seq!['/'] + b
    }
}

/// Is `p` an absolute posix path?
pub fn is_absolute(p: &str) -> (r: bool)
    ensures
        r == spec_is_absolute(p@),
{
    let n = p.unicode_len();
    n > 0 && p.get_char(0) == '/'
}

/// `a.join(b)` for posix paths.
pub fn join(a: &str, b: &str) -> (r: String)
    ensures
        r@ == spec_join(a@, b@),
{
    if is_absolute(b) {
        return b.to_owned();
    }
    let n = a.unicode_len();
    let mut r = a.to_owned();
    if n > 0 && a.get_char(n - 1) != '/' {
        push_char(&mut r, '/');
    }
    push_str(&mut r, b);
    assert(r@ =~= spec_join(a@, b@));
    r
}

/// `resolve_path_entry`: an absolute entry stays as it is, a relative one is
/// joined onto `dir`.
pub open spec fn spec_resolve_entry(entry: Seq<char>, dir: Seq<char>) -> Seq<char> {
    if spec_is_absolute(entry) {
        entry
    } else {
        spec_join(dir, entry)
    }
}

/// Make a path entry absolute by anchoring it at `dir`.
pub fn resolve_path_entry(entry: &str, dir: &str) -> (r: String)
    ensures
        r@ == spec_resolve_entry(entry@, dir@),
{
    if is_absolute(entry) {
        entry.to_owned()
    } else {
        join(dir, entry)
    }
}

/// Index of the last `/` in `p`, if any.
pub open spec fn last_slash(p: Seq<char>) -> Option<int>
    decreases p.len(),
{
    if p.len() == 0 {
        None
    } else if p.last() == '/' {
        Some(p.len() - 1)
    } else {
        last_slash(p.drop_last())
    }
}

/// The directory part of a file path, as `Path::parent` gives it for the
/// paths the library handles (no trailing `/`): everything before the last
/// `/` (`/` itself for a file at the root), or `.` when there is none.
pub open spec fn spec_parent_dir(p: Seq<char>) -> Seq<char> {
    match last_slash(p) {
        Some(i) => if i == 0 {
            seq!['/']
        } else {
            p.take(i)
        },
        None => seq!['.'],
    }
}

/// The directory that holds `p`.
pub fn parent_dir(p: &str) -> (r: String)
    ensures
        r@ == spec_parent_dir(p@),
{
    let v = to_chars(p);
    let mut i = v.len();
    assert(v@.take(i as int) =~= v@);
    while i > 0 && v[i - 1] != '/'
        invariant
            i <= v@.len(),
            v@ == p@,
            last_slash(p@) == last_slash(v@.take(i as int)),
        decreases i,
    {
        proof {
            assert(v@.take(i as int).drop_last() =~= v@.take(i - 1));
        }
        i = i - 1;
    }
    if i == 0 {
        assert(last_slash(v@.take(0)) == None::<int>);
        let mut r = String::new();
        push_char(&mut r, '.');
        assert(r@ =~= seq!['.']);
        return r;
    }
    assert(last_slash(v@.take(i as int)) == Some(i - 1));
    if i == 1 {
        let mut r = String::new();
        push_char(&mut r, '/');
        assert(r@ =~= seq!['/']);
        return r;
    }
    string_of(&v, 0, i - 1)
}

} // verus!
