//! What the library makes of the compiler's `--listFilesOnly` output.
use vstd::prelude::*;
use crate::errors::Error;
use crate::lines::{find_sep, lemma_split_last, lemma_split_step, next_sep, split, split_from};
use crate::text::{
    contains_at_range, forward_slashes, lower, seq_contains, seq_ends_with, spec_lower_seq,
    spec_slashes, trim, trim_range, views,
};

verus! {

/// `/node_modules/`
pub open spec fn node_modules_posix() -> Seq<char> {
    seq!['/', 'n', 'o', 'd', 'e', '_', 'm', 'o', 'd', 'u', 'l', 'e', 's', '/']
}

/// `\node_modules\`
pub open spec fn node_modules_windows() -> Seq<char> {
    seq!['\\', 'n', 'o', 'd', 'e', '_', 'm', 'o', 'd', 'u', 'l', 'e', 's', '\\']
}

/// An absolute path: posix `/...`, or a drive prefix `X:\` / `X:/` (the
/// drive letter being a single-byte character).
pub open spec fn spec_is_absolute_entry(l: Seq<char>) -> bool {
    (l.len() > 0 && l[0] == '/') || (l.len() >= 3 && (l[0] as u32) < 128 && l[1] == ':' && (l[2]
        == '\\' || l[2] == '/'))
}

/// Ends, case-insensitively, in `.ts`, `.tsx`, `.cts` or `.mts`.
pub open spec fn spec_has_ts_extension(l: Seq<char>) -> bool {
    let lower = spec_lower_seq(l);
    seq_ends_with(lower, seq!['.', 't', 's']) || seq_ends_with(lower, seq!['.', 't', 's', 'x'])
        || seq_ends_with(lower, seq!['.', 'c', 't', 's']) || seq_ends_with(
        lower,
        seq!['.', 'm', 't', 's'],
    )
}

/// A real file entry: an absolute path ending in a TypeScript extension.
pub open spec fn spec_is_listfiles_file_entry(l: Seq<char>) -> bool {
    spec_is_absolute_entry(l) && spec_has_ts_extension(l)
}

/// A trimmed line is kept when it is non-empty, outside `node_modules`, and a
/// file entry.
pub open spec fn keeps_listed_line(t: Seq<char>) -> bool {
    &&& t.len() > 0
    &&& !seq_contains(t, node_modules_posix())
    &&& !seq_contains(t, node_modules_windows())
    &&& spec_is_listfiles_file_entry(t)
}

/// The entries that a sequence of raw lines yields, in order.
pub open spec fn listed_entries(lines: Seq<Seq<char>>) -> Seq<Seq<char>>
    decreases lines.len(),
{
    if lines.len() == 0 {
        seq![]
    } else {
        let t = trim(lines[0]);
        let rest = listed_entries(lines.drop_first());
        if keeps_listed_line(t) {
            seq![spec_slashes(t)] + rest
        } else {
            rest
        }
    }
}

/// The file list of `--listFilesOnly` output: every line, trimmed, that is a
/// non-empty absolute TypeScript path outside `node_modules`, with `\` turned
/// into `/` and case preserved. (`str::lines` and `split('\n')` differ only in
/// a trailing `\r` and a final empty line, both of which trimming and the
/// emptiness test remove.)
pub open spec fn spec_parse_list_files_output(stdout: Seq<char>) -> Seq<Seq<char>> {
    listed_entries(split(stdout, '\n'))
}

proof fn lemma_listed_entries_cons(x: Seq<char>, rest: Seq<Seq<char>>)
    ensures
        listed_entries(seq![x] + rest) == (if keeps_listed_line(trim(x)) {
            seq![spec_slashes(trim(x))] + listed_entries(rest)
        } else {
            listed_entries(rest)
        }),
{
    assert((seq![x] + rest).drop_first() =~= rest);
    assert((seq![x] + rest)[0] == x);
}

fn ends_with_lower(v: &[char], from: usize, to: usize, suffix: &[char]) -> (r: bool)
    requires
        from <= to <= v@.len(),
    ensures
        r == seq_ends_with(spec_lower_seq(v@.subrange(from as int, to as int)), suffix@),
{
    let ghost low = spec_lower_seq(v@.subrange(from as int, to as int));
    let n = suffix.len();
    if n > to - from {
        return false;
    }
    let base = to - n;
    let mut k: usize = 0;
    while k < n
        invariant
            k <= n == suffix@.len(),
            from <= base == to - n,
            to <= v@.len(),
            low == spec_lower_seq(v@.subrange(from as int, to as int)),
            forall|j: int| 0 <= j < k ==> low[base - from + j] == suffix@[j],
        decreases n - k,
    {
        assert(low[base - from + k] == crate::text::spec_lower(v@[base + k]));
        if lower(v[base + k]) != suffix[k] {
            assert(low.subrange(low.len() - n, low.len() as int)[k as int] != suffix@[k as int]);
            return false;
        }
        k = k + 1;
    }
    assert(low.subrange(low.len() - n, low.len() as int) =~= suffix@);
    true
}

/// Is `v[from..to]` a real file entry (absolute, TypeScript extension)?
fn is_listfiles_file_entry(v: &[char], from: usize, to: usize) -> (r: bool)
    requires
        from <= to <= v@.len(),
    ensures
        r == spec_is_listfiles_file_entry(v@.subrange(from as int, to as int)),
{
    let ghost l = v@.subrange(from as int, to as int);
    let n = to - from;
    proof {
        if n > 0 {
            assert(l[0] == v@[from as int]);
        }
        if n >= 3 {
            assert(l[1] == v@[from + 1]);
            assert(l[2] == v@[from + 2]);
        }
    }
    let absolute = (n > 0 && v[from] == '/') || (n >= 3 && (v[from] as u32) < 128 && v[from + 1]
        == ':' && (v[from + 2] == '\\' || v[from + 2] == '/'));
    if !absolute {
        return false;
    }
    let ts: Vec<char> = vec!['.', 't', 's'];
    let tsx: Vec<char> = vec!['.', 't', 's', 'x'];
    let cts: Vec<char> = vec!['.', 'c', 't', 's'];
    let mts: Vec<char> = vec!['.', 'm', 't', 's'];
    assert(ts@ =~= seq!['.', 't', 's']);
    assert(tsx@ =~= seq!['.', 't', 's', 'x']);
    assert(cts@ =~= seq!['.', 'c', 't', 's']);
    assert(mts@ =~= seq!['.', 'm', 't', 's']);
    ends_with_lower(v, from, to, &ts) || ends_with_lower(v, from, to, &tsx) || ends_with_lower(
        v,
        from,
        to,
        &cts,
    ) || ends_with_lower(v, from, to, &mts)
}

/// Parse the line-per-file output of `--listFilesOnly` into absolute file
/// paths (forward-slash separators, original case preserved), dropping
/// `node_modules` entries and interleaved diagnostics.
pub fn parse_list_files_output(stdout: &str) -> (r: Vec<String>)
    ensures
        views(r@) == spec_parse_list_files_output(stdout@),
{
    let v = crate::text::to_chars(stdout);
    let posix: Vec<char> = vec!['/', 'n', 'o', 'd', 'e', '_', 'm', 'o', 'd', 'u', 'l', 'e', 's', '/'];
    let windows: Vec<char> = vec![
        '\\',
        'n',
        'o',
        'd',
        'e',
        '_',
        'm',
        'o',
        'd',
        'u',
        'l',
        'e',
        's',
        '\\',
    ];
    assert(posix@ =~= node_modules_posix());
    assert(windows@ =~= node_modules_windows());
    let mut out: Vec<String> = Vec::new();
    let mut start: usize = 0;
    loop
        invariant
            start <= v@.len(),
            v@ == stdout@,
            posix@ == node_modules_posix(),
            windows@ == node_modules_windows(),
            listed_entries(split(v@, '\n')) == views(out@) + listed_entries(
                split_from(v@, '\n', start as int),
            ),
        decreases v@.len() - start,
    {
        let e = find_sep(&v, '\n', start);
        let ghost piece = v@.subrange(start as int, e as int);
        let ghost old_out = views(out@);
        let (a, b) = trim_range(&v, start, e);
        let keep = b > a && !contains_at_range(&v, a, b, &posix) && !contains_at_range(
            &v,
            a,
            b,
            &windows,
        ) && is_listfiles_file_entry(&v, a, b);
        assert(keep == keeps_listed_line(trim(piece)));
        if keep {
            let entry = forward_slashes(&v, a, b);
            out.push(entry);
            assert(views(out@) =~= old_out + seq![spec_slashes(trim(piece))]);
        } else {
            assert(views(out@) =~= old_out);
        }
        if e >= v.len() {
            proof {
                lemma_split_last(v@, '\n', start as int);
                lemma_listed_entries_cons(piece, seq![]);
                assert(listed_entries(Seq::<Seq<char>>::empty()) == Seq::<Seq<char>>::empty());
                assert(seq![piece] + Seq::<Seq<char>>::empty() =~= seq![piece]);
                assert(views(out@) + Seq::<Seq<char>>::empty() =~= views(out@));
            }
            return out;
        }
        proof {
            lemma_split_step(v@, '\n', start as int);
            lemma_listed_entries_cons(piece, split_from(v@, '\n', e + 1));
            if keep {
                assert(old_out + (seq![spec_slashes(trim(piece))] + listed_entries(
                    split_from(v@, '\n', e + 1),
                )) =~= views(out@) + listed_entries(split_from(v@, '\n', e + 1)));
            }
        }
        start = e + 1;
    }
}


/// What a `--listFilesOnly` run gives: a failure when the compiler exited
/// non-zero and printed nothing on stdout (with its trimmed stderr),
/// otherwise the listed files.
pub fn reachable_files(exit_code: i32, stdout: &str, stderr: &str) -> (r: Result<Vec<String>, Error>)
    ensures
        (exit_code != 0 && trim(stdout@).len() == 0) ==> (r matches Err(Error::TsgoFailed { exit_code: c, stderr: e })
            && c == exit_code && e@ == trim(stderr@)),
        !(exit_code != 0 && trim(stdout@).len() == 0) ==> (r matches Ok(v) && views(v@)
            == spec_parse_list_files_output(stdout@)),
{
    if exit_code != 0 {
        let t = crate::pipeline::trimmed(stdout);
        if t.as_str().unicode_len() == 0 {
            return Err(Error::TsgoFailed { exit_code, stderr: crate::pipeline::trimmed(stderr) });
        }
    }
    Ok(parse_list_files_output(stdout))
}

/// The compiler's arguments for listing the files a project reaches.
pub fn list_files_args(project_path: &str) -> (r: Vec<String>)
    ensures
        views(r@) == seq!["--listFilesOnly"@, "--pretty"@, "false"@, "-p"@, project_path@],
{
    let r = vec![
        "--listFilesOnly".to_owned(),
        "--pretty".to_owned(),
        "false".to_owned(),
        "-p".to_owned(),
        project_path.to_owned(),
    ];
    assert(views(r@) =~= seq!["--listFilesOnly"@, "--pretty"@, "false"@, "-p"@, project_path@]);
    r
}

/// The compiler's arguments for the strict check of a transient config:
/// no output, and one diagnostic per line (`--pretty false`), so that no
/// code frame is read as the continuation of a message.
pub fn check_args(config_path: &str) -> (r: Vec<String>)
    ensures
        views(r@) == seq!["--noEmit"@, "--pretty"@, "false"@, "-p"@, config_path@],
{
    let r = vec![
        "--noEmit".to_owned(),
        "--pretty".to_owned(),
        "false".to_owned(),
        "-p".to_owned(),
        config_path.to_owned(),
    ];
    assert(views(r@) =~= seq!["--noEmit"@, "--pretty"@, "false"@, "-p"@, config_path@]);
    r
}

} // verus!
