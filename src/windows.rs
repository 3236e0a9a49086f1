//! Search-path adjustments for hosts whose `PATH` is `;`-separated and
//! case-insensitive: finding the Git installation's `usr\bin` directory and
//! appending it to `PATH` when it is missing.
//!
//! Reading the registry, running `where` and looking at the disk are the
//! host's part; these functions decide from what it found.

use vstd::prelude::*;

use crate::chars::{
    chars_of, eq_ignore_case, eq_ignore_case_chars, split, split_chars, string_from_chars, trim,
    trim_chars,
};
use crate::env::is_sep;

verus! {

/// Whether some `;`-separated entry of `path_value`, trimmed, equals `entry` up
/// to ASCII case.
pub open spec fn contains_entry(path_value: Seq<char>, entry: Seq<char>) -> bool {
    exists|i: int|
        0 <= i < split(path_value, ';').len() && eq_ignore_case(
            trim(#[trigger] split(path_value, ';')[i]),
            entry,
        )
}

pub fn path_contains_entry(path_value: &str, entry: &str) -> (r: bool)
    ensures
        r == contains_entry(path_value@, entry@),
{
    let pv = chars_of(path_value);
    let e = chars_of(entry);
    let segs = split_chars(pv.as_slice(), ';');
    let mut i: usize = 0;
    while i < segs.len()
        invariant
            i <= segs@.len() == split(pv@, ';').len(),
            pv@ == path_value@,
            e@ == entry@,
            forall|k: int| 0 <= k < segs@.len() ==> #[trigger] segs@[k]@ == split(pv@, ';')[k],
            forall|k: int|
                0 <= k < i ==> !eq_ignore_case(trim(#[trigger] split(pv@, ';')[k]), entry@),
        decreases segs@.len() - i,
    {
        let t = trim_chars(segs[i].as_slice());
        if eq_ignore_case_chars(t.as_slice(), e.as_slice()) {
            assert(segs@[i as int]@ == split(pv@, ';')[i as int]);
            return true;
        }
        i += 1;
    }
    false
}

/// `PATH` with `entry` appended after a `;` (none is added when `PATH` is empty
/// or already ends with one).
pub open spec fn appended_entry(path_value: Seq<char>, entry: Seq<char>) -> Seq<char> {
    if path_value.len() > 0 && path_value.last() != ';' {
        path_value + seq![';'] + entry
    } else {
        path_value + entry
    }
}

/// The new value of `PATH` once the Git `usr\bin` directory is made reachable,
/// or `None` when `PATH` already lists it.
pub fn configure_windows_path(existing_path: &str, git_usr_bin: &str) -> (r: Option<String>)
    ensures
        contains_entry(existing_path@, git_usr_bin@) ==> r is None,
        !contains_entry(existing_path@, git_usr_bin@) ==> r is Some && r->0@ == appended_entry(
            existing_path@,
            git_usr_bin@,
        ),
{
    if path_contains_entry(existing_path, git_usr_bin) {
        return None;
    }
    let mut out = chars_of(existing_path);
    let n = out.len();
    if n > 0 && out[n - 1] != ';' {
        out.push(';');
    }
    let entry = chars_of(git_usr_bin);
    let ghost base = out@;
    let mut i: usize = 0;
    while i < entry.len()
        invariant
            i <= entry@.len(),
            out@ == base + entry@.subrange(0, i as int),
        decreases entry@.len() - i,
    {
        out.push(entry[i]);
        i += 1;
        assert(out@ =~= base + entry@.subrange(0, i as int));
    }
    assert(entry@.subrange(0, entry@.len() as int) =~= entry@);
    Some(string_from_chars(out.as_slice()))
}

/// `base` with one more path component, a `\` put between them unless `base` is
/// empty or already ends with a separator.
pub open spec fn with_component(base: Seq<char>, c: Seq<char>) -> Seq<char> {
    if base.len() == 0 {
        c
    } else if is_sep(base.last()) {
        base + c
    } else {
        base + seq!['\\'] + c
    }
}

/// The `usr\bin` directory under a Git installation root.
pub open spec fn usr_bin_of(root: Seq<char>) -> Seq<char> {
    with_component(with_component(root, "usr"@), "bin"@)
}

fn push_component(base: &mut Vec<char>, c: &str)
    ensures
        final(base)@ == with_component(old(base)@, c@),
{
    let n = base.len();
    if n > 0 && base[n - 1] != '\\' && base[n - 1] != '/' {
        base.push('\\');
    }
    let cs = chars_of(c);
    let ghost start = base@;
    let mut i: usize = 0;
    while i < cs.len()
        invariant
            i <= cs@.len(),
            base@ == start + cs@.subrange(0, i as int),
        decreases cs@.len() - i,
    {
        base.push(cs[i]);
        i += 1;
        assert(base@ =~= start + cs@.subrange(0, i as int));
    }
    assert(cs@.subrange(0, cs@.len() as int) =~= cs@);
    if n == 0 {
        assert(base@ =~= c@);
    }
}

/// The `usr\bin` directory under a Git installation root; the host looks for
/// `ls.exe` in it.
pub fn git_usr_bin_dir(install_root: &str) -> (r: String)
    ensures
        r@ == usr_bin_of(install_root@),
{
    let mut p = chars_of(install_root);
    push_component(&mut p, "usr");
    push_component(&mut p, "bin");
    string_from_chars(p.as_slice())
}

/// The `usr\bin` directory of an installation root, when the host found
/// `ls.exe` there.
pub fn git_usr_bin_with_ls(install_root: &str, has_ls: bool) -> (r: Option<String>)
    ensures
        has_ls ==> r is Some && r->0@ == usr_bin_of(install_root@),
        !has_ls ==> r is None,
{
    if has_ls {
        Some(git_usr_bin_dir(install_root))
    } else {
        None
    }
}

/// Picks the `usr\bin` directory of the first candidate installation root (in
/// the order given: registry, then `where git`) where the host found `ls.exe`.
pub fn find_git_usr_bin(candidates: &Vec<(String, bool)>) -> (r: Option<String>)
    ensures
        (forall|i: int| 0 <= i < candidates@.len() ==> !(#[trigger] candidates@[i]).1) ==> r is None,
        forall|i: int|
            0 <= i < candidates@.len() && (#[trigger] candidates@[i]).1 && (forall|j: int|
                0 <= j < i ==> !candidates@[j].1) ==> r is Some && r->0@ == usr_bin_of(
                candidates@[i].0@,
            ),
{
    let mut i: usize = 0;
    while i < candidates.len()
        invariant
            i <= candidates@.len(),
            forall|j: int| 0 <= j < i ==> !candidates@[j].1,
        decreases candidates@.len() - i,
    {
        if let Some(dir) = git_usr_bin_with_ls(candidates[i].0.as_str(), candidates[i].1) {
            return Some(dir);
        }
        i += 1;
    }
    None
}

/// The first line of `where git`'s output (a trailing carriage return
/// dropped), trimmed; `None` when there is no line or it is blank.
pub open spec fn first_line(out: Seq<char>) -> Option<Seq<char>> {
    if out.len() == 0 {
        None
    } else {
        let line = split(out, '\n')[0];
        let line = if line.len() > 0 && line.last() == '\r' {
            line.drop_last()
        } else {
            line
        };
        if trim(line).len() == 0 {
            None
        } else {
            Some(trim(line))
        }
    }
}

/// The path of the `git` executable that `where git` printed first.
pub fn first_listed_path(stdout: &str) -> (r: Option<String>)
    ensures
        match first_line(stdout@) {
            Some(l) => r is Some && r->0@ == l,
            None => r is None,
        },
{
    let out = chars_of(stdout);
    if out.len() == 0 {
        return None;
    }
    let lines = split_chars(out.as_slice(), '\n');
    proof {
        crate::chars::lemma_split_nonempty(out@, '\n');
    }
    let mut line: Vec<char> = Vec::new();
    let first = &lines[0];
    let n = first.len();
    let end = if n > 0 && first[n - 1] == '\r' {
        n - 1
    } else {
        n
    };
    let mut i: usize = 0;
    while i < end
        invariant
            i <= end <= n == first@.len(),
            line@ == first@.subrange(0, i as int),
        decreases end - i,
    {
        line.push(first[i]);
        i += 1;
        assert(line@ =~= first@.subrange(0, i as int));
    }
    assert(first@ =~= first@.subrange(0, n as int));
    assert(first@.drop_last() =~= first@.subrange(0, n - 1));
    let t = trim_chars(line.as_slice());
    if t.len() == 0 {
        None
    } else {
        Some(string_from_chars(t.as_slice()))
    }
}

} // verus!
