//! The environment merger: which variables reach the engine, under which names,
//! and how search-path values from several sources are combined.
//!
//! Three layers feed a session: the inherited process environment, the
//! session-level overrides and the per-call overrides. Every layer is filtered
//! through a fixed deny-list of names that belong to the engine's own state.

use vstd::prelude::*;

use crate::chars::{
    ascii_lower, chars_of, ends_with_chars, eq_ignore_case, eq_ignore_case_chars, has_suffix,
    is_literal, join, join_chars, lower_char, push_str_chars, same_chars, split, split_chars,
    starts_with_chars, string_from_chars, trim, trim_by, trim_chars, trim_quotes,
};

verus! {

/// How a platform treats search-path variables.
#[derive(Clone, Copy, Debug, PartialEq, Eq, Structural)]
pub enum PathStyle {
    /// `PATH` is matched without regard to case, entries are separated by `;`
    /// and compared without regard to case; values are merged.
    CaseInsensitive,
    /// A later `PATH` value replaces an earlier one.
    CaseSensitive,
}

/// Names of shell-internal variables that no environment layer may set.
pub open spec fn is_denied_name(k: Seq<char>) -> bool {
    k == "BASH_ENV"@
        || k == "ENV"@
        || k == "HISTFILE"@
        || k == "HISTTIMEFORMAT"@
        || k == "HISTCMD"@
        || k == "PS0"@
        || k == "PS1"@
        || k == "PS2"@
        || k == "PS4"@
        || k == "BRUSH_PS_ALT"@
        || k == "READLINE_LINE"@
        || k == "READLINE_POINT"@
        || k == "BRUSH_VERSION"@
        || k == "BASH"@
        || k == "BASHOPTS"@
        || k == "BASH_ALIASES"@
        || k == "BASH_ARGV0"@
        || k == "BASH_CMDS"@
        || k == "BASH_SOURCE"@
        || k == "BASH_SUBSHELL"@
        || k == "BASH_VERSINFO"@
        || k == "BASH_VERSION"@
        || k == "SHELLOPTS"@
        || k == "SHLVL"@
        || k == "SHELL"@
        || k == "COMP_WORDBREAKS"@
        || k == "DIRSTACK"@
        || k == "EPOCHREALTIME"@
        || k == "EPOCHSECONDS"@
        || k == "FUNCNAME"@
        || k == "GROUPS"@
        || k == "IFS"@
        || k == "LINENO"@
        || k == "MACHTYPE"@
        || k == "OSTYPE"@
        || k == "OPTERR"@
        || k == "OPTIND"@
        || k == "PIPESTATUS"@
        || k == "PPID"@
        || k == "PWD"@
        || k == "OLDPWD"@
        || k == "RANDOM"@
        || k == "SRANDOM"@
        || k == "SECONDS"@
        || k == "UID"@
        || k == "EUID"@
        || k == "HOSTNAME"@
        || k == "HOSTTYPE"@
}

/// Exported shell functions (`BASH_FUNC_name%%`) and the shell-internal names.
pub open spec fn is_denied(k: Seq<char>) -> bool {
    ("BASH_FUNC_"@.is_prefix_of(k) && has_suffix(k, "%%"@)) || is_denied_name(k)
}

fn denied_name(k: &[char]) -> (r: bool)
    ensures
        r == is_denied_name(k@),
{
    is_literal(k, "BASH_ENV")
        || is_literal(k, "ENV")
        || is_literal(k, "HISTFILE")
        || is_literal(k, "HISTTIMEFORMAT")
        || is_literal(k, "HISTCMD")
        || is_literal(k, "PS0")
        || is_literal(k, "PS1")
        || is_literal(k, "PS2")
        || is_literal(k, "PS4")
        || is_literal(k, "BRUSH_PS_ALT")
        || is_literal(k, "READLINE_LINE")
        || is_literal(k, "READLINE_POINT")
        || is_literal(k, "BRUSH_VERSION")
        || is_literal(k, "BASH")
        || is_literal(k, "BASHOPTS")
        || is_literal(k, "BASH_ALIASES")
        || is_literal(k, "BASH_ARGV0")
        || is_literal(k, "BASH_CMDS")
        || is_literal(k, "BASH_SOURCE")
        || is_literal(k, "BASH_SUBSHELL")
        || is_literal(k, "BASH_VERSINFO")
        || is_literal(k, "BASH_VERSION")
        || is_literal(k, "SHELLOPTS")
        || is_literal(k, "SHLVL")
        || is_literal(k, "SHELL")
        || is_literal(k, "COMP_WORDBREAKS")
        || is_literal(k, "DIRSTACK")
        || is_literal(k, "EPOCHREALTIME")
        || is_literal(k, "EPOCHSECONDS")
        || is_literal(k, "FUNCNAME")
        || is_literal(k, "GROUPS")
        || is_literal(k, "IFS")
        || is_literal(k, "LINENO")
        || is_literal(k, "MACHTYPE")
        || is_literal(k, "OSTYPE")
        || is_literal(k, "OPTERR")
        || is_literal(k, "OPTIND")
        || is_literal(k, "PIPESTATUS")
        || is_literal(k, "PPID")
        || is_literal(k, "PWD")
        || is_literal(k, "OLDPWD")
        || is_literal(k, "RANDOM")
        || is_literal(k, "SRANDOM")
        || is_literal(k, "SECONDS")
        || is_literal(k, "UID")
        || is_literal(k, "EUID")
        || is_literal(k, "HOSTNAME")
        || is_literal(k, "HOSTTYPE")
}

/// Whether a variable of this name is kept out of every environment layer.
pub fn should_skip_env_var(key: &str) -> (r: bool)
    ensures
        r == is_denied(key@),
{
    let k = chars_of(key);
    let prefix = chars_of("BASH_FUNC_");
    let suffix = chars_of("%%");
    if starts_with_chars(k.as_slice(), prefix.as_slice()) && ends_with_chars(
        k.as_slice(),
        suffix.as_slice(),
    ) {
        return true;
    }
    denied_name(k.as_slice())
}


/// The name under which a variable is stored: on a case-insensitive platform
/// every spelling of `PATH` becomes `PATH`.
pub open spec fn normalized_key(k: Seq<char>, style: PathStyle) -> Seq<char> {
    if style == PathStyle::CaseInsensitive && eq_ignore_case(k, "PATH"@) {
        "PATH"@
    } else {
        k
    }
}

pub fn normalize_env_key(key: &str, style: PathStyle) -> (r: String)
    ensures
        r@ == normalized_key(key@, style),
{
    let k = chars_of(key);
    if style == PathStyle::CaseInsensitive {
        let path = chars_of("PATH");
        if eq_ignore_case_chars(k.as_slice(), path.as_slice()) {
            return string_from_chars(path.as_slice());
        }
    }
    string_from_chars(k.as_slice())
}

pub open spec fn is_sep(c: char) -> bool {
    c == '\\' || c == '/'
}

pub open spec fn fold_sep_case(c: char) -> char {
    if c == '/' {
        '\\'
    } else {
        ascii_lower(c)
    }
}

/// A path component that adds nothing: empty (from a repeated or trailing
/// separator) or `.`.
pub open spec fn is_idle_part(p: Seq<char>) -> bool {
    p.len() == 0 || p == seq!['.']
}

/// The components that are kept, in order.
pub open spec fn kept_parts(parts: Seq<Seq<char>>) -> Seq<Seq<char>>
    decreases parts.len(),
{
    if parts.len() == 0 {
        seq![]
    } else {
        let prev = kept_parts(parts.drop_last());
        if is_idle_part(parts.last()) {
            prev
        } else {
            prev.push(parts.last())
        }
    }
}

/// The form in which two search-path entries are compared: white space and
/// quotes around it removed, `/` read as `\`, ASCII letters lower-cased, and
/// the components rebuilt with single `\` separators, without empty and `.`
/// components. A leading separator is kept; an entry of only `.` components
/// becomes `.`. Empty when the entry holds nothing but white space and quotes.
pub open spec fn normalized_segment(s: Seq<char>) -> Seq<char> {
    let t = trim_by(trim(s), |c: char| c == '"');
    if t.len() == 0 {
        seq![]
    } else {
        let body = join(kept_parts(split(t.map_values(|c: char| fold_sep_case(c)), '\\')), '\\');
        if is_sep(t[0]) {
            seq!['\\'] + body
        } else if body.len() == 0 {
            seq!['.']
        } else {
            body
        }
    }
}

pub fn normalize_path_segment(segment: &[char]) -> (r: Vec<char>)
    ensures
        r@ == normalized_segment(segment@),
{
    let a = trim_chars(segment);
    let t = trim_quotes(a.as_slice());
    let n = t.len();
    if n == 0 {
        return Vec::new();
    }
    let mut u: Vec<char> = Vec::new();
    let mut i: usize = 0;
    while i < n
        invariant
            i <= n == t@.len(),
            u@ == t@.subrange(0, i as int).map_values(|c: char| fold_sep_case(c)),
        decreases n - i,
    {
        let c = t[i];
        u.push(if c == '/' {
            '\\'
        } else {
            lower_char(c)
        });
        i += 1;
        assert(u@ =~= t@.subrange(0, i as int).map_values(|c: char| fold_sep_case(c)));
    }
    assert(t@.subrange(0, n as int) =~= t@);
    let parts = split_chars(u.as_slice(), '\\');
    let ghost all = split(u@, '\\');
    let mut kept: Vec<Vec<char>> = Vec::new();
    let mut j: usize = 0;
    assert(all.subrange(0, 0) =~= Seq::<Seq<char>>::empty());
    assert(views(kept@) =~= Seq::<Seq<char>>::empty());
    while j < parts.len()
        invariant
            j <= parts@.len() == all.len(),
            forall|k: int| 0 <= k < parts@.len() ==> #[trigger] parts@[k]@ == all[k],
            views(kept@) == kept_parts(all.subrange(0, j as int)),
        decreases parts@.len() - j,
    {
        assert(all.subrange(0, j as int + 1).drop_last() =~= all.subrange(0, j as int));
        assert(all.subrange(0, j as int + 1).last() == parts@[j as int]@);
        let part = &parts[j];
        let idle = part.len() == 0 || (part.len() == 1 && part[0] == '.');
        assert(idle == is_idle_part(part@)) by {
            if part@.len() == 1 && part@[0] == '.' {
                assert(part@ =~= seq!['.']);
            }
        }
        if !idle {
            let ghost k0 = kept@;
            kept.push(part.clone());
            assert(views(kept@) =~= views(k0).push(part@));
        }
        j += 1;
    }
    assert(all.subrange(0, all.len() as int) =~= all);
    let body = join_chars(&kept, '\\');
    let mut r: Vec<char> = Vec::new();
    if t[0] == '\\' || t[0] == '/' {
        r.push('\\');
        push_str_chars(&mut r, body.as_slice());
        assert(r@ =~= seq!['\\'] + body@);
    } else if body.len() == 0 {
        r.push('.');
        assert(r@ =~= seq!['.']);
    } else {
        push_str_chars(&mut r, body.as_slice());
        assert(r@ =~= body@);
    }
    r
}

/// Entries of `segs` appended to `kept` in order, skipping those that
/// normalize to nothing or to the form of an entry already kept.
pub open spec fn keep_unique(kept: Seq<Seq<char>>, segs: Seq<Seq<char>>) -> Seq<Seq<char>>
    decreases segs.len(),
{
    if segs.len() == 0 {
        kept
    } else {
        let x = segs[0];
        let nx = normalized_segment(x);
        let next = if nx.len() == 0 || kept.map_values(|k: Seq<char>| normalized_segment(k)).contains(
            nx,
        ) {
            kept
        } else {
            kept.push(x)
        };
        keep_unique(next, segs.drop_first())
    }
}

/// The value of `PATH` after `incoming` is merged into `existing`.
pub open spec fn merged_path(existing: Seq<char>, incoming: Seq<char>, style: PathStyle) -> Seq<
    char,
> {
    match style {
        PathStyle::CaseSensitive => incoming,
        PathStyle::CaseInsensitive => join(
            keep_unique(keep_unique(seq![], split(existing, ';')), split(incoming, ';')),
            ';',
        ),
    }
}

pub open spec fn views(v: Seq<Vec<char>>) -> Seq<Seq<char>> {
    v.map_values(|x: Vec<char>| x@)
}

fn contains_chars(v: &Vec<Vec<char>>, x: &[char]) -> (r: bool)
    ensures
        r == views(v@).contains(x@),
{
    let mut i: usize = 0;
    while i < v.len()
        invariant
            i <= v@.len(),
            forall|j: int| 0 <= j < i ==> v@[j]@ != x@,
        decreases v@.len() - i,
    {
        if same_chars(v[i].as_slice(), x) {
            assert(views(v@)[i as int] == x@);
            return true;
        }
        i += 1;
    }
    assert forall|j: int| 0 <= j < views(v@).len() implies views(v@)[j] != x@ by {
        assert(views(v@)[j] == v@[j]@);
    }
    false
}

/// Appends to `merged` the entries of `value` (split at `;`) whose normalized
/// form is non-empty and not yet in `seen`; `seen` holds the normalized forms
/// of `merged`.
fn push_unique_paths(merged: &mut Vec<Vec<char>>, seen: &mut Vec<Vec<char>>, value: &[char])
    requires
        views(old(seen)@) == views(old(merged)@).map_values(|k: Seq<char>| normalized_segment(k)),
    ensures
        views(final(merged)@) == keep_unique(views(old(merged)@), split(value@, ';')),
        views(final(seen)@) == views(final(merged)@).map_values(
            |k: Seq<char>| normalized_segment(k),
        ),
{
    let segs = split_chars(value, ';');
    let ghost all = split(value@, ';');
    assert(views(segs@) =~= all);
    assert(all.subrange(0, all.len() as int) =~= all);
    let mut i: usize = 0;
    while i < segs.len()
        invariant
            i <= segs@.len() == all.len(),
            views(segs@) == all,
            keep_unique(views(merged@), all.subrange(i as int, all.len() as int)) == keep_unique(
                views(old(merged)@),
                all,
            ),
            views(seen@) == views(merged@).map_values(|k: Seq<char>| normalized_segment(k)),
        decreases segs@.len() - i,
    {
        let ghost rest = all.subrange(i as int, all.len() as int);
        assert(rest[0] == segs@[i as int]@);
        assert(rest.drop_first() =~= all.subrange(i as int + 1, all.len() as int));
        let normalized = normalize_path_segment(segs[i].as_slice());
        if normalized.len() > 0 && !contains_chars(seen, normalized.as_slice()) {
            let ghost m0 = merged@;
            let ghost s0 = seen@;
            merged.push(segs[i].clone());
            seen.push(normalized);
            proof {
                assert(views(merged@) =~= views(m0).push(segs@[i as int]@));
                assert(views(seen@) =~= views(s0).push(normalized@));
                assert(views(seen@) =~= views(merged@).map_values(
                    |k: Seq<char>| normalized_segment(k),
                ));
            }
        }
        i += 1;
    }
    assert(all.subrange(all.len() as int, all.len() as int) =~= Seq::<Seq<char>>::empty());
}

/// Merges a search-path value into an earlier one: on a case-insensitive
/// platform the entries of both, in order, without repeats; elsewhere the
/// incoming value.
pub fn merge_path_values(existing: &str, incoming: &str, style: PathStyle) -> (r: String)
    ensures
        r@ == merged_path(existing@, incoming@, style),
{
    match style {
        PathStyle::CaseSensitive => {
            let c = chars_of(incoming);
            string_from_chars(c.as_slice())
        },
        PathStyle::CaseInsensitive => {
            let mut merged: Vec<Vec<char>> = Vec::new();
            let mut seen: Vec<Vec<char>> = Vec::new();
            assert(views(merged@) =~= Seq::<Seq<char>>::empty());
            assert(views(seen@) =~= views(merged@).map_values(
                |k: Seq<char>| normalized_segment(k),
            ));
            let e = chars_of(existing);
            let i = chars_of(incoming);
            push_unique_paths(&mut merged, &mut seen, e.as_slice());
            push_unique_paths(&mut merged, &mut seen, i.as_slice());
            let joined = join_chars(&merged, ';');
            string_from_chars(joined.as_slice())
        },
    }
}


/// A variable assignment as plain character sequences.
pub type Pair = (Seq<char>, Seq<char>);

pub open spec fn pairs(v: Seq<(String, String)>) -> Seq<Pair> {
    v.map_values(|p: (String, String)| (p.0@, p.1@))
}

/// One override layer: each variable under its normalized name, in order,
/// without the denied ones.
pub open spec fn filtered(vars: Seq<Pair>, style: PathStyle) -> Seq<Pair>
    decreases vars.len(),
{
    if vars.len() == 0 {
        seq![]
    } else {
        let prev = filtered(vars.drop_last(), style);
        let nk = normalized_key(vars.last().0, style);
        if is_denied(nk) {
            prev
        } else {
            prev.push((nk, vars.last().1))
        }
    }
}

/// The inherited layer: the assignments of all variables but `PATH`, and the
/// `PATH` value that the `PATH` entries merge into, if there was one.
pub open spec fn inherited(vars: Seq<Pair>, style: PathStyle) -> (Seq<Pair>, Option<Seq<char>>)
    decreases vars.len(),
{
    if vars.len() == 0 {
        (seq![], None)
    } else {
        let (a, path) = inherited(vars.drop_last(), style);
        let nk = normalized_key(vars.last().0, style);
        let v = vars.last().1;
        if is_denied(nk) {
            (a, path)
        } else if nk == "PATH"@ {
            (
                a,
                Some(
                    match path {
                        Some(e) => merged_path(e, v, style),
                        None => v,
                    },
                ),
            )
        } else {
            (a.push((nk, v)), path)
        }
    }
}

/// The global assignments that set up a new session, in order: the inherited
/// variables, the merged `PATH`, then the session-level overrides.
pub open spec fn session_assignments(
    inherited_vars: Seq<Pair>,
    session_vars: Option<Seq<Pair>>,
    style: PathStyle,
) -> Seq<Pair> {
    let (a, path) = inherited(inherited_vars, style);
    a + match path {
        Some(p) => seq![("PATH"@, p)],
        None => seq![],
    } + match session_vars {
        Some(s) => filtered(s, style),
        None => seq![],
    }
}

fn pair_of(k: &[char], v: &String) -> (r: (String, String))
    ensures
        r.0@ == k@,
        r.1@ == v@,
{
    (string_from_chars(k), v.clone())
}

/// The assignments of one override layer (session-level or per-call).
pub fn layer_assignments(vars: &Vec<(String, String)>, style: PathStyle) -> (r: Vec<
    (String, String),
>)
    ensures
        pairs(r@) == filtered(pairs(vars@), style),
{
    let mut r: Vec<(String, String)> = Vec::new();
    let mut i: usize = 0;
    while i < vars.len()
        invariant
            i <= vars@.len(),
            pairs(r@) == filtered(pairs(vars@.subrange(0, i as int)), style),
        decreases vars@.len() - i,
    {
        let ghost pre = pairs(vars@.subrange(0, i as int));
        assert(pairs(vars@.subrange(0, i as int + 1)).drop_last() =~= pre);
        assert(pairs(vars@.subrange(0, i as int + 1)).last() == (vars@[i as int].0@, vars@[
            i as int
        ].1@));
        let nk = normalize_env_key(vars[i].0.as_str(), style);
        if !should_skip_env_var(nk.as_str()) {
            let k = chars_of(nk.as_str());
            let ghost r0 = r@;
            r.push(pair_of(k.as_slice(), &vars[i].1));
            assert(pairs(r@) =~= pairs(r0).push((nk@, vars@[i as int].1@)));
        }
        i += 1;
    }
    assert(vars@.subrange(0, vars@.len() as int) =~= vars@);
    r
}

/// The global assignments for a new session: the inherited variables (all
/// `PATH` entries merged into one, set after the others), then the
/// session-level overrides.
pub fn session_globals(
    inherited_vars: &Vec<(String, String)>,
    session_env: &Option<Vec<(String, String)>>,
    style: PathStyle,
) -> (r: Vec<(String, String)>)
    ensures
        pairs(r@) == session_assignments(
            pairs(inherited_vars@),
            match session_env {
                Some(s) => Some(pairs(s@)),
                None => None,
            },
            style,
        ),
{
    let mut r: Vec<(String, String)> = Vec::new();
    let mut path: Option<String> = None;
    let mut i: usize = 0;
    while i < inherited_vars.len()
        invariant
            i <= inherited_vars@.len(),
            (pairs(r@), match path {
                Some(p) => Some(p@),
                None => None,
            }) == inherited(pairs(inherited_vars@.subrange(0, i as int)), style),
        decreases inherited_vars@.len() - i,
    {
        let ghost pre = pairs(inherited_vars@.subrange(0, i as int));
        assert(pairs(inherited_vars@.subrange(0, i as int + 1)).drop_last() =~= pre);
        assert(pairs(inherited_vars@.subrange(0, i as int + 1)).last() == (
            inherited_vars@[i as int].0@,
            inherited_vars@[i as int].1@,
        ));
        let nk = normalize_env_key(inherited_vars[i].0.as_str(), style);
        let k = chars_of(nk.as_str());
        if !should_skip_env_var(nk.as_str()) {
            if is_literal(k.as_slice(), "PATH") {
                let value = &inherited_vars[i].1;
                path = match path {
                    Some(e) => Some(merge_path_values(e.as_str(), value.as_str(), style)),
                    None => Some(value.clone()),
                };
            } else {
                let ghost r0 = r@;
                r.push(pair_of(k.as_slice(), &inherited_vars[i].1));
                assert(pairs(r@) =~= pairs(r0).push((nk@, inherited_vars@[i as int].1@)));
            }
        }
        i += 1;
    }
    assert(inherited_vars@.subrange(0, inherited_vars@.len() as int) =~= inherited_vars@);
    let ghost base = pairs(r@);
    match path {
        Some(p) => {
            let name = chars_of("PATH");
            r.push(pair_of(name.as_slice(), &p));
            assert(pairs(r@) =~= base + seq![("PATH"@, p@)]);
        },
        None => {
            assert(pairs(r@) =~= base + Seq::<Pair>::empty());
        },
    }
    let ghost mid = pairs(r@);
    match session_env {
        Some(s) => {
            let layer = layer_assignments(s, style);
            let mut j: usize = 0;
            while j < layer.len()
                invariant
                    j <= layer@.len(),
                    pairs(r@) == mid + pairs(layer@.subrange(0, j as int)),
                decreases layer@.len() - j,
            {
                let ghost r0 = r@;
                r.push((layer[j].0.clone(), layer[j].1.clone()));
                assert(pairs(r@) =~= pairs(r0).push((layer@[j as int].0@, layer@[j as int].1@)));
                assert(pairs(layer@.subrange(0, j as int + 1)) =~= pairs(
                    layer@.subrange(0, j as int),
                ).push((layer@[j as int].0@, layer@[j as int].1@)));
                assert(pairs(r@) =~= mid + pairs(layer@.subrange(0, j as int + 1)));
                j += 1;
            }
            assert(layer@.subrange(0, layer@.len() as int) =~= layer@);
        },
        None => {
            assert(pairs(r@) =~= mid + Seq::<Pair>::empty());
        },
    }
    r
}

/// Denied names are told apart from `PATH`.
proof fn lemma_path_not_denied()
    ensures
        !is_denied("PATH"@),
{
    reveal_strlit("PATH");
    reveal_strlit("BASH_FUNC_");
    reveal_strlit("%%");
        reveal_strlit("BASH_ENV");
        reveal_strlit("ENV");
        reveal_strlit("HISTFILE");
        reveal_strlit("HISTTIMEFORMAT");
        reveal_strlit("HISTCMD");
        reveal_strlit("PS0");
        reveal_strlit("PS1");
        reveal_strlit("PS2");
        reveal_strlit("PS4");
        reveal_strlit("BRUSH_PS_ALT");
        reveal_strlit("READLINE_LINE");
        reveal_strlit("READLINE_POINT");
        reveal_strlit("BRUSH_VERSION");
        reveal_strlit("BASH");
        reveal_strlit("BASHOPTS");
        reveal_strlit("BASH_ALIASES");
        reveal_strlit("BASH_ARGV0");
        reveal_strlit("BASH_CMDS");
        reveal_strlit("BASH_SOURCE");
        reveal_strlit("BASH_SUBSHELL");
        reveal_strlit("BASH_VERSINFO");
        reveal_strlit("BASH_VERSION");
        reveal_strlit("SHELLOPTS");
        reveal_strlit("SHLVL");
        reveal_strlit("SHELL");
        reveal_strlit("COMP_WORDBREAKS");
        reveal_strlit("DIRSTACK");
        reveal_strlit("EPOCHREALTIME");
        reveal_strlit("EPOCHSECONDS");
        reveal_strlit("FUNCNAME");
        reveal_strlit("GROUPS");
        reveal_strlit("IFS");
        reveal_strlit("LINENO");
        reveal_strlit("MACHTYPE");
        reveal_strlit("OSTYPE");
        reveal_strlit("OPTERR");
        reveal_strlit("OPTIND");
        reveal_strlit("PIPESTATUS");
        reveal_strlit("PPID");
        reveal_strlit("PWD");
        reveal_strlit("OLDPWD");
        reveal_strlit("RANDOM");
        reveal_strlit("SRANDOM");
        reveal_strlit("SECONDS");
        reveal_strlit("UID");
        reveal_strlit("EUID");
        reveal_strlit("HOSTNAME");
        reveal_strlit("HOSTTYPE");
    assert("PATH"@ != "BASH"@) by {
        assert("PATH"@[0] != "BASH"@[0]);
    }
    assert("PATH"@ != "PPID"@) by {
        assert("PATH"@[1] != "PPID"@[1]);
    }
    assert("PATH"@ != "EUID"@) by {
        assert("PATH"@[0] != "EUID"@[0]);
    }
    assert(!"BASH_FUNC_"@.is_prefix_of("PATH"@));
}

/// No layer ever assigns a denied name, whatever names its variables carry.
pub proof fn lemma_layer_never_denied(vars: Seq<Pair>, style: PathStyle)
    ensures
        forall|i: int| 0 <= i < filtered(vars, style).len() ==> !is_denied(
            #[trigger] filtered(vars, style)[i].0,
        ),
    decreases vars.len(),
{
    if vars.len() > 0 {
        lemma_layer_never_denied(vars.drop_last(), style);
        let prev = filtered(vars.drop_last(), style);
        let cur = filtered(vars, style);
        assert forall|i: int| 0 <= i < cur.len() implies !is_denied(#[trigger] cur[i].0) by {
            if i < prev.len() {
                assert(cur[i] == prev[i]);
            }
        }
    }
}

/// A session's set-up never assigns a denied name: not from the inherited
/// environment, not through the merged `PATH`, not from the session overrides.
pub proof fn lemma_session_never_denied(
    inherited_vars: Seq<Pair>,
    session_vars: Option<Seq<Pair>>,
    style: PathStyle,
)
    ensures
        forall|i: int|
            0 <= i < session_assignments(inherited_vars, session_vars, style).len() ==> !is_denied(
                #[trigger] session_assignments(inherited_vars, session_vars, style)[i].0,
            ),
    decreases inherited_vars.len(),
{
    lemma_inherited_never_denied(inherited_vars, style);
    lemma_path_not_denied();
    if let Some(s) = session_vars {
        lemma_layer_never_denied(s, style);
    }
    let (a, path) = inherited(inherited_vars, style);
    let mid = match path {
        Some(p) => seq![("PATH"@, p)],
        None => seq![],
    };
    let tail = match session_vars {
        Some(s) => filtered(s, style),
        None => seq![],
    };
    let all = session_assignments(inherited_vars, session_vars, style);
    assert(all == a + mid + tail);
    assert forall|i: int| 0 <= i < all.len() implies !is_denied(#[trigger] all[i].0) by {
        if i < a.len() {
            assert(all[i] == a[i]);
        } else if i < a.len() + mid.len() {
            assert(all[i] == mid[i - a.len()]);
        } else {
            assert(all[i] == tail[i - a.len() - mid.len()]);
        }
    }
}

proof fn lemma_inherited_never_denied(vars: Seq<Pair>, style: PathStyle)
    ensures
        forall|i: int| 0 <= i < inherited(vars, style).0.len() ==> !is_denied(
            #[trigger] inherited(vars, style).0[i].0,
        ),
    decreases vars.len(),
{
    if vars.len() > 0 {
        lemma_inherited_never_denied(vars.drop_last(), style);
        let prev = inherited(vars.drop_last(), style).0;
        let cur = inherited(vars, style).0;
        assert forall|i: int| 0 <= i < cur.len() implies !is_denied(#[trigger] cur[i].0) by {
            if i < prev.len() {
                assert(cur[i] == prev[i]);
            }
        }
    }
}

} // verus!
