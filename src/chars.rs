//! Character-sequence helpers shared by the text-handling modules: trimming,
//! ASCII case folding, splitting and joining, all over `Seq<char>`.

use vstd::prelude::*;

verus! {

/// Relies on `str::chars` collected into a `Vec`: the characters of `s`, in order.
#[verifier::external_body]
pub(crate) fn chars_of(s: &str) -> (r: Vec<char>)
    ensures
        r@ == s@,
{
    s.chars().collect()
}

/// Relies on collecting a slice of `char`s into a `String`: the characters are
/// kept, in order.
#[verifier::external_body]
pub(crate) fn string_from_chars(v: &[char]) -> (r: String)
    ensures
        r@ == v@,
{
    v.iter().collect()
}

/// The Unicode `White_Space` property.
pub open spec fn is_white_space(c: char) -> bool {
    let v = c as u32;
    (0x09 <= v && v <= 0x0d) || v == 0x20 || v == 0x85 || v == 0xa0 || v == 0x1680 || (0x2000
        <= v && v <= 0x200a) || v == 0x2028 || v == 0x2029 || v == 0x202f || v == 0x205f || v
        == 0x3000
}

pub fn white_space(c: char) -> (r: bool)
    ensures
        r == is_white_space(c),
{
    let v = c as u32;
    (0x09 <= v && v <= 0x0d) || v == 0x20 || v == 0x85 || v == 0xa0 || v == 0x1680 || (0x2000
        <= v && v <= 0x200a) || v == 0x2028 || v == 0x2029 || v == 0x202f || v == 0x205f || v
        == 0x3000
}

/// Number of leading characters of `s` that satisfy `p`.
pub open spec fn lead_count(s: Seq<char>, p: spec_fn(char) -> bool) -> nat
    decreases s.len(),
{
    if s.len() > 0 && p(s[0]) {
        1 + lead_count(s.drop_first(), p)
    } else {
        0
    }
}

/// Number of trailing characters of `s` that satisfy `p`.
pub open spec fn trail_count(s: Seq<char>, p: spec_fn(char) -> bool) -> nat
    decreases s.len(),
{
    if s.len() > 0 && p(s.last()) {
        1 + trail_count(s.drop_last(), p)
    } else {
        0
    }
}

/// `s` without leading and trailing characters that satisfy `p`.
pub open spec fn trim_by(s: Seq<char>, p: spec_fn(char) -> bool) -> Seq<char> {
    let a = lead_count(s, p);
    if a == s.len() {
        seq![]
    } else {
        s.subrange(a as int, s.len() - trail_count(s, p))
    }
}

/// `s` without leading and trailing white space.
pub open spec fn trim(s: Seq<char>) -> Seq<char> {
    trim_by(s, |c: char| is_white_space(c))
}

pub proof fn lemma_lead_count(s: Seq<char>, p: spec_fn(char) -> bool, i: int)
    requires
        0 <= i <= s.len(),
        forall|j: int| 0 <= j < i ==> p(#[trigger] s[j]),
        i == s.len() || !p(s[i]),
    ensures
        lead_count(s, p) == i,
    decreases s.len(),
{
    if s.len() > 0 && p(s[0]) {
        assert forall|j: int| 0 <= j < i - 1 implies p(#[trigger] s.drop_first()[j]) by {
            assert(s.drop_first()[j] == s[j + 1]);
        }
        if i < s.len() {
            assert(s.drop_first()[i - 1] == s[i]);
        }
        lemma_lead_count(s.drop_first(), p, i - 1);
    }
}

pub proof fn lemma_trail_count(s: Seq<char>, p: spec_fn(char) -> bool, i: int)
    requires
        0 <= i <= s.len(),
        forall|j: int| s.len() - i <= j < s.len() ==> p(#[trigger] s[j]),
        i == s.len() || !p(s[s.len() - 1 - i]),
    ensures
        trail_count(s, p) == i,
    decreases s.len(),
{
    if s.len() > 0 && p(s.last()) {
        assert forall|j: int| s.len() - 1 - (i - 1) <= j < s.len() - 1 implies p(
            #[trigger] s.drop_last()[j],
        ) by {
            assert(s.drop_last()[j] == s[j]);
        }
        if i < s.len() {
            assert(s.drop_last()[s.len() - 1 - 1 - (i - 1)] == s[s.len() - 1 - i]);
        }
        lemma_trail_count(s.drop_last(), p, i - 1);
    } else {
        if i > 0 {
            assert(p(s[s.len() - 1]));
        }
    }
}

fn trimmed(c: char, quotes: bool) -> (r: bool)
    ensures
        quotes ==> r == (c == '"'),
        !quotes ==> r == is_white_space(c),
{
    if quotes {
        c == '"'
    } else {
        white_space(c)
    }
}

/// Exec form of [`trim_by`] for the two predicates the crate needs.
fn trim_where(s: &[char], quotes: bool) -> (r: Vec<char>)
    ensures
        quotes ==> r@ == trim_by(s@, |c: char| c == '"'),
        !quotes ==> r@ == trim(s@),
{
    let ghost p: spec_fn(char) -> bool = if quotes {
        |c: char| c == '"'
    } else {
        |c: char| is_white_space(c)
    };
    let n = s.len();
    let mut a: usize = 0;
    while a < n && trimmed(s[a], quotes)
        invariant
            a <= n == s@.len(),
            forall|j: int| 0 <= j < a ==> p(#[trigger] s@[j]),
            p == (if quotes {
                |c: char| c == '"'
            } else {
                |c: char| is_white_space(c)
            }),
        decreases n - a,
    {
        a += 1;
    }
    proof {
        lemma_lead_count(s@, p, a as int);
    }
    let mut r: Vec<char> = Vec::new();
    if a == n {
        return r;
    }
    let mut b: usize = n;
    while b > a && trimmed(s[b - 1], quotes)
        invariant
            a < n == s@.len(),
            a <= b <= n,
            !p(s@[a as int]),
            forall|j: int| b <= j < n ==> p(#[trigger] s@[j]),
            p == (if quotes {
                |c: char| c == '"'
            } else {
                |c: char| is_white_space(c)
            }),
        decreases b,
    {
        b -= 1;
    }
    proof {
        lemma_trail_count(s@, p, (n - b) as int);
    }
    let mut k: usize = a;
    while k < b
        invariant
            a <= k <= b <= n == s@.len(),
            r@ == s@.subrange(a as int, k as int),
        decreases b - k,
    {
        r.push(s[k]);
        k += 1;
        assert(r@ =~= s@.subrange(a as int, k as int));
    }
    r
}

pub fn trim_chars(s: &[char]) -> (r: Vec<char>)
    ensures
        r@ == trim(s@),
{
    trim_where(s, false)
}

pub fn trim_quotes(s: &[char]) -> (r: Vec<char>)
    ensures
        r@ == trim_by(s@, |c: char| c == '"'),
{
    trim_where(s, true)
}


/// ASCII lower-casing of one character; other characters are kept.
pub open spec fn ascii_lower(c: char) -> char {
    if 'A' <= c && c <= 'Z' {
        (((c as u32) + 32) as u8) as char
    } else {
        c
    }
}

pub open spec fn lower_all(s: Seq<char>) -> Seq<char> {
    s.map_values(|c: char| ascii_lower(c))
}

/// Equality up to ASCII case.
pub open spec fn eq_ignore_case(a: Seq<char>, b: Seq<char>) -> bool {
    lower_all(a) == lower_all(b)
}

pub open spec fn has_suffix(s: Seq<char>, x: Seq<char>) -> bool {
    x.len() <= s.len() && s.subrange(s.len() - x.len(), s.len() as int) == x
}

/// The pieces of `s` between occurrences of `sep`; there is always at least one.
pub open spec fn split(s: Seq<char>, sep: char) -> Seq<Seq<char>>
    decreases s.len(),
{
    if s.len() == 0 {
        seq![seq![]]
    } else {
        let p = split(s.drop_last(), sep);
        if s.last() == sep {
            p.push(seq![])
        } else {
            p.update(p.len() - 1, p.last().push(s.last()))
        }
    }
}

/// The pieces joined with `sep` between each two of them.
pub open spec fn join(parts: Seq<Seq<char>>, sep: char) -> Seq<char>
    decreases parts.len(),
{
    if parts.len() == 0 {
        seq![]
    } else if parts.len() == 1 {
        parts[0]
    } else {
        join(parts.drop_last(), sep) + seq![sep] + parts.last()
    }
}

pub proof fn lemma_split_nonempty(s: Seq<char>, sep: char)
    ensures
        split(s, sep).len() >= 1,
    decreases s.len(),
{
    if s.len() > 0 {
        lemma_split_nonempty(s.drop_last(), sep);
    }
}

pub fn lower_char(c: char) -> (r: char)
    ensures
        r == ascii_lower(c),
{
    if 'A' <= c && c <= 'Z' {
        ((c as u8) + 32) as char
    } else {
        c
    }
}

pub fn lower_chars(s: &[char]) -> (r: Vec<char>)
    ensures
        r@ == lower_all(s@),
{
    let mut r: Vec<char> = Vec::new();
    let mut i: usize = 0;
    while i < s.len()
        invariant
            i <= s@.len(),
            r@ == lower_all(s@.subrange(0, i as int)),
        decreases s@.len() - i,
    {
        r.push(lower_char(s[i]));
        i += 1;
        assert(r@ =~= lower_all(s@.subrange(0, i as int)));
    }
    assert(s@.subrange(0, s@.len() as int) =~= s@);
    r
}

pub fn same_chars(a: &[char], b: &[char]) -> (r: bool)
    ensures
        r == (a@ == b@),
{
    if a.len() != b.len() {
        return false;
    }
    let mut i: usize = 0;
    while i < a.len()
        invariant
            i <= a@.len() == b@.len(),
            a@.subrange(0, i as int) == b@.subrange(0, i as int),
        decreases a@.len() - i,
    {
        if a[i] != b[i] {
            return false;
        }
        i += 1;
        assert(a@.subrange(0, i as int) =~= a@.subrange(0, i as int - 1).push(a@[i - 1]));
        assert(b@.subrange(0, i as int) =~= b@.subrange(0, i as int - 1).push(b@[i - 1]));
    }
    assert(a@ =~= a@.subrange(0, a@.len() as int));
    assert(b@ =~= b@.subrange(0, b@.len() as int));
    true
}

/// Whether `a` holds exactly the characters of the literal `lit`.
pub fn is_literal(a: &[char], lit: &str) -> (r: bool)
    ensures
        r == (a@ == lit@),
{
    let l = chars_of(lit);
    same_chars(a, l.as_slice())
}

pub fn eq_ignore_case_chars(a: &[char], b: &[char]) -> (r: bool)
    ensures
        r == eq_ignore_case(a@, b@),
{
    let la = lower_chars(a);
    let lb = lower_chars(b);
    same_chars(la.as_slice(), lb.as_slice())
}

pub fn starts_with_chars(s: &[char], x: &[char]) -> (r: bool)
    ensures
        r == x@.is_prefix_of(s@),
{
    if x.len() > s.len() {
        return false;
    }
    let mut i: usize = 0;
    while i < x.len()
        invariant
            i <= x@.len() <= s@.len(),
            forall|j: int| 0 <= j < i ==> x@[j] == s@[j],
        decreases x@.len() - i,
    {
        if x[i] != s[i] {
            return false;
        }
        i += 1;
    }
    true
}

pub fn ends_with_chars(s: &[char], x: &[char]) -> (r: bool)
    ensures
        r == has_suffix(s@, x@),
{
    if x.len() > s.len() {
        return false;
    }
    let sl = s.len();
    let off = sl - x.len();
    let mut i: usize = 0;
    while i < x.len()
        invariant
            i <= x@.len() <= s@.len(),
            off + x@.len() == s@.len(),
            sl == s@.len(),
            forall|j: int| 0 <= j < i ==> x@[j] == s@[off + j],
        decreases x@.len() - i,
    {
        if x[i] != s[off + i] {
            return false;
        }
        i += 1;
    }
    assert(s@.subrange(off as int, s@.len() as int) =~= x@);
    true
}

pub fn split_chars(s: &[char], sep: char) -> (r: Vec<Vec<char>>)
    ensures
        r@.len() == split(s@, sep).len(),
        forall|k: int| 0 <= k < r@.len() ==> #[trigger] r@[k]@ == split(s@, sep)[k],
{
    let mut done: Vec<Vec<char>> = Vec::new();
    let mut cur: Vec<char> = Vec::new();
    let mut i: usize = 0;
    while i < s.len()
        invariant
            i <= s@.len(),
            split(s@.subrange(0, i as int), sep).len() == done@.len() + 1,
            forall|k: int| 0 <= k < done@.len() ==> #[trigger] done@[k]@ == split(
                s@.subrange(0, i as int),
                sep,
            )[k],
            cur@ == split(s@.subrange(0, i as int), sep).last(),
        decreases s@.len() - i,
    {
        let ghost pre = s@.subrange(0, i as int);
        let ghost next = s@.subrange(0, i as int + 1);
        assert(next.drop_last() =~= pre);
        assert(next.last() == s@[i as int]);
        if s[i] == sep {
            done.push(cur);
            cur = Vec::new();
        } else {
            cur.push(s[i]);
        }
        i += 1;
        assert forall|k: int| 0 <= k < done@.len() implies #[trigger] done@[k]@ == split(
            s@.subrange(0, i as int),
            sep,
        )[k] by {}
    }
    assert(s@.subrange(0, s@.len() as int) =~= s@);
    done.push(cur);
    done
}

/// Joins the pieces with `sep`.
pub fn join_chars(parts: &Vec<Vec<char>>, sep: char) -> (r: Vec<char>)
    ensures
        r@ == join(parts@.map_values(|p: Vec<char>| p@), sep),
{
    let ghost views = parts@.map_values(|p: Vec<char>| p@);
    let mut r: Vec<char> = Vec::new();
    let mut i: usize = 0;
    while i < parts.len()
        invariant
            i <= parts@.len(),
            views == parts@.map_values(|p: Vec<char>| p@),
            r@ == join(views.subrange(0, i as int), sep),
        decreases parts@.len() - i,
    {
        if i > 0 {
            r.push(sep);
        }
        let mut k: usize = 0;
        let ghost before = r@;
        while k < parts[i].len()
            invariant
                i < parts@.len(),
                k <= parts@[i as int]@.len(),
                r@ == before + parts@[i as int]@.subrange(0, k as int),
            decreases parts@[i as int]@.len() - k,
        {
            r.push(parts[i][k]);
            k += 1;
            assert(r@ =~= before + parts@[i as int]@.subrange(0, k as int));
        }
        assert(parts@[i as int]@.subrange(0, k as int) =~= parts@[i as int]@);
        let ghost pre = views.subrange(0, i as int);
        let ghost next = views.subrange(0, i as int + 1);
        assert(next.drop_last() =~= pre);
        assert(next.last() == parts@[i as int]@);
        if i == 0 {
            assert(r@ =~= next[0]);
        } else {
            assert(r@ =~= join(pre, sep) + seq![sep] + next.last());
        }
        i += 1;
    }
    assert(views.subrange(0, parts@.len() as int) =~= views);
    r
}


/// The characters of `v` from `a` up to `b`.
pub fn sub_chars(v: &[char], a: usize, b: usize) -> (r: Vec<char>)
    requires
        a <= b <= v@.len(),
    ensures
        r@ == v@.subrange(a as int, b as int),
{
    let mut r: Vec<char> = Vec::new();
    let mut i: usize = a;
    while i < b
        invariant
            a <= i <= b <= v@.len(),
            r@ == v@.subrange(a as int, i as int),
        decreases b - i,
    {
        r.push(v[i]);
        i += 1;
        assert(r@ =~= v@.subrange(a as int, i as int));
    }
    r
}


/// Appends the characters of `s` to `v`.
pub fn push_str_chars(v: &mut Vec<char>, s: &[char])
    ensures
        final(v)@ == old(v)@ + s@,
{
    let ghost start = v@;
    let mut i: usize = 0;
    while i < s.len()
        invariant
            i <= s@.len(),
            v@ == start + s@.subrange(0, i as int),
        decreases s@.len() - i,
    {
        v.push(s[i]);
        i += 1;
        assert(v@ =~= start + s@.subrange(0, i as int));
    }
    assert(s@.subrange(0, s@.len() as int) =~= s@);
}

} // verus!
