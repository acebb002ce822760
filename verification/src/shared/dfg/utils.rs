//! Helpers of the data flow: the root a node refers to, and the normalized
//! type of a node.
use vstd::prelude::*;
use regex::Regex;
use crate::ast::{AstNode, attr_str_or_empty, attr_str_or_default};
use crate::shared::walker::Walker;
use crate::shared::dict::{Dictionary, entry_of, key_of};
use crate::text::{str_eq, chars_of, push_char, owned};
use crate::shared::dfg::variable::{Variable, dvar_views};

verus! {

/// The root that node `n` (read against `source`) refers to: the node itself
/// when it has no child or is a declaration, else the root of the dictionary
/// entry of its first child; `None` where that entry is missing or the chain
/// is longer than `fuel`.
pub open spec fn spec_root(n: AstNode, source: Seq<char>, keys: Seq<(AstNode, Seq<char>)>, fuel: nat)
    -> Option<(AstNode, Seq<char>)>
    decreases fuel,
{
    if n.children@.len() == 0 || n.name@ == "VariableDeclaration"@ {
        Some((n, source))
    } else if fuel == 0 {
        None
    } else {
        match entry_of(keys, n.children@[0].id) {
            None => None,
            Some((m, s)) => spec_root(m, s, keys, (fuel - 1) as nat),
        }
    }
}

/// The walker of the root that `walker` refers to: see `spec_root`, with a
/// chain at most as long as the dictionary has entries.
pub fn find_root_walker<'a>(walker: &Walker<'a>, dict: &'a Dictionary<'a>) -> (r: Option<Walker<'a>>)
    requires
        walker.tree_wf(),
        dict.wf(),
    ensures
        match r {
            Some(w) => w.tree_wf() && spec_root(walker.ast(), walker.source@, dict.keys(), dict.entries@.len() as nat)
                == Some(key_of(w)),
            None => spec_root(walker.ast(), walker.source@, dict.keys(), dict.entries@.len() as nat) is None,
        },
{
    let mut cur: Walker<'a> = *walker;
    let mut fuel: usize = dict.entries.len();
    let ghost goal = spec_root(walker.ast(), walker.source@, dict.keys(), fuel as nat);
    proof { reveal_strlit("VariableDeclaration"); }
    loop
        invariant
            dict.wf(),
            cur.tree_wf(),
            goal == spec_root(walker.ast(), walker.source@, dict.keys(), dict.entries@.len() as nat),
            spec_root(cur.ast(), cur.source@, dict.keys(), fuel as nat) == goal,
        decreases fuel,
    {
        proof { Walker::lemma_wf_fields(cur); }
        if cur.node.children.len() == 0 || str_eq(cur.node.name, "VariableDeclaration") {
            return Some(cur);
        }
        if fuel == 0 {
            return None;
        }
        match dict.walker_at(cur.node.children[0].id) {
            Some(next) => {
                cur = *next;
                fuel = fuel - 1;
            },
            None => {
                return None;
            },
        }
    }
}

/// What the first capture group of the regular expression `pattern` is in the
/// first match in `text`; `None` where nothing matches (or the pattern does
/// not compile).
pub uninterp spec fn first_capture(pattern: Seq<char>, text: Seq<char>) -> Option<Seq<char>>;

/// `Regex::new(pattern)` and `captures(text)`: the first capture group of the
/// first match.
#[verifier::external_body]
fn capture(pattern: &str, text: &str) -> (r: Option<String>)
    ensures
        match r {
            Some(s) => first_capture(pattern@, text@) == Some(s@),
            None => first_capture(pattern@, text@) is None,
        },
{
    match Regex::new(pattern) {
        Ok(re) => match re.captures(text) {
            Some(caps) => caps.get(1).map(|m| m.as_str().to_string()),
            None => None,
        },
        Err(_) => None,
    }
}

/// The pattern of the type a function type returns.
pub open spec fn returns_pattern() -> Seq<char> {
    "returns\\s*\\((.+)\\)$"@
}

/// Whitespace, as `char::is_whitespace` has it: the Unicode `White_Space` characters.
pub open spec fn is_white(c: char) -> bool {
    ||| '\u{9}' <= c <= '\u{d}'
    ||| c == ' '
    ||| c == '\u{85}'
    ||| c == '\u{a0}'
    ||| c == '\u{1680}'
    ||| '\u{2000}' <= c <= '\u{200a}'
    ||| c == '\u{2028}'
    ||| c == '\u{2029}'
    ||| c == '\u{202f}'
    ||| c == '\u{205f}'
    ||| c == '\u{3000}'
}

fn white(c: char) -> (r: bool)
    ensures
        r == is_white(c),
{
    ('\u{9}' <= c && c <= '\u{d}') || c == ' ' || c == '\u{85}' || c == '\u{a0}' || c == '\u{1680}'
        || ('\u{2000}' <= c && c <= '\u{200a}') || c == '\u{2028}' || c == '\u{2029}' || c == '\u{202f}'
        || c == '\u{205f}' || c == '\u{3000}'
}

/// The number of white characters at the start of `s`.
pub open spec fn lead(s: Seq<char>) -> int
    decreases s.len(),
{
    if s.len() > 0 && is_white(s[0]) { 1 + lead(s.drop_first()) } else { 0 }
}

/// The number of white characters at the end of `s`.
pub open spec fn trail(s: Seq<char>) -> int
    decreases s.len(),
{
    if s.len() > 0 && is_white(s.last()) { 1 + trail(s.drop_last()) } else { 0 }
}

/// `s` without its leading and trailing whitespace, as `str::trim` gives it.
pub open spec fn trimmed(s: Seq<char>) -> Seq<char> {
    let a = lead(s);
    if a == s.len() { seq![] } else { s.subrange(a, s.len() - trail(s)) }
}

/// `pat` stands in `s` at `i`.
pub open spec fn found_at(s: Seq<char>, pat: Seq<char>, i: int) -> bool {
    0 <= i && i + pat.len() <= s.len() && s.subrange(i, i + pat.len()) == pat
}

/// The first position from `i` on where `pat` stands in `s`, or -1.
pub open spec fn next_match(s: Seq<char>, pat: Seq<char>, i: int) -> int
    decreases s.len() + 1 - i,
{
    if i < 0 || i + pat.len() > s.len() {
        -1
    } else if found_at(s, pat, i) {
        i
    } else {
        next_match(s, pat, i + 1)
    }
}

pub proof fn lemma_next_match(s: Seq<char>, pat: Seq<char>, i: int)
    requires
        0 <= i,
    ensures
        next_match(s, pat, i) == -1 || (i <= next_match(s, pat, i) && found_at(s, pat, next_match(s, pat, i))),
        next_match(s, pat, i) >= 0 ==> forall|k: int| i <= k < next_match(s, pat, i) ==> !found_at(s, pat, k),
        next_match(s, pat, i) < 0 ==> forall|k: int| i <= k && k + pat.len() <= s.len() ==> !found_at(s, pat, k),
    decreases s.len() + 1 - i,
{
    if !(i < 0 || i + pat.len() > s.len()) && !found_at(s, pat, i) {
        lemma_next_match(s, pat, i + 1);
    }
}

/// The trimmed parts of `s` from `i` on between the occurrences of `pat`,
/// joined: `s.split(pat)` with each part trimmed and put together.
pub open spec fn strip_from(s: Seq<char>, pat: Seq<char>, i: int) -> Seq<char>
    decreases s.len() - i,
{
    if pat.len() == 0 || i < 0 || i > s.len() {
        seq![]
    } else {
        let j = next_match(s, pat, i);
        if j < 0 {
            trimmed(s.subrange(i, s.len() as int))
        } else {
            proof { lemma_next_match(s, pat, i); }
            trimmed(s.subrange(i, j)) + strip_from(s, pat, j + pat.len())
        }
    }
}

/// The storage keywords that a type is stripped of.
pub open spec fn strip_keywords(s: Seq<char>) -> Seq<char> {
    let a = strip_from(s, "memory"@, 0);
    let b = strip_from(a, "storage"@, 0);
    let c = strip_from(b, "calldata"@, 0);
    let d = strip_from(c, "pointer"@, 0);
    strip_from(d, "ref"@, 0)
}

/// The normalized type of node `n`: its `type` attribute without the storage
/// keywords; for a function type, the type it returns (`void` where it returns
/// nothing), read with `capture` from the first capture of `returns_pattern`.
pub open spec fn spec_normalize(type_str: Seq<char>, capture: Option<Seq<char>>) -> Seq<char> {
    if "function"@.is_prefix_of(type_str) {
        match capture {
            Some(c) => c,
            None => "void"@,
        }
    } else {
        strip_keywords(type_str)
    }
}

/// The normalized type of node `n`: see `spec_normalize`, the capture read
/// from the type without its storage keywords.
pub open spec fn spec_kind(n: AstNode) -> Seq<char> {
    let t = attr_str_or_empty(n.attributes@, "type"@);
    if "function"@.is_prefix_of(t) {
        spec_normalize(t, first_capture(returns_pattern(), strip_keywords(t)))
    } else {
        spec_normalize(t, None)
    }
}

/// Adds `v` to the variables `vs` unless one the same in every field is there.
pub fn dvar_insert(vs: &mut Vec<Variable>, v: Variable)
    requires
        dvar_views(old(vs)@).no_duplicates(),
    ensures
        dvar_views(final(vs)@).no_duplicates(),
        dvar_views(final(vs)@).to_set() == dvar_views(old(vs)@).to_set().insert(v@),
{
    let mut i: usize = 0;
    while i < vs.len()
        invariant
            vs@ == old(vs)@,
            dvar_views(vs@).no_duplicates(),
            i <= vs@.len(),
            forall|j: int| 0 <= j < i ==> vs@[j]@ != v@,
        decreases vs@.len() - i,
    {
        if vs[i].same(&v) {
            proof {
                assert(dvar_views(vs@)[i as int] == v@);
                assert(dvar_views(vs@).to_set().insert(v@) =~= dvar_views(vs@).to_set());
            }
            return;
        }
        i = i + 1;
    }
    let ghost before = dvar_views(vs@);
    vs.push(v);
    proof {
        assert(dvar_views(vs@) =~= before.push(v@));
        assert(!before.contains(v@)) by {
            if before.contains(v@) {
                let j = choose|j: int| 0 <= j < before.len() && before[j] == v@;
                assert(vs@[j]@ == v@);
            }
        }
        assert(before.push(v@).to_set() =~= before.to_set().insert(v@)) by {
            assert forall|x| before.push(v@).to_set().contains(x) <==> before.to_set().insert(v@).contains(x) by {
                if before.push(v@).contains(x) {
                    let j = choose|j: int| 0 <= j < before.push(v@).len() && before.push(v@)[j] == x;
                    if j < before.len() {
                        assert(before[j] == x);
                    }
                }
                if before.contains(x) {
                    let j = choose|j: int| 0 <= j < before.len() && before[j] == x;
                    assert(before.push(v@)[j] == x);
                }
                if x == v@ {
                    assert(before.push(v@)[before.len() as int] == x);
                }
            }
        }
    }
}

/// `s[from..to]` with its whitespace trimmed.
pub(crate) fn trim_range(s: &Vec<char>, from: usize, to: usize) -> (r: Vec<char>)
    requires
        from <= to <= s@.len(),
    ensures
        r@ == trimmed(s@.subrange(from as int, to as int)),
{
    let ghost t = s@.subrange(from as int, to as int);
    let mut a: usize = from;
    while a < to && white(s[a])
        invariant
            from <= a <= to <= s@.len(),
            lead(t) == (a - from) + lead(s@.subrange(a as int, to as int)),
        decreases to - a,
    {
        assert(s@.subrange(a as int, to as int).drop_first() =~= s@.subrange(a + 1, to as int));
        a = a + 1;
    }
    assert(lead(s@.subrange(a as int, to as int)) == 0);
    if a == to {
        return Vec::new();
    }
    let mut b: usize = to;
    while b > a && white(s[b - 1])
        invariant
            from <= a < to <= s@.len(),
            a < b <= to,
            trail(t) == (to - b) + trail(s@.subrange(from as int, b as int)),
            !is_white(s@[a as int]),
        decreases b,
    {
        assert(s@.subrange(from as int, b as int).drop_last() =~= s@.subrange(from as int, b - 1));
        b = b - 1;
    }
    assert(trail(s@.subrange(from as int, b as int)) == 0);
    assert(t.subrange(a - from, b - from) =~= s@.subrange(a as int, b as int));
    let mut out: Vec<char> = Vec::new();
    let mut k: usize = a;
    while k < b
        invariant
            a <= k <= b <= s@.len(),
            out@ == s@.subrange(a as int, k as int),
        decreases b - k,
    {
        out.push(s[k]);
        assert(out@ =~= s@.subrange(a as int, k + 1));
        k = k + 1;
    }
    out
}

/// Whether `pat` stands in `s` at `k`.
fn matches_at(s: &Vec<char>, pat: &Vec<char>, k: usize) -> (r: bool)
    requires
        k + pat@.len() <= s@.len(),
    ensures
        r == found_at(s@, pat@, k as int),
{
    let n = s.len();
    let mut m: usize = 0;
    while m < pat.len()
        invariant
            n == s@.len(),
            k + pat@.len() <= s@.len(),
            m <= pat@.len(),
            forall|q: int| 0 <= q < m ==> s@[k + q] == pat@[q],
        decreases pat@.len() - m,
    {
        assert(k + m < s@.len());
        if s[k + m] != pat[m] {
            assert(s@.subrange(k as int, k + pat@.len())[m as int] != pat@[m as int]);
            return false;
        }
        m = m + 1;
    }
    assert(s@.subrange(k as int, k + pat@.len()) =~= pat@);
    true
}

/// The first position from `i` on where `pat` stands in `s`.
fn find_from(s: &Vec<char>, pat: &Vec<char>, i: usize) -> (r: Option<usize>)
    requires
        i <= s@.len(),
        pat@.len() > 0,
    ensures
        match r {
            Some(j) => j == next_match(s@, pat@, i as int),
            None => next_match(s@, pat@, i as int) == -1,
        },
{
    let n = s.len();
    let mut k: usize = i;
    while pat.len() <= n - k
        invariant
            n == s@.len(),
            pat@.len() > 0,
            i <= k <= s@.len(),
            next_match(s@, pat@, i as int) == next_match(s@, pat@, k as int),
        decreases s@.len() - k,
    {
        if matches_at(s, pat, k) {
            return Some(k);
        }
        k = k + 1;
    }
    None
}

/// Appends the characters of `part` to `out`.
fn append_chars(out: &mut Vec<char>, part: &Vec<char>)
    ensures
        final(out)@ == old(out)@ + part@,
{
    let mut k: usize = 0;
    while k < part.len()
        invariant
            k <= part@.len(),
            out@ == old(out)@ + part@.subrange(0, k as int),
        decreases part@.len() - k,
    {
        out.push(part[k]);
        assert(part@.subrange(0, k + 1) =~= part@.subrange(0, k as int).push(part@[k as int]));
        k = k + 1;
    }
    assert(part@.subrange(0, part@.len() as int) =~= part@);
}

/// `s` split at each occurrence of `pat`, each part trimmed, the parts joined.
fn strip(s: &Vec<char>, pat: &Vec<char>) -> (r: Vec<char>)
    requires
        pat@.len() > 0,
    ensures
        r@ == strip_from(s@, pat@, 0),
{
    let n = s.len();
    let mut out: Vec<char> = Vec::new();
    let mut i: usize = 0;
    loop
        invariant
            n == s@.len(),
            pat@.len() > 0,
            i <= s@.len(),
            out@ + strip_from(s@, pat@, i as int) == strip_from(s@, pat@, 0),
        decreases s@.len() - i,
    {
        proof { lemma_next_match(s@, pat@, i as int); }
        match find_from(s, pat, i) {
            Some(j) => {
                assert(found_at(s@, pat@, j as int));
                let part = trim_range(s, i, j);
                append_chars(&mut out, &part);
                proof {
                    assert(out@ + strip_from(s@, pat@, j + pat@.len()) =~= strip_from(s@, pat@, 0));
                }
                i = j + pat.len();
            },
            None => {
                let part = trim_range(s, i, s.len());
                append_chars(&mut out, &part);
                return out;
            },
        }
    }
}

/// The characters of `cs` as a `String`.
fn string_of(cs: &Vec<char>) -> (r: String)
    ensures
        r@ == cs@,
{
    let mut out = String::new();
    let mut k: usize = 0;
    while k < cs.len()
        invariant
            k <= cs@.len(),
            out@ == cs@.subrange(0, k as int),
        decreases cs@.len() - k,
    {
        push_char(&mut out, cs[k]);
        assert(cs@.subrange(0, k + 1) =~= cs@.subrange(0, k as int).push(cs@[k as int]));
        k = k + 1;
    }
    assert(cs@.subrange(0, cs@.len() as int) =~= cs@);
    out
}

/// What the node of `walker` holds as its type, normalized: see `spec_normalize`.
pub fn normalize_kind(walker: &Walker) -> (r: String)
    requires
        walker.wf(),
    ensures
        !"function"@.is_prefix_of(attr_str_or_empty(walker.ast().attributes@, "type"@))
            ==> r@ == spec_normalize(attr_str_or_empty(walker.ast().attributes@, "type"@), None),
        "function"@.is_prefix_of(attr_str_or_empty(walker.ast().attributes@, "type"@))
            ==> r@ == spec_normalize(attr_str_or_empty(walker.ast().attributes@, "type"@),
                first_capture(returns_pattern(), strip_keywords(attr_str_or_empty(walker.ast().attributes@, "type"@)))),
        r@ == spec_kind(walker.ast()),
{
    proof { Walker::lemma_wf_fields(*walker); }
    let type_str = attr_str_or_default(walker.node.attributes, "type");
    let chars = chars_of(type_str.as_str());
    proof {
        reveal_strlit("memory");
        reveal_strlit("storage");
        reveal_strlit("calldata");
        reveal_strlit("pointer");
        reveal_strlit("ref");
    }
    let a = strip(&chars, &chars_of("memory"));
    let b = strip(&a, &chars_of("storage"));
    let c = strip(&b, &chars_of("calldata"));
    let d = strip(&c, &chars_of("pointer"));
    let e = strip(&d, &chars_of("ref"));
    let norm = string_of(&e);
    if starts_with_function(&chars) {
        returned_kind(capture("returns\\s*\\((.+)\\)$", norm.as_str()))
    } else {
        norm
    }
}

/// Whether `cs` starts with `function`.
fn starts_with_function(cs: &Vec<char>) -> (r: bool)
    ensures
        r == "function"@.is_prefix_of(cs@),
{
    let f = chars_of("function");
    proof { reveal_strlit("function"); }
    if f.len() > cs.len() {
        return false;
    }
    let r = matches_at(cs, &f, 0);
    assert(cs@.subrange(0, f@.len() as int) == f@ <==> f@.is_prefix_of(cs@));
    r
}

/// The type a function type returns, from the first capture of
/// `returns_pattern` in it: that capture, or `void` where nothing matched.
pub fn returned_kind(capture: Option<String>) -> (r: String)
    ensures
        r@ == (match capture {
            Some(c) => c@,
            None => "void"@,
        }),
{
    match capture {
        Some(c) => c,
        None => owned("void"),
    }
}

} // verus!
