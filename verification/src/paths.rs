//! Paths as plain text.
//!
//! A path is split into components at `/` and `\` (both separate components
//! on Windows, the platform the cleaner targets). Trailing separators are
//! ignored, the last component is the file name unless it is empty, `.` or
//! `..`, and the extension is what follows the last dot of the file name
//! when that dot is not its first character.

use vstd::prelude::*;
use crate::text::{lower, lower_chars, to_chars, copy_str, concat, concat3};

verus! {

pub open spec fn is_sep(c: char) -> bool {
    c == '/' || c == '\\'
}

/// Length of `s` once trailing separators are dropped.
pub open spec fn trimmed_len(s: Seq<char>) -> int
    decreases s.len(),
{
    if s.len() > 0 && is_sep(s.last()) {
        trimmed_len(s.drop_last())
    } else {
        s.len() as int
    }
}

/// Start of the last component of `s[..e]`: just after the last separator
/// before `e`, or 0.
pub open spec fn name_start(s: Seq<char>, e: int) -> int
    decreases e,
{
    if e <= 0 {
        0
    } else if is_sep(s[e - 1]) {
        e
    } else {
        name_start(s, e - 1)
    }
}

/// The last component, trailing separators ignored.
pub open spec fn last_component(s: Seq<char>) -> Seq<char> {
    let t = trimmed_len(s);
    s.subrange(name_start(s, t), t)
}

pub open spec fn is_dot_or_dotdot(c: Seq<char>) -> bool {
    c == seq!['.'] || c == seq!['.', '.']
}

/// `Path::file_name` in this model.
pub open spec fn file_name(s: Seq<char>) -> Option<Seq<char>> {
    let c = last_component(s);
    if c.len() == 0 || is_dot_or_dotdot(c) {
        None
    } else {
        Some(c)
    }
}

/// The text before the last component, with the separators that end it
/// dropped (a lone root separator, or the one after a drive such as `C:`,
/// is kept). `None` when the path has no last component.
pub open spec fn parent(s: Seq<char>) -> Option<Seq<char>> {
    let t = trimmed_len(s);
    let k = name_start(s, t);
    if k == t {
        None
    } else if k == 0 {
        Some(Seq::<char>::empty())
    } else {
        let q = trimmed_len(s.subrange(0, k));
        if q == 0 {
            Some(s.subrange(0, 1))
        } else if s[q - 1] == ':' {
            Some(s.subrange(0, q + 1))
        } else {
            Some(s.subrange(0, q))
        }
    }
}

/// Index of the last `.` in `n[..e]`, or -1.
pub open spec fn last_dot(n: Seq<char>, e: int) -> int
    decreases e,
{
    if e <= 0 {
        -1
    } else if n[e - 1] == '.' {
        e - 1
    } else {
        last_dot(n, e - 1)
    }
}

/// Extension of a file name: the text after its last dot, unless that dot
/// is the first character or there is none.
pub open spec fn name_extension(n: Seq<char>) -> Option<Seq<char>> {
    let d = last_dot(n, n.len() as int);
    if d <= 0 {
        None
    } else {
        Some(n.subrange(d + 1, n.len() as int))
    }
}

/// Stem of a file name: the text before the dot that starts its extension,
/// or the whole name.
pub open spec fn name_stem(n: Seq<char>) -> Seq<char> {
    let d = last_dot(n, n.len() as int);
    if d <= 0 {
        n
    } else {
        n.subrange(0, d)
    }
}

/// `Path::extension` in this model.
pub open spec fn extension(s: Seq<char>) -> Option<Seq<char>> {
    match file_name(s) {
        Some(n) => name_extension(n),
        None => None,
    }
}

/// `Path::file_stem` in this model.
pub open spec fn file_stem(s: Seq<char>) -> Option<Seq<char>> {
    match file_name(s) {
        Some(n) => Some(name_stem(n)),
        None => None,
    }
}

/// Lower-cased extension, or the empty text when there is none
/// (`extension().map(to_ascii_lowercase).unwrap_or_default()`).
pub open spec fn lower_ext_or_empty(s: Seq<char>) -> Seq<char> {
    match extension(s) {
        Some(e) => lower(e),
        None => Seq::<char>::empty(),
    }
}

/// The separator a join puts after `base`: `\\` where the base is written
/// with backslashes (a Windows path, as `PathBuf::join` writes there), else
/// `/`.
pub open spec fn join_sep(base: Seq<char>) -> char {
    if base.contains('\\') {
        '\\'
    } else {
        '/'
    }
}

/// `base` joined with a relative `child`: the base's separator is put
/// between them unless `base` is empty or already ends with a separator.
pub open spec fn join(base: Seq<char>, child: Seq<char>) -> Seq<char> {
    if base.len() == 0 {
        child
    } else if is_sep(base.last()) {
        base + child
    } else {
        base + seq![join_sep(base)] + child
    }
}

// ---------------------------------------------------------------------------

fn is_sep_exec(c: char) -> (r: bool)
    ensures
        r == is_sep(c),
{
    c == '/' || c == '\\'
}

fn trimmed_len_exec(s: &Vec<char>, e: usize) -> (t: usize)
    requires
        e <= s.len(),
    ensures
        t == trimmed_len(s@.subrange(0, e as int)),
        t <= e,
{
    let mut t: usize = e;
    while t > 0 && is_sep_exec(s[t - 1])
        invariant
            t <= e <= s.len(),
            trimmed_len(s@.subrange(0, e as int)) == trimmed_len(s@.subrange(0, t as int)),
        decreases t,
    {
        assert(s@.subrange(0, t as int).drop_last() =~= s@.subrange(0, t - 1));
        t = t - 1;
    }
    t
}

proof fn lemma_name_start_prefix(s: Seq<char>, e: int, f: int)
    requires
        0 <= e <= f <= s.len(),
    ensures
        name_start(s, e) == name_start(s.subrange(0, f), e),
    decreases e,
{
    if e > 0 {
        lemma_name_start_prefix(s, e - 1, f);
    }
}

proof fn lemma_name_start_bounds(s: Seq<char>, e: int)
    requires
        0 <= e <= s.len(),
    ensures
        0 <= name_start(s, e) <= e,
        name_start(s, e) > 0 ==> is_sep(s[name_start(s, e) - 1]),
        forall|k: int| name_start(s, e) <= k < e ==> !is_sep(s[k]),
    decreases e,
{
    if e > 0 && !is_sep(s[e - 1]) {
        lemma_name_start_bounds(s, e - 1);
    }
}

fn name_start_exec(s: &Vec<char>, e: usize) -> (k: usize)
    requires
        e <= s.len(),
    ensures
        k == name_start(s@, e as int),
        k <= e,
{
    let mut k: usize = e;
    while k > 0 && !is_sep_exec(s[k - 1])
        invariant
            k <= e <= s.len(),
            name_start(s@, e as int) == name_start(s@, k as int),
        decreases k,
    {
        k = k - 1;
    }
    k
}

proof fn lemma_trimmed_len_bounds(s: Seq<char>)
    ensures
        0 <= trimmed_len(s) <= s.len(),
    decreases s.len(),
{
    if s.len() > 0 && is_sep(s.last()) {
        lemma_trimmed_len_bounds(s.drop_last());
    }
}

fn subrange_vec(s: &Vec<char>, a: usize, b: usize) -> (r: Vec<char>)
    requires
        a <= b <= s.len(),
    ensures
        r@ == s@.subrange(a as int, b as int),
{
    let mut r: Vec<char> = Vec::new();
    let mut i: usize = a;
    while i < b
        invariant
            a <= i <= b <= s.len(),
            r@ == s@.subrange(a as int, i as int),
        decreases b - i,
    {
        r.push(s[i]);
        i = i + 1;
        assert(r@ == s@.subrange(a as int, i as int));
    }
    r
}

/// The bounds `(start, end)` of the last component.
fn last_component_bounds(s: &Vec<char>) -> (r: (usize, usize))
    ensures
        r.0 <= r.1 <= s.len(),
        r.1 == trimmed_len(s@),
        r.0 == name_start(s@, r.1 as int),
        s@.subrange(r.0 as int, r.1 as int) == last_component(s@),
{
    let t = trimmed_len_exec(s, s.len());
    assert(s@.subrange(0, s.len() as int) =~= s@);
    let k = name_start_exec(s, t);
    (k, t)
}

fn is_dot_or_dotdot_exec(c: &Vec<char>) -> (r: bool)
    ensures
        r == is_dot_or_dotdot(c@),
{
    if c.len() == 1 && c[0] == '.' {
        assert(c@ =~= seq!['.']);
        true
    } else if c.len() == 2 && c[0] == '.' && c[1] == '.' {
        assert(c@ =~= seq!['.', '.']);
        true
    } else {
        proof {
            if c@ == seq!['.'] {
                assert(c@[0] == '.');
            }
            if c@ == seq!['.', '.'] {
                assert(c@[0] == '.' && c@[1] == '.');
            }
        }
        false
    }
}

/// The file name of a path, if it has one.
pub fn file_name_exec(s: &Vec<char>) -> (r: Option<Vec<char>>)
    ensures
        r matches Some(v) ==> file_name(s@) == Some(v@),
        r is None ==> file_name(s@) is None,
{
    let (k, t) = last_component_bounds(s);
    let c = subrange_vec(s, k, t);
    if c.len() == 0 || is_dot_or_dotdot_exec(&c) {
        None
    } else {
        Some(c)
    }
}

/// The parent of a path, if it has one.
pub fn parent_exec(s: &Vec<char>) -> (r: Option<Vec<char>>)
    ensures
        r matches Some(v) ==> parent(s@) == Some(v@),
        r is None ==> parent(s@) is None,
{
    let (k, t) = last_component_bounds(s);
    if k == t {
        return None;
    }
    if k == 0 {
        let e: Vec<char> = Vec::new();
        assert(e@ =~= Seq::<char>::empty());
        return Some(e);
    }
    let q = trimmed_len_exec(s, k);
    if q == 0 {
        Some(subrange_vec(s, 0, 1))
    } else if s[q - 1] == ':' {
        Some(subrange_vec(s, 0, q + 1))
    } else {
        Some(subrange_vec(s, 0, q))
    }
}

fn last_dot_exec(n: &Vec<char>) -> (d: Option<usize>)
    ensures
        d matches Some(i) ==> (last_dot(n@, n@.len() as int) == i && i < n@.len()),
        d is None ==> last_dot(n@, n@.len() as int) == -1,
{
    let mut e: usize = n.len();
    while e > 0
        invariant
            e <= n.len(),
            last_dot(n@, n@.len() as int) == last_dot(n@, e as int),
        decreases e,
    {
        if n[e - 1] == '.' {
            return Some(e - 1);
        }
        e = e - 1;
    }
    None
}

/// Extension of a file name.
pub fn name_extension_exec(n: &Vec<char>) -> (r: Option<Vec<char>>)
    ensures
        r matches Some(v) ==> name_extension(n@) == Some(v@),
        r is None ==> name_extension(n@) is None,
{
    match last_dot_exec(n) {
        Some(d) => {
            if d == 0 {
                None
            } else {
                assert(d < n.len());
                Some(subrange_vec(n, d + 1, n.len()))
            }
        },
        None => None,
    }
}

/// Stem of a file name.
pub fn name_stem_exec(n: &Vec<char>) -> (r: Vec<char>)
    ensures
        r@ == name_stem(n@),
{
    match last_dot_exec(n) {
        Some(d) => {
            if d == 0 {
                subrange_vec(n, 0, n.len())
            } else {
                subrange_vec(n, 0, d)
            }
        },
        None => subrange_vec(n, 0, n.len()),
    }
}

/// The extension of a path, if it has one.
pub fn extension_exec(s: &Vec<char>) -> (r: Option<Vec<char>>)
    ensures
        r matches Some(v) ==> extension(s@) == Some(v@),
        r is None ==> extension(s@) is None,
{
    match file_name_exec(s) {
        Some(n) => name_extension_exec(&n),
        None => None,
    }
}

/// The stem of a path, if it has a file name.
pub fn file_stem_exec(s: &Vec<char>) -> (r: Option<Vec<char>>)
    ensures
        r matches Some(v) ==> file_stem(s@) == Some(v@),
        r is None ==> file_stem(s@) is None,
{
    match file_name_exec(s) {
        Some(n) => Some(name_stem_exec(&n)),
        None => None,
    }
}

/// Lower-cased extension of a path, or the empty text.
pub fn lower_ext_or_empty_exec(s: &Vec<char>) -> (r: Vec<char>)
    ensures
        r@ == lower_ext_or_empty(s@),
{
    match extension_exec(s) {
        Some(e) => lower_chars(&e),
        None => {
            let v: Vec<char> = Vec::new();
            assert(v@ =~= Seq::<char>::empty());
            v
        },
    }
}

/// Joins a relative child onto a base path.
pub fn join_exec(base: &str, child: &str) -> (r: String)
    ensures
        r@ == join(base@, child@),
{
    let b = to_chars(base);
    if b.len() == 0 {
        copy_str(child)
    } else if is_sep_exec(b[b.len() - 1]) {
        concat(base, child)
    } else if has_backslash(&b) {
        let r = concat3(base, "\\", child);
        proof {
            reveal_strlit("\\");
        }
        r
    } else {
        let r = concat3(base, "/", child);
        proof {
            reveal_strlit("/");
        }
        r
    }
}

fn has_backslash(v: &Vec<char>) -> (r: bool)
    ensures
        r == v@.contains('\\'),
{
    let mut i: usize = 0;
    while i < v.len()
        invariant
            i <= v@.len(),
            forall|j: int| 0 <= j < i ==> v@[j] != '\\',
        decreases v.len() - i,
    {
        if v[i] == '\\' {
            return true;
        }
        i = i + 1;
    }
    false
}

} // verus!
