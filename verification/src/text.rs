//! Character-level text helpers shared by the scanner, the integrity checks
//! and the status messages: ASCII case folding, substring search, trimming,
//! non-overlapping match counting and decimal rendering of counters.

use vstd::prelude::*;

verus! {

// ---------------------------------------------------------------------------
// Specifications
// ---------------------------------------------------------------------------

/// ASCII lower-casing of one character (other characters are unchanged).
pub open spec fn lower_char(c: char) -> char {
    if 'A' <= c && c <= 'Z' {
        ((c as u32) + 32) as char
    } else {
        c
    }
}

/// ASCII lower-casing of a whole text.
pub open spec fn lower(s: Seq<char>) -> Seq<char> {
    Seq::new(s.len(), |i: int| lower_char(s[i]))
}

/// `needle` occurs in `hay` starting at position `i`.
pub open spec fn occurs_at(hay: Seq<char>, needle: Seq<char>, i: int) -> bool {
    0 <= i && i + needle.len() <= hay.len() && hay.subrange(i, i + needle.len()) == needle
}

/// `needle` occurs somewhere in `hay` (the empty text occurs everywhere).
pub open spec fn contains(hay: Seq<char>, needle: Seq<char>) -> bool {
    exists|i: int| occurs_at(hay, needle, i)
}

pub open spec fn ends_with(s: Seq<char>, suffix: Seq<char>) -> bool {
    suffix.len() <= s.len() && s.subrange(s.len() - suffix.len(), s.len() as int) == suffix
}

/// The characters that `char::is_whitespace` accepts (Unicode `White_Space`).
pub open spec fn is_whitespace(c: char) -> bool {
    ||| c == '\t'
    ||| c == '\n'
    ||| c == '\u{0B}'
    ||| c == '\u{0C}'
    ||| c == '\r'
    ||| c == ' '
    ||| c == '\u{85}'
    ||| c == '\u{A0}'
    ||| c == '\u{1680}'
    ||| ('\u{2000}' <= c && c <= '\u{200A}')
    ||| c == '\u{2028}'
    ||| c == '\u{2029}'
    ||| c == '\u{202F}'
    ||| c == '\u{205F}'
    ||| c == '\u{3000}'
}

/// Drops leading whitespace.
pub open spec fn trim_start(s: Seq<char>) -> Seq<char>
    decreases s.len(),
{
    if s.len() > 0 && is_whitespace(s[0]) {
        trim_start(s.drop_first())
    } else {
        s
    }
}

/// Drops trailing whitespace.
pub open spec fn trim_end(s: Seq<char>) -> Seq<char>
    decreases s.len(),
{
    if s.len() > 0 && is_whitespace(s.last()) {
        trim_end(s.drop_last())
    } else {
        s
    }
}

/// Drops whitespace at both ends, as `str::trim` does.
pub open spec fn trim(s: Seq<char>) -> Seq<char> {
    trim_end(trim_start(s))
}

/// Number of non-overlapping, leftmost-first occurrences of a non-empty
/// pattern in `hay[i..]`, as `str::matches(..).count()` finds them.
pub open spec fn count_matches_from(hay: Seq<char>, pat: Seq<char>, i: int) -> nat
    decreases hay.len() - i,
{
    if pat.len() == 0 || i < 0 || i + pat.len() > hay.len() {
        0
    } else if occurs_at(hay, pat, i) {
        1 + count_matches_from(hay, pat, i + pat.len())
    } else {
        count_matches_from(hay, pat, i + 1)
    }
}

pub open spec fn count_matches(hay: Seq<char>, pat: Seq<char>) -> nat {
    count_matches_from(hay, pat, 0)
}

/// The ASCII digit for a value below ten.
pub open spec fn digit_char(d: nat) -> char {
    ((d + 48) as u32) as char
}

/// Decimal rendering of a natural number, without sign or leading zeros.
pub open spec fn decimal(n: nat) -> Seq<char>
    decreases n,
{
    if n < 10 {
        seq![digit_char(n)]
    } else {
        decimal(n / 10).push(digit_char(n % 10))
    }
}

// ---------------------------------------------------------------------------
// Conversions between `str`/`String` and character vectors
// ---------------------------------------------------------------------------

/// The characters of a text, in order.
pub fn to_chars(s: &str) -> (v: Vec<char>)
    ensures
        v@ == s@,
{
    let mut v: Vec<char> = Vec::new();
    for c in it: s.chars()
        invariant
            v@ == it.seq().take(it.index() as int),
    {
        v.push(c);
    }
    v
}

/// `String::push`: the text gains the character at its end.
#[verifier::external_body]
fn push_char(s: &mut String, c: char)
    ensures
        final(s)@ == old(s)@.push(c),
{
    s.push(c);
}

/// Builds a `String` holding exactly the given characters.
pub fn from_chars(v: &Vec<char>) -> (s: String)
    ensures
        s@ == v@,
{
    let mut s = String::new();
    let mut i: usize = 0;
    while i < v.len()
        invariant
            i <= v.len(),
            s@ == v@.subrange(0, i as int),
        decreases v.len() - i,
    {
        push_char(&mut s, v[i]);
        i = i + 1;
        assert(s@ == v@.subrange(0, i as int));
    }
    s
}

/// Concatenation of two texts.
pub fn concat(a: &str, b: &str) -> (s: String)
    ensures
        s@ == a@ + b@,
{
    let mut v = to_chars(a);
    let w = to_chars(b);
    let mut i: usize = 0;
    while i < w.len()
        invariant
            i <= w.len(),
            w@ == b@,
            v@ == a@ + b@.subrange(0, i as int),
        decreases w.len() - i,
    {
        v.push(w[i]);
        i = i + 1;
        assert(v@ == a@ + b@.subrange(0, i as int));
    }
    assert(b@.subrange(0, b@.len() as int) == b@);
    from_chars(&v)
}

/// Concatenation of three texts.
pub fn concat3(a: &str, b: &str, c: &str) -> (s: String)
    ensures
        s@ == a@ + b@ + c@,
{
    let ab = concat(a, b);
    concat(ab.as_str(), c)
}

/// A copy of a text.
pub fn copy_str(s: &str) -> (r: String)
    ensures
        r@ == s@,
{
    let v = to_chars(s);
    from_chars(&v)
}

// ---------------------------------------------------------------------------
// Case folding and comparisons
// ---------------------------------------------------------------------------

pub fn lower_char_exec(c: char) -> (r: char)
    ensures
        r == lower_char(c),
{
    if 'A' <= c && c <= 'Z' {
        ((c as u8) + 32) as char
    } else {
        c
    }
}

/// ASCII lower-casing of a character vector.
pub fn lower_chars(v: &Vec<char>) -> (r: Vec<char>)
    ensures
        r@ == lower(v@),
{
    let mut r: Vec<char> = Vec::new();
    let mut i: usize = 0;
    while i < v.len()
        invariant
            i <= v.len(),
            r@.len() == i,
            forall|k: int| 0 <= k < i ==> r@[k] == lower_char(v@[k]),
        decreases v.len() - i,
    {
        r.push(lower_char_exec(v[i]));
        i = i + 1;
    }
    assert(r@ == lower(v@));
    r
}

/// Character-wise equality.
pub fn chars_eq(a: &Vec<char>, b: &Vec<char>) -> (r: bool)
    ensures
        r == (a@ == b@),
{
    if a.len() != b.len() {
        return false;
    }
    let mut i: usize = 0;
    while i < a.len()
        invariant
            i <= a.len(),
            a.len() == b.len(),
            forall|k: int| 0 <= k < i ==> a@[k] == b@[k],
        decreases a.len() - i,
    {
        if a[i] != b[i] {
            return false;
        }
        i = i + 1;
    }
    assert(a@ =~= b@);
    true
}

/// Does `needle` occur in `hay` at position `i`?
pub fn occurs_at_exec(hay: &Vec<char>, needle: &Vec<char>, i: usize) -> (r: bool)
    ensures
        r == occurs_at(hay@, needle@, i as int),
{
    if i > hay.len() || needle.len() > hay.len() - i {
        return false;
    }
    let mut k: usize = 0;
    while k < needle.len()
        invariant
            k <= needle.len(),
            i + needle.len() <= hay.len(),
            forall|j: int| 0 <= j < k ==> hay@[i + j] == needle@[j],
        decreases needle.len() - k,
    {
        if hay[i + k] != needle[k] {
            assert(hay@.subrange(i as int, i + needle.len())[k as int] != needle@[k as int]);
            return false;
        }
        k = k + 1;
    }
    assert(hay@.subrange(i as int, i + needle.len()) =~= needle@);
    true
}

/// Substring test on character vectors.
pub fn contains_chars(hay: &Vec<char>, needle: &Vec<char>) -> (r: bool)
    ensures
        r == contains(hay@, needle@),
{
    if needle.len() > hay.len() {
        assert forall|i: int| !occurs_at(hay@, needle@, i) by {}
        return false;
    }
    if needle.len() == 0 {
        assert(hay@.subrange(0, 0) =~= needle@);
        assert(occurs_at(hay@, needle@, 0));
        return true;
    }
    let last = hay.len() - needle.len();
    let mut i: usize = 0;
    while i <= last
        invariant
            last == hay.len() - needle.len(),
            last < hay.len(),
            i <= last + 1,
            forall|j: int| 0 <= j < i ==> !occurs_at(hay@, needle@, j),
        decreases last + 1 - i,
    {
        if occurs_at_exec(hay, needle, i) {
            return true;
        }
        i = i + 1;
    }
    assert forall|j: int| !occurs_at(hay@, needle@, j) by {
        if 0 <= j && j < i {
        }
    }
    false
}

/// Suffix test on character vectors.
pub fn ends_with_chars(s: &Vec<char>, suffix: &Vec<char>) -> (r: bool)
    ensures
        r == ends_with(s@, suffix@),
{
    if suffix.len() > s.len() {
        return false;
    }
    let start = s.len() - suffix.len();
    let r = occurs_at_exec(s, suffix, start);
    r
}

// ---------------------------------------------------------------------------
// Trimming
// ---------------------------------------------------------------------------

pub fn is_whitespace_exec(c: char) -> (r: bool)
    ensures
        r == is_whitespace(c),
{
    c == '\t' || c == '\n' || c == '\u{0B}' || c == '\u{0C}' || c == '\r' || c == ' '
        || c == '\u{85}' || c == '\u{A0}' || c == '\u{1680}' || ('\u{2000}' <= c && c
        <= '\u{200A}') || c == '\u{2028}' || c == '\u{2029}' || c == '\u{202F}' || c
        == '\u{205F}' || c == '\u{3000}'
}

proof fn lemma_trim_start_skip(s: Seq<char>, i: int)
    requires
        0 <= i <= s.len(),
        forall|k: int| 0 <= k < i ==> is_whitespace(s[k]),
    ensures
        trim_start(s) == trim_start(s.subrange(i, s.len() as int)),
    decreases i,
{
    if i > 0 {
        assert(s.drop_first().subrange(i - 1, s.drop_first().len() as int) =~= s.subrange(
            i,
            s.len() as int,
        ));
        lemma_trim_start_skip(s.drop_first(), i - 1);
    } else {
        assert(s.subrange(0, s.len() as int) =~= s);
    }
}

proof fn lemma_trim_end_cut(s: Seq<char>, j: int)
    requires
        0 <= j <= s.len(),
        forall|k: int| j <= k < s.len() ==> is_whitespace(s[k]),
    ensures
        trim_end(s) == trim_end(s.subrange(0, j)),
    decreases s.len() - j,
{
    if j < s.len() {
        assert(s.drop_last().subrange(0, j) =~= s.subrange(0, j));
        lemma_trim_end_cut(s.drop_last(), j);
    } else {
        assert(s.subrange(0, j) =~= s);
    }
}

/// Whitespace trimmed from both ends of a character vector.
pub fn trim_chars(v: &Vec<char>) -> (r: Vec<char>)
    ensures
        r@ == trim(v@),
{
    let mut i: usize = 0;
    while i < v.len() && is_whitespace_exec(v[i])
        invariant
            i <= v.len(),
            forall|k: int| 0 <= k < i ==> is_whitespace(v@[k]),
        decreases v.len() - i,
    {
        i = i + 1;
    }
    proof {
        lemma_trim_start_skip(v@, i as int);
        let t = v@.subrange(i as int, v@.len() as int);
        if t.len() > 0 {
            assert(!is_whitespace(t[0]));
        }
    }
    let mut j: usize = v.len();
    while j > i && is_whitespace_exec(v[j - 1])
        invariant
            i <= j <= v.len(),
            forall|k: int| j <= k < v.len() ==> is_whitespace(v@[k]),
        decreases j,
    {
        j = j - 1;
    }
    let mut r: Vec<char> = Vec::new();
    let mut k: usize = i;
    while k < j
        invariant
            i <= k <= j,
            j <= v.len(),
            r@ == v@.subrange(i as int, k as int),
        decreases j - k,
    {
        r.push(v[k]);
        k = k + 1;
        assert(r@ == v@.subrange(i as int, k as int));
    }
    proof {
        let t = v@.subrange(i as int, v@.len() as int);
        assert(trim_start(v@) == t);
        lemma_trim_end_cut(t, j - i);
        assert(t.subrange(0, j - i) =~= v@.subrange(i as int, j as int));
        let u = v@.subrange(i as int, j as int);
        if u.len() > 0 {
            assert(!is_whitespace(u.last()));
        }
    }
    r
}

// ---------------------------------------------------------------------------
// Counting and numbers
// ---------------------------------------------------------------------------

/// Non-overlapping occurrences of a non-empty pattern.
pub fn count_matches_exec(hay: &Vec<char>, pat: &Vec<char>) -> (n: usize)
    requires
        pat@.len() > 0,
    ensures
        n == count_matches(hay@, pat@),
{
    let mut i: usize = 0;
    let mut n: usize = 0;
    while i < hay.len() && pat.len() <= hay.len() - i
        invariant
            pat@.len() > 0,
            i <= hay.len(),
            n <= i,
            n + count_matches_from(hay@, pat@, i as int) == count_matches(hay@, pat@),
        decreases hay.len() + pat.len() - i,
    {
        if occurs_at_exec(hay, pat, i) {
            n = n + 1;
            i = i + pat.len();
        } else {
            i = i + 1;
        }
    }
    assert(count_matches_from(hay@, pat@, i as int) == 0);
    n
}

pub fn digit_char_exec(d: u64) -> (c: char)
    requires
        d < 10,
    ensures
        c == digit_char(d as nat),
{
    ((d as u8) + 48) as char
}

proof fn lemma_decimal_len(n: nat)
    ensures
        decimal(n).len() >= 1,
    decreases n,
{
    if n >= 10 {
        lemma_decimal_len(n / 10);
    }
}

/// A decimal rendering holds ASCII digits only.
pub proof fn lemma_decimal_digits(n: nat)
    ensures
        decimal(n).len() >= 1,
        forall|j: int| 0 <= j < decimal(n).len() ==> 48 <= (#[trigger] decimal(n)[j]) as u32 <= 57,
    decreases n,
{
    if n < 10 {
        assert((digit_char(n) as u32) == n + 48);
    } else {
        lemma_decimal_digits(n / 10);
        let d = decimal(n);
        let p = decimal(n / 10);
        assert((digit_char(n % 10) as u32) == n % 10 + 48);
        assert forall|j: int| 0 <= j < d.len() implies 48 <= (#[trigger] d[j]) as u32 <= 57 by {
            if j < p.len() {
                assert(d[j] == p[j]);
            }
        }
    }
}

/// Different numbers have different decimal renderings.
pub proof fn lemma_decimal_injective(a: nat, b: nat)
    requires
        decimal(a) == decimal(b),
    ensures
        a == b,
    decreases a,
{
    if a < 10 && b < 10 {
        assert(decimal(a)[0] == digit_char(a));
        assert(decimal(b)[0] == digit_char(b));
        assert((digit_char(a) as u32) == a + 48);
        assert((digit_char(b) as u32) == b + 48);
    } else if a < 10 {
        lemma_decimal_len(b / 10);
        assert(decimal(b).len() >= 2);
    } else if b < 10 {
        lemma_decimal_len(a / 10);
        assert(decimal(a).len() >= 2);
    } else {
        let da = decimal(a);
        let db = decimal(b);
        assert(da.last() == digit_char(a % 10));
        assert(db.last() == digit_char(b % 10));
        assert((digit_char(a % 10) as u32) == a % 10 + 48);
        assert((digit_char(b % 10) as u32) == b % 10 + 48);
        assert(da.drop_last() == decimal(a / 10));
        assert(db.drop_last() == decimal(b / 10));
        lemma_decimal_injective(a / 10, b / 10);
    }
}

/// Decimal rendering of an unsigned number, as `{}` formats it.
pub fn decimal_string(n: u64) -> (s: String)
    ensures
        s@ == decimal(n as nat),
{
    let mut digits: Vec<char> = Vec::new();
    let mut m: u64 = n;
    // digits are collected least significant first
    while m >= 10
        invariant
            decimal(n as nat) == decimal(m as nat) + digits@.reverse(),
        decreases m,
    {
        let d = digit_char_exec(m % 10);
        proof {
            assert(decimal(m as nat) == decimal((m / 10) as nat).push(digit_char((m % 10) as nat)));
            assert(digits@.push(d).reverse() =~= seq![d] + digits@.reverse());
        }
        digits.push(d);
        m = m / 10;
    }
    let d0 = digit_char_exec(m);
    digits.push(d0);
    proof {
        assert(decimal(m as nat) == seq![d0]);
        assert(digits@.reverse() =~= seq![d0] + digits@.drop_last().reverse());
    }
    let mut out: Vec<char> = Vec::new();
    let mut k: usize = digits.len();
    while k > 0
        invariant
            k <= digits.len(),
            out@ == digits@.reverse().subrange(0, digits.len() - k),
        decreases k,
    {
        k = k - 1;
        out.push(digits[k]);
        assert(out@ =~= digits@.reverse().subrange(0, digits.len() - k));
    }
    assert(out@ =~= digits@.reverse());
    from_chars(&out)
}

/// Decimal rendering of a `usize`.
pub fn usize_string(n: usize) -> (s: String)
    ensures
        s@ == decimal(n as nat),
{
    decimal_string(n as u64)
}

} // verus!
