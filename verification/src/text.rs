//! Character-sequence utilities: substring search, trimming, line scanning,
//! and conversions between `&str` / `String` and `Vec<char>`.
//!
//! Every executable function here works on `Vec<char>` so that indexing is
//! cheap and the specification can speak plainly about `Seq<char>`.

use vstd::prelude::*;
use vstd::string::StrSliceExecFns;

verus! {

/// Whitespace as this library trims it: the ASCII blank and the ASCII
/// control characters that end lines or pad text.
pub open spec fn is_ws(c: char) -> bool {
    c == ' ' || c == '\t' || c == '\n' || c == '\r' || c == '\x0b' || c == '\x0c'
}

/// Executable test for [`is_ws`].
pub fn char_is_ws(c: char) -> (b: bool)
    ensures
        b == is_ws(c),
{
    c == ' ' || c == '\t' || c == '\n' || c == '\r' || c == '\x0b' || c == '\x0c'
}

/// `pat` occurs in `text` starting at index `i`.
pub open spec fn occurs_at(text: Seq<char>, pat: Seq<char>, i: int) -> bool {
    0 <= i && i + pat.len() <= text.len() && text.subrange(i, i + pat.len()) == pat
}

/// `pat` occurs somewhere in `text`.
pub open spec fn contains_seq(text: Seq<char>, pat: Seq<char>) -> bool {
    exists|i: int| occurs_at(text, pat, i)
}

/// Index of the first occurrence of `pat` in `text` at or after `from`,
/// if there is one.
pub open spec fn find_from(text: Seq<char>, pat: Seq<char>, from: nat) -> Option<int>
    decreases text.len() - from,
{
    if from + pat.len() > text.len() {
        None
    } else if pat.len() == 0 {
        Some(from as int)
    } else if text.subrange(from as int, (from + pat.len()) as int) == pat {
        Some(from as int)
    } else {
        find_from(text, pat, (from + 1) as nat)
    }
}

/// Index of the first occurrence of `pat` in `text`, if there is one.
pub open spec fn find_spec(text: Seq<char>, pat: Seq<char>) -> Option<int> {
    find_from(text, pat, 0)
}

/// What [`find_from`] returns is the first occurrence at or after `from`,
/// and `None` means there is none.
pub proof fn lemma_find_from(text: Seq<char>, pat: Seq<char>, from: nat)
    ensures
        match find_from(text, pat, from) {
            Some(i) => from <= i && occurs_at(text, pat, i) && forall|j: int|
                from <= j < i ==> !occurs_at(text, pat, j),
            None => forall|j: int| from <= j ==> !occurs_at(text, pat, j),
        },
    decreases text.len() - from,
{
    if from + pat.len() > text.len() {
        assert forall|j: int| from <= j implies !occurs_at(text, pat, j) by {}
    } else if pat.len() == 0 {
        assert(text.subrange(from as int, from as int) =~= pat);
        assert(occurs_at(text, pat, from as int));
    } else if text.subrange(from as int, (from + pat.len()) as int) == pat {
    } else {
        lemma_find_from(text, pat, (from + 1) as nat);
        assert(!occurs_at(text, pat, from as int));
    }
}

/// The first occurrence characterizes [`find_spec`]: if `pat` occurs at `i`
/// and nowhere earlier, the search returns `i`.
pub proof fn lemma_find_spec_is(text: Seq<char>, pat: Seq<char>, i: int)
    requires
        occurs_at(text, pat, i),
        forall|j: int| 0 <= j < i ==> !occurs_at(text, pat, j),
    ensures
        find_spec(text, pat) == Some(i),
{
    lemma_find_from(text, pat, 0);
    match find_from(text, pat, 0) {
        Some(k) => {
            assert(!(k < i));
            assert(!(i < k));
        },
        None => {
            assert(!occurs_at(text, pat, i));
        },
    }
}

/// The search succeeds exactly when `pat` occurs somewhere.
pub proof fn lemma_find_spec_contains(text: Seq<char>, pat: Seq<char>)
    ensures
        find_spec(text, pat) is Some <==> contains_seq(text, pat),
        find_spec(text, pat) is Some ==> occurs_at(text, pat, find_spec(text, pat)->0),
{
    lemma_find_from(text, pat, 0);
    match find_from(text, pat, 0) {
        Some(k) => {
            assert(contains_seq(text, pat));
        },
        None => {
            assert forall|i: int| !occurs_at(text, pat, i) by {
                if i >= 0 {
                    assert(!occurs_at(text, pat, i));
                }
            }
        },
    }
}

/// Whether `pat` matches `v` character by character at offset `i`.
fn match_at(v: &Vec<char>, pat: &Vec<char>, i: usize) -> (b: bool)
    requires
        i + pat@.len() <= v@.len(),
    ensures
        b == occurs_at(v@, pat@, i as int),
{
    let n = v.len();
    let mut j: usize = 0;
    while j < pat.len()
        invariant
            j <= pat@.len(),
            i + pat@.len() <= v@.len(),
            n == v@.len(),
            forall|k: int| 0 <= k < j ==> v@[i + k] == pat@[k],
        decreases pat@.len() - j,
    {
        let idx = i + j;
        if v[idx] != pat[j] {
            proof {
                let sub = v@.subrange(i as int, i + pat@.len());
                assert(sub[j as int] == v@[i + j]);
                assert(sub != pat@);
            }
            return false;
        }
        j += 1;
    }
    proof {
        assert(v@.subrange(i as int, i + pat@.len()) =~= pat@);
    }
    true
}

/// First occurrence of `pat` in `v`, by naive scan.
pub fn find_sub(v: &Vec<char>, pat: &Vec<char>) -> (r: Option<usize>)
    ensures
        match r {
            Some(i) => {
                &&& i + pat@.len() <= v@.len()
                &&& occurs_at(v@, pat@, i as int)
                &&& find_spec(v@, pat@) == Some(i as int)
            },
            None => {
                &&& find_spec(v@, pat@) is None
                &&& !contains_seq(v@, pat@)
            },
        },
{
    if pat.len() == 0 {
        proof {
            assert(v@.subrange(0, 0) =~= pat@);
            assert(occurs_at(v@, pat@, 0));
            lemma_find_spec_is(v@, pat@, 0);
        }
        return Some(0);
    }
    if pat.len() > v.len() {
        proof {
            assert forall|j: int| !occurs_at(v@, pat@, j) by {}
            lemma_find_spec_contains(v@, pat@);
        }
        return None;
    }
    let n = v.len();
    let bound = n - pat.len();
    let mut i: usize = 0;
    while i <= bound
        invariant
            1 <= pat@.len() <= v@.len(),
            n == v@.len(),
            bound == v@.len() - pat@.len(),
            i <= bound + 1,
            forall|j: int| 0 <= j < i ==> !occurs_at(v@, pat@, j),
        decreases bound + 1 - i,
    {
        if match_at(v, pat, i) {
            proof {
                lemma_find_spec_is(v@, pat@, i as int);
            }
            return Some(i);
        }
        i += 1;
    }
    proof {
        assert forall|j: int| !occurs_at(v@, pat@, j) by {
            if 0 <= j <= bound {
                assert(!occurs_at(v@, pat@, j));
            }
        }
        lemma_find_spec_contains(v@, pat@);
    }
    None
}

/// The characters of `s`, one vector element per `char`.
pub fn str_to_chars(s: &str) -> (v: Vec<char>)
    ensures
        v@ == s@,
{
    let n = s.unicode_len();
    let mut v: Vec<char> = Vec::new();
    let mut i: usize = 0;
    while i < n
        invariant
            i <= n,
            n == s@.len(),
            v@ == s@.subrange(0, i as int),
        decreases n - i,
    {
        let c = s.get_char(i);
        v.push(c);
        proof {
            assert(v@ =~= s@.subrange(0, i + 1));
        }
        i += 1;
    }
    proof {
        assert(s@.subrange(0, n as int) =~= s@);
    }
    v
}

/// Relies on `String::push`: appends the given character to the end of
/// the string.
#[verifier::external_body]
fn push_char(s: &mut String, c: char)
    ensures
        final(s)@ == old(s)@.push(c),
{
    s.push(c);
}

/// The `String` whose characters are exactly those of `v`.
pub fn chars_to_string(v: &Vec<char>) -> (s: String)
    ensures
        s@ == v@,
{
    let mut s = String::new();
    let mut i: usize = 0;
    while i < v.len()
        invariant
            i <= v@.len(),
            s@ == v@.subrange(0, i as int),
        decreases v@.len() - i,
    {
        push_char(&mut s, v[i]);
        proof {
            assert(s@ =~= v@.subrange(0, i + 1));
        }
        i += 1;
    }
    proof {
        assert(v@.subrange(0, v@.len() as int) =~= v@);
    }
    s
}

/// `t` with trailing whitespace removed.
pub open spec fn trim_end_spec(t: Seq<char>) -> Seq<char>
    decreases t.len(),
{
    if t.len() > 0 && is_ws(t[t.len() - 1]) {
        trim_end_spec(t.drop_last())
    } else {
        t
    }
}

/// `t` with leading whitespace removed.
pub open spec fn trim_start_spec(t: Seq<char>) -> Seq<char>
    decreases t.len(),
{
    if t.len() > 0 && is_ws(t[0]) {
        trim_start_spec(t.drop_first())
    } else {
        t
    }
}

/// `t` with both leading and trailing whitespace removed.
pub open spec fn trim_spec(t: Seq<char>) -> Seq<char> {
    trim_end_spec(trim_start_spec(t))
}

/// `t` with every `'#'` character removed.
pub open spec fn strip_hashes(t: Seq<char>) -> Seq<char>
    decreases t.len(),
{
    if t.len() == 0 {
        Seq::empty()
    } else if t[0] == '#' {
        strip_hashes(t.drop_first())
    } else {
        seq![t[0]] + strip_hashes(t.drop_first())
    }
}

/// Removing `'#'` characters commutes with appending one character.
pub proof fn lemma_strip_hashes_push(t: Seq<char>, c: char)
    ensures
        strip_hashes(t.push(c)) == if c == '#' {
            strip_hashes(t)
        } else {
            strip_hashes(t).push(c)
        },
    decreases t.len(),
{
    if t.len() == 0 {
        assert(t.push(c)[0] == c);
        assert(t.push(c).drop_first() =~= Seq::<char>::empty());
        if c != '#' {
            assert(seq![c] + strip_hashes(Seq::<char>::empty()) =~= strip_hashes(t).push(c));
        }
    } else {
        lemma_strip_hashes_push(t.drop_first(), c);
        assert(t.push(c)[0] == t[0]);
        assert(t.push(c).drop_first() =~= t.drop_first().push(c));
        if t[0] != '#' {
            if c == '#' {
                assert(strip_hashes(t.push(c)) == seq![t[0]] + strip_hashes(t.drop_first()));
            } else {
                assert(seq![t[0]] + strip_hashes(t.drop_first()).push(c) =~= (seq![t[0]]
                    + strip_hashes(t.drop_first())).push(c));
            }
        }
    }
}

/// The first of the first `limit` lines of `t` that contains `needle`,
/// if any does. A line is a maximal stretch without `'\n'`; the final
/// line needs no terminator.
pub open spec fn scan_lines(t: Seq<char>, needle: Seq<char>, limit: nat) -> Option<Seq<char>>
    decreases limit,
{
    if limit == 0 {
        None
    } else {
        match find_spec(t, seq!['\n']) {
            Some(i) => {
                let line = t.subrange(0, i);
                if contains_seq(line, needle) {
                    Some(line)
                } else {
                    scan_lines(t.subrange(i + 1, t.len() as int), needle, (limit - 1) as nat)
                }
            },
            None => if contains_seq(t, needle) {
                Some(t)
            } else {
                None
            },
        }
    }
}

/// `p` holds no line break.
pub open spec fn has_no_newline(p: Seq<char>) -> bool {
    forall|k: int| 0 <= k < p.len() ==> p[k] != '\n'
}

/// Trimming the end twice is trimming it once.
pub proof fn lemma_trim_end_idempotent(t: Seq<char>)
    ensures
        trim_end_spec(trim_end_spec(t)) == trim_end_spec(t),
    decreases t.len(),
{
    if t.len() > 0 && is_ws(t[t.len() - 1]) {
        lemma_trim_end_idempotent(t.drop_last());
    }
}

/// An occurrence inside a designated stretch of `t` is an occurrence in
/// that stretch.
pub proof fn lemma_occurs_in_segment(t: Seq<char>, p: Seq<char>, j: int, a: int, c: int)
    requires
        occurs_at(t, p, j),
        0 <= a <= j,
        j + p.len() <= c <= t.len(),
    ensures
        occurs_at(t.subrange(a, c), p, j - a),
{
    assert(t.subrange(a, c).subrange(j - a, j - a + p.len()) =~= t.subrange(j, j + p.len()));
}

/// An occurrence in a stretch of `t` is an occurrence in `t`.
pub proof fn lemma_occurs_lift(t: Seq<char>, p: Seq<char>, a: int, c: int, j: int)
    requires
        0 <= a <= c <= t.len(),
        occurs_at(t.subrange(a, c), p, j),
    ensures
        occurs_at(t, p, a + j),
{
    assert(t.subrange(a + j, a + j + p.len()) =~= t.subrange(a, c).subrange(j, j + p.len()));
}

/// Each character covered by an occurrence agrees with the pattern.
pub proof fn lemma_occurrence_covers(t: Seq<char>, p: Seq<char>, j: int, m: int)
    requires
        occurs_at(t, p, j),
        j <= m < j + p.len(),
    ensures
        t[m] == p[m - j],
{
    let sub = t.subrange(j, j + p.len());
    assert(sub[m - j] == t[m]);
}

/// A copy of `v[i..j]`.
pub fn subvec(v: &Vec<char>, i: usize, j: usize) -> (r: Vec<char>)
    requires
        i <= j <= v@.len(),
    ensures
        r@ == v@.subrange(i as int, j as int),
{
    let mut r: Vec<char> = Vec::new();
    let mut k: usize = i;
    while k < j
        invariant
            i <= k <= j <= v@.len(),
            r@ == v@.subrange(i as int, k as int),
        decreases j - k,
    {
        r.push(v[k]);
        proof {
            assert(r@ =~= v@.subrange(i as int, k + 1));
        }
        k += 1;
    }
    r
}

/// Appends all of `src` to `dst`.
pub fn extend_chars(dst: &mut Vec<char>, src: &Vec<char>)
    ensures
        final(dst)@ == old(dst)@ + src@,
{
    let mut k: usize = 0;
    while k < src.len()
        invariant
            k <= src@.len(),
            dst@ == old(dst)@ + src@.subrange(0, k as int),
        decreases src@.len() - k,
    {
        dst.push(src[k]);
        proof {
            assert(dst@ =~= old(dst)@ + src@.subrange(0, k + 1));
        }
        k += 1;
    }
    proof {
        assert(old(dst)@ + src@.subrange(0, src@.len() as int) =~= old(dst)@ + src@);
    }
}

/// Whether `pat` occurs anywhere in `v`.
pub fn contains_sub(v: &Vec<char>, pat: &Vec<char>) -> (b: bool)
    ensures
        b == contains_seq(v@, pat@),
{
    match find_sub(v, pat) {
        Some(_) => {
            proof {
                assert(contains_seq(v@, pat@));
            }
            true
        },
        None => false,
    }
}

/// `v` with trailing whitespace removed.
pub fn trim_end_chars(v: &Vec<char>) -> (r: Vec<char>)
    ensures
        r@ == trim_end_spec(v@),
{
    proof {
        assert(v@.subrange(0, v@.len() as int) =~= v@);
    }
    let mut k = v.len();
    while k > 0 && char_is_ws(v[k - 1])
        invariant
            k <= v@.len(),
            trim_end_spec(v@) == trim_end_spec(v@.subrange(0, k as int)),
        decreases k,
    {
        proof {
            assert(v@.subrange(0, k as int).drop_last() =~= v@.subrange(0, k - 1));
        }
        k -= 1;
    }
    proof {
        if k == 0 {
            assert(v@.subrange(0, 0) =~= Seq::<char>::empty());
        }
    }
    subvec(v, 0, k)
}

/// `v` with leading whitespace removed.
pub fn trim_start_chars(v: &Vec<char>) -> (r: Vec<char>)
    ensures
        r@ == trim_start_spec(v@),
{
    let n = v.len();
    proof {
        assert(v@.subrange(0, v@.len() as int) =~= v@);
    }
    let mut k: usize = 0;
    while k < n && char_is_ws(v[k])
        invariant
            k <= n,
            n == v@.len(),
            trim_start_spec(v@) == trim_start_spec(v@.subrange(k as int, n as int)),
        decreases n - k,
    {
        proof {
            assert(v@.subrange(k as int, n as int).drop_first() =~= v@.subrange(k + 1, n as int));
        }
        k += 1;
    }
    proof {
        if k == n {
            assert(v@.subrange(k as int, n as int) =~= Seq::<char>::empty());
        }
    }
    subvec(v, k, n)
}

/// `v` with leading and trailing whitespace removed.
pub fn trim_chars(v: &Vec<char>) -> (r: Vec<char>)
    ensures
        r@ == trim_spec(v@),
{
    let s = trim_start_chars(v);
    trim_end_chars(&s)
}

/// `v` with every `'#'` character removed.
pub fn strip_hashes_chars(v: &Vec<char>) -> (r: Vec<char>)
    ensures
        r@ == strip_hashes(v@),
{
    let mut r: Vec<char> = Vec::new();
    let mut i: usize = 0;
    while i < v.len()
        invariant
            i <= v@.len(),
            r@ == strip_hashes(v@.subrange(0, i as int)),
        decreases v@.len() - i,
    {
        proof {
            lemma_strip_hashes_push(v@.subrange(0, i as int), v@[i as int]);
            assert(v@.subrange(0, i as int).push(v@[i as int]) =~= v@.subrange(0, i + 1));
        }
        let c = v[i];
        if c != '#' {
            r.push(c);
        }
        i += 1;
    }
    proof {
        assert(v@.subrange(0, v@.len() as int) =~= v@);
    }
    r
}

/// The single-character vector holding a line break.
fn newline_vec() -> (v: Vec<char>)
    ensures
        v@ == seq!['\n'],
{
    let mut v: Vec<char> = Vec::new();
    v.push('\n');
    proof {
        assert(v@ =~= seq!['\n']);
    }
    v
}

/// Scan the first `limit` lines of `v` for one containing `needle`.
pub fn scan_lines_chars(v: &Vec<char>, needle: &Vec<char>, limit: usize) -> (r: Option<Vec<char>>)
    ensures
        match r {
            Some(line) => scan_lines(v@, needle@, limit as nat) == Some(line@),
            None => scan_lines(v@, needle@, limit as nat) is None,
        },
    decreases limit,
{
    if limit == 0 {
        return None;
    }
    let n = v.len();
    let nl = newline_vec();
    match find_sub(v, &nl) {
        Some(i) => {
            let line = subvec(v, 0, i);
            if contains_sub(&line, needle) {
                Some(line)
            } else {
                let rest = subvec(v, i + 1, n);
                scan_lines_chars(&rest, needle, limit - 1)
            }
        },
        None => {
            if contains_sub(v, needle) {
                let whole = subvec(v, 0, v.len());
                proof {
                    assert(v@.subrange(0, v@.len() as int) =~= v@);
                }
                Some(whole)
            } else {
                None
            }
        },
    }
}

} // verus!
