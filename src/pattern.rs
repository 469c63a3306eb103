//! Patterns that select refs by name.
use vstd::prelude::*;
use crate::refs::{bytes_eq, copy_bytes};

verus! {

/// Where the members of a class `[...]` at the start of `p` begin: after
/// `[!` for a negated class, else after `[`.
pub open spec fn class_start(p: Seq<u8>) -> int {
    if p.len() > 1 && p[1] == 33u8 { 2 } else { 1 }
}

/// The first `]` of `p` at position `k` or later; -1 if none.
pub open spec fn close_from(p: Seq<u8>, k: int) -> int
    decreases p.len() - k,
{
    if k < 0 || k >= p.len() {
        -1
    } else if p[k] == 93u8 {
        k
    } else {
        close_from(p, k + 1)
    }
}

proof fn lemma_close_from(p: Seq<u8>, k: int)
    requires
        0 <= k,
    ensures
        close_from(p, k) == -1 || (k <= close_from(p, k) < p.len() && p[close_from(p, k)] == 93u8),
    decreases p.len() - k,
{
    if k < p.len() && p[k] != 93u8 {
        lemma_close_from(p, k + 1);
    }
}

/// The `]` that closes a class at the start of `p`; a `]` right after the
/// opening is a member, not the end.
pub open spec fn class_close(p: Seq<u8>) -> int {
    close_from(p, class_start(p) + 1)
}

/// The members of a class, `body`, hold byte `b`: single bytes, and ranges
/// written `a-z`.
pub open spec fn class_has(body: Seq<u8>, b: u8) -> bool
    decreases body.len(),
{
    if body.len() == 0 {
        false
    } else if body.len() >= 3 && body[1] == 45u8 {
        (body[0] <= b && b <= body[2]) || class_has(body.subrange(3, body.len() as int), b)
    } else {
        body[0] == b || class_has(body.drop_first(), b)
    }
}

/// `p` matches the whole of `s`, where `*` stands for any run of bytes, `?`
/// for any single byte, and `[...]` for one byte of the class (`[!...]` for
/// one byte not in it); a `[` that no `]` closes stands for itself.
pub open spec fn glob_match(p: Seq<u8>, s: Seq<u8>) -> bool
    decreases p.len() + s.len(),
{
    if p.len() == 0 {
        s.len() == 0
    } else if p[0] == 42u8 {
        glob_match(p.drop_first(), s) || (s.len() > 0 && glob_match(p, s.drop_first()))
    } else if p[0] == 63u8 {
        s.len() > 0 && glob_match(p.drop_first(), s.drop_first())
    } else if p[0] == 91u8 && class_start(p) < class_close(p) < p.len() {
        s.len() > 0 && (class_has(p.subrange(class_start(p), class_close(p)), s[0]) != (class_start(p) == 2))
            && glob_match(p.subrange(class_close(p) + 1, p.len() as int), s.drop_first())
    } else {
        s.len() > 0 && s[0] == p[0] && glob_match(p.drop_first(), s.drop_first())
    }
}

/// `needle` occurs in `s` at position `k`.
pub open spec fn occurs_at(s: Seq<u8>, needle: Seq<u8>, k: int) -> bool {
    0 <= k && k + needle.len() <= s.len() && s.subrange(k, k + needle.len()) == needle
}

/// `needle` occurs somewhere in `s`.
pub open spec fn contains_bytes(s: Seq<u8>, needle: Seq<u8>) -> bool {
    exists|k: int| occurs_at(s, needle, k)
}

/// An ASCII byte in lower case.
pub open spec fn lower_byte(b: u8) -> u8 {
    if 65 <= b <= 90 {
        (b + 32) as u8
    } else {
        b
    }
}

/// A byte string with its ASCII letters in lower case.
pub open spec fn lower(s: Seq<u8>) -> Seq<u8> {
    s.map_values(|b: u8| lower_byte(b))
}

/// How a name is selected.
pub enum StringPattern {
    /// The whole name equals the text.
    Exact(Vec<u8>),
    /// The whole name equals the text, ignoring ASCII case.
    ExactI(Vec<u8>),
    /// The text occurs in the name.
    Substring(Vec<u8>),
    /// The text occurs in the name, ignoring ASCII case.
    SubstringI(Vec<u8>),
    /// The name matches a wildcard pattern with `*` and `?`.
    Glob(Vec<u8>),
    /// The name matches a wildcard pattern, ignoring ASCII case.
    GlobI(Vec<u8>),
}

impl StringPattern {
    pub open spec fn spec_matches(&self, s: Seq<u8>) -> bool {
        match self {
            StringPattern::Exact(t) => s == t@,
            StringPattern::ExactI(t) => lower(s) == lower(t@),
            StringPattern::Substring(t) => contains_bytes(s, t@),
            StringPattern::SubstringI(t) => contains_bytes(lower(s), lower(t@)),
            StringPattern::Glob(t) => glob_match(t@, s),
            StringPattern::GlobI(t) => glob_match(lower(t@), lower(s)),
        }
    }

    /// A pattern that every name matches.
    pub fn everything() -> (r: StringPattern)
        ensures
            forall|s: Seq<u8>| r.spec_matches(s),
    {
        let r = StringPattern::Substring(Vec::new());
        assert forall|s: Seq<u8>| r.spec_matches(s) by {
            assert(s.subrange(0, 0) =~= Seq::<u8>::empty());
            assert(occurs_at(s, Seq::<u8>::empty(), 0));
        }
        r
    }

    /// A pattern that matches `name` exactly.
    pub fn exact(name: &Vec<u8>) -> (r: StringPattern)
        ensures
            forall|s: Seq<u8>| r.spec_matches(s) <==> s == name@,
            r is Exact,
    {
        StringPattern::Exact(copy_bytes(name))
    }

    /// The pattern selects one name by its exact spelling.
    pub fn is_exact(&self) -> (r: bool)
        ensures
            r == (self is Exact),
    {
        match self {
            StringPattern::Exact(_) => true,
            _ => false,
        }
    }

    /// Whether `s` matches the pattern.
    pub fn matches(&self, s: &Vec<u8>) -> (r: bool)
        ensures
            r == self.spec_matches(s@),
    {
        match self {
            StringPattern::Exact(t) => bytes_eq(s, t),
            StringPattern::ExactI(t) => bytes_eq(&to_lower(s), &to_lower(t)),
            StringPattern::Substring(t) => has_substring(s, t),
            StringPattern::SubstringI(t) => has_substring(&to_lower(s), &to_lower(t)),
            StringPattern::Glob(t) => glob_matches(t, s),
            StringPattern::GlobI(t) => glob_matches(&to_lower(t), &to_lower(s)),
        }
    }
}

/// `s` with its ASCII letters in lower case.
pub fn to_lower(s: &Vec<u8>) -> (r: Vec<u8>)
    ensures
        r@ == lower(s@),
{
    let mut r: Vec<u8> = Vec::new();
    let mut i: usize = 0;
    while i < s.len()
        invariant
            i <= s@.len(),
            r@ == lower(s@.subrange(0, i as int)),
        decreases s@.len() - i,
    {
        let b = s[i];
        let l = if 65 <= b && b <= 90 { b + 32 } else { b };
        r.push(l);
        i = i + 1;
        assert(r@ =~= lower(s@.subrange(0, i as int)));
    }
    assert(s@.subrange(0, s@.len() as int) =~= s@);
    r
}

/// Whether `needle` occurs in `s` at position `k`.
fn bytes_at(s: &Vec<u8>, needle: &Vec<u8>, k: usize) -> (r: bool)
    requires
        k + needle@.len() <= s@.len(),
    ensures
        r == occurs_at(s@, needle@, k as int),
{
    let sl = s.len();
    let mut i: usize = 0;
    while i < needle.len()
        invariant
            i <= needle@.len(),
            sl == s@.len(),
            k + needle@.len() <= s@.len(),
            forall|j: int| 0 <= j < i ==> s@[k + j] == needle@[j],
        decreases needle@.len() - i,
    {
        if s[k + i] != needle[i] {
            assert(s@.subrange(k as int, k + needle@.len())[i as int] != needle@[i as int]);
            return false;
        }
        i = i + 1;
    }
    assert(s@.subrange(k as int, k + needle@.len()) =~= needle@);
    true
}

/// Whether `needle` occurs anywhere in `s`.
pub fn has_substring(s: &Vec<u8>, needle: &Vec<u8>) -> (r: bool)
    ensures
        r == contains_bytes(s@, needle@),
{
    if needle.len() > s.len() {
        return false;
    }
    let last = s.len() - needle.len();
    let mut k: usize = 0;
    while k <= last
        invariant
            last + needle@.len() == s@.len(),
            forall|j: int| 0 <= j < k ==> !occurs_at(s@, needle@, j),
        decreases last + 1 - k,
    {
        if bytes_at(s, needle, k) {
            return true;
        }
        if k == last {
            return false;
        }
        k = k + 1;
    }
    false
}

/// The close of a class that starts at position `i` of `p`, if a `]`
/// closes it.
fn find_class_close(p: &Vec<u8>, i: usize) -> (r: Option<usize>)
    requires
        i < p@.len(),
    ensures
        ({
            let q = p@.subrange(i as int, p@.len() as int);
            match r {
                Some(c) => class_start(q) < class_close(q) < q.len() && c == i + class_close(q),
                None => class_close(q) == -1,
            }
        }),
{
    let ghost q = p@.subrange(i as int, p@.len() as int);
    let m = p.len();
    let start: usize = if i + 1 < m && p[i + 1] == 33u8 { 2 } else { 1 };
    assert(start == class_start(q));
    proof {
        lemma_close_from(q, class_start(q) + 1);
    }
    if start + 1 >= m - i {
        assert(close_from(q, class_start(q) + 1) == -1);
        return None;
    }
    let mut a: usize = i + start + 1;
    while a < m
        invariant
            i + start + 1 <= a <= m,
            m == p@.len(),
            start == class_start(q),
            q == p@.subrange(i as int, p@.len() as int),
            close_from(q, start + 1) == close_from(q, a - i),
        decreases m - a,
    {
        assert(q[a - i] == p@[a as int]);
        if p[a] == 93u8 {
            return Some(a);
        }
        a = a + 1;
    }
    None
}

/// Whether the class members between positions `from` and `to` of `p` hold
/// byte `b`.
fn class_holds(p: &Vec<u8>, from: usize, to: usize, b: u8) -> (r: bool)
    requires
        from <= to <= p@.len(),
    ensures
        r == class_has(p@.subrange(from as int, to as int), b),
{
    let ghost body = p@.subrange(from as int, to as int);
    let mut k: usize = from;
    while k < to
        invariant
            from <= k <= to,
            to <= p@.len(),
            body == p@.subrange(from as int, to as int),
            class_has(body, b) == class_has(p@.subrange(k as int, to as int), b),
        decreases to - k,
    {
        let ghost rest = p@.subrange(k as int, to as int);
        if to - k > 2 && p[k + 1] == 45u8 {
            assert(rest[1] == p@[k + 1] && rest[0] == p@[k as int] && rest[2] == p@[k + 2]);
            assert(rest.subrange(3, rest.len() as int) =~= p@.subrange(k + 3, to as int));
            if p[k] <= b && b <= p[k + 2] {
                return true;
            }
            k = k + 3;
        } else {
            assert(rest[0] == p@[k as int]);
            assert(rest.drop_first() =~= p@.subrange(k + 1, to as int));
            if p[k] == b {
                return true;
            }
            k = k + 1;
        }
    }
    false
}

/// Whether `s` matches the wildcard pattern `p`, by dynamic programming over
/// the suffixes of both.
pub fn glob_matches(p: &Vec<u8>, s: &Vec<u8>) -> (r: bool)
    ensures
        r == glob_match(p@, s@),
{
    let n = s.len();
    let m = p.len();
    // rows[m - i][j] answers for the pattern suffix from `i` and the text
    // suffix from `j < n`; ends[m - i] for the empty text suffix.
    let mut rows: Vec<Vec<bool>> = Vec::new();
    let mut ends: Vec<bool> = Vec::new();
    let ghost empty_text = s@.subrange(n as int, n as int);
    proof {
        assert(p@.subrange(m as int, m as int).len() == 0);
        assert(empty_text.len() == 0);
    }
    let row0 = empty_flags(n);
    proof {
        assert forall|k: int| 0 <= k < n implies #[trigger] row0@[k] == glob_match(p@.subrange(m as int, m as int), s@.subrange(k, n as int)) by {
            assert(s@.subrange(k, n as int).len() > 0);
        }
    }
    rows.push(row0);
    ends.push(true);
    let mut i: usize = m;
    while i > 0
        invariant
            i <= m,
            n == s@.len(),
            m == p@.len(),
            rows@.len() == m - i + 1,
            ends@.len() == m - i + 1,
            forall|ii: int| i <= ii <= m ==> (#[trigger] rows@[m - ii])@.len() == n,
            forall|ii: int, k: int| i <= ii <= m && 0 <= k < n ==> #[trigger] rows@[m - ii]@[k]
                == glob_match(p@.subrange(ii, m as int), s@.subrange(k, n as int)),
            forall|ii: int| i <= ii <= m ==> #[trigger] ends@[m - ii]
                == glob_match(p@.subrange(ii, m as int), s@.subrange(n as int, n as int)),
        decreases i,
    {
        i = i - 1;
        let c = p[i];
        let ghost pi = p@.subrange(i as int, m as int);
        assert(pi.drop_first() =~= p@.subrange(i + 1, m as int));
        assert(pi[0] == c);
        let close = if c == 91u8 { find_class_close(p, i) } else { None };
        let start: usize = if i + 1 < m && p[i + 1] == 33u8 { 2 } else { 1 };
        proof {
            if c == 91u8 {
                assert(start == class_start(pi));
            }
            if close is Some {
                let cl = close->Some_0;
                assert(pi.subrange(class_start(pi), class_close(pi)) =~= p@.subrange(i + start, cl as int));
                assert(pi.subrange(class_close(pi) + 1, pi.len() as int) =~= p@.subrange(cl + 1, m as int));
            }
        }
        let next = &rows[m - (i + 1)];
        let next_end = ends[m - (i + 1)];
        let mut cur: Vec<bool> = empty_flags(n);
        let ghost empty = s@.subrange(n as int, n as int);
        let cur_end = c == 42u8 && next_end;
        assert(cur_end == glob_match(pi, empty));
        let mut jj: usize = n;
        while jj > 0
            invariant
                i < m,
                jj <= n,
                n == s@.len(),
                m == p@.len(),
                c == p@[i as int],
                pi == p@.subrange(i as int, m as int),
                pi.drop_first() == p@.subrange(i + 1, m as int),
                c == 91u8 ==> start == class_start(pi),
                close matches Some(cl) ==> c == 91u8 && class_start(pi) < class_close(pi) < pi.len() && cl == i + class_close(pi)
                    && cl < m
                    && pi.subrange(class_start(pi), class_close(pi)) == p@.subrange(i + start, cl as int)
                    && pi.subrange(class_close(pi) + 1, pi.len() as int) == p@.subrange(cl + 1, m as int),
                c == 91u8 && close is None ==> class_close(pi) == -1,
                c != 91u8 ==> close is None,
                rows@.len() == m - i,
                ends@.len() == m - i,
                forall|ii: int| i + 1 <= ii <= m ==> (#[trigger] rows@[m - ii])@.len() == n,
                forall|ii: int, k: int| i + 1 <= ii <= m && 0 <= k < n ==> #[trigger] rows@[m - ii]@[k]
                    == glob_match(p@.subrange(ii, m as int), s@.subrange(k, n as int)),
                forall|ii: int| i + 1 <= ii <= m ==> #[trigger] ends@[m - ii]
                    == glob_match(p@.subrange(ii, m as int), s@.subrange(n as int, n as int)),
                *next == rows@[m - (i + 1)],
                next_end == ends@[m - (i + 1)],
                cur@.len() == n,
                cur_end == glob_match(pi, s@.subrange(n as int, n as int)),
                forall|k: int| jj <= k < n ==> #[trigger] cur@[k] == glob_match(pi, s@.subrange(k, n as int)),
            decreases jj,
        {
            jj = jj - 1;
            let ghost sj = s@.subrange(jj as int, n as int);
            assert(sj.drop_first() =~= s@.subrange(jj + 1, n as int));
            assert(sj[0] == s@[jj as int]);
            let next1 = if jj + 1 < n { next[jj + 1] } else { next_end };
            let cur1 = if jj + 1 < n { cur[jj + 1] } else { cur_end };
            let v = if c == 42u8 {
                next[jj] || cur1
            } else if c == 63u8 {
                next1
            } else if close.is_some() {
                let cl = close.unwrap();
                let after_row = &rows[m - (cl + 1)];
                let after = if jj + 1 < n { after_row[jj + 1] } else { ends[m - (cl + 1)] };
                (class_holds(p, i + start, cl, s[jj]) != (start == 2)) && after
            } else {
                s[jj] == c && next1
            };
            cur.set(jj, v);
        }
        rows.push(cur);
        ends.push(cur_end);
    }
    assert(p@.subrange(0, m as int) =~= p@);
    assert(s@.subrange(0, n as int) =~= s@);
    if n == 0 {
        ends[m]
    } else {
        rows[m][0]
    }
}

/// `n` unset flags.
fn empty_flags(n: usize) -> (r: Vec<bool>)
    ensures
        r@.len() == n,
        forall|k: int| 0 <= k < n ==> !#[trigger] r@[k],
{
    let mut r: Vec<bool> = Vec::new();
    let mut i: usize = 0;
    while i < n
        invariant
            i <= n,
            r@.len() == i,
            forall|k: int| 0 <= k < i ==> !#[trigger] r@[k],
        decreases n - i,
    {
        r.push(false);
        i = i + 1;
    }
    r
}

} // verus!
