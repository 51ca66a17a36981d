//! Natural order of names: runs of digits count by their value.
use crate::text;
use crate::text::{chars_of, is_before, of_chars, same};
use vstd::prelude::*;

verus! {

/// Where the run of digits from `i` on ends.
pub open spec fn run_end(s: Seq<char>, i: int) -> int
    decreases s.len() - i,
{
    if i < 0 || i >= s.len() || !text::is_digit(s[i]) {
        i
    } else {
        run_end(s, i + 1)
    }
}

/// The place behind the zeros that a run starts with.
pub open spec fn past_zeros(s: Seq<char>, i: int, e: int) -> int
    decreases e - i,
{
    if i < 0 || i >= e || s[i] != '0' {
        i
    } else {
        past_zeros(s, i + 1, e)
    }
}

/// The digits of a run without its leading zeros.
pub open spec fn run(s: Seq<char>, i: int) -> Seq<char> {
    let e = run_end(s, i);
    s.subrange(past_zeros(s, i, e), e)
}

pub proof fn lemma_run_end(s: Seq<char>, i: int)
    requires
        0 <= i <= s.len(),
    ensures
        i <= run_end(s, i) <= s.len(),
        i < s.len() && text::is_digit(s[i]) ==> i < run_end(s, i),
    decreases s.len() - i,
{
    if i < s.len() && text::is_digit(s[i]) {
        lemma_run_end(s, i + 1);
    }
}

proof fn lemma_past_zeros(s: Seq<char>, i: int, e: int)
    requires
        0 <= i <= e,
    ensures
        i <= past_zeros(s, i, e) <= e,
    decreases e - i,
{
    if i < e && s[i] == '0' {
        lemma_past_zeros(s, i + 1, e);
    }
}

/// Whether `a` from `i` on comes before `b` from `j` on.
pub open spec fn natural_from(a: Seq<char>, i: int, b: Seq<char>, j: int) -> bool
    decreases a.len() - i + b.len() - j,
{
    if i < 0 || j < 0 || j >= b.len() {
        false
    } else if i >= a.len() {
        true
    } else if text::is_digit(a[i]) && text::is_digit(b[j]) {
        proof {
            lemma_run_end(a, i);
            lemma_run_end(b, j);
        }
        let (p, q) = (run(a, i), run(b, j));
        if p == q {
            natural_from(a, run_end(a, i), b, run_end(b, j))
        } else if p.len() != q.len() {
            p.len() < q.len()
        } else {
            text::before(p, q)
        }
    } else if a[i] == b[j] {
        natural_from(a, i + 1, b, j + 1)
    } else {
        a[i] < b[j]
    }
}

/// Whether a name comes before another: runs of digits by their value, all else by character.
pub open spec fn natural(a: Seq<char>, b: Seq<char>) -> bool {
    natural_from(a, 0, b, 0)
}

fn find_run_end(v: &Vec<char>, i: usize) -> (e: usize)
    requires
        i <= v@.len(),
    ensures
        e == run_end(v@, i as int),
        i <= e <= v@.len(),
{
    let mut e = i;
    while e < v.len() && '0' <= v[e] && v[e] <= '9'
        invariant
            i <= e <= v@.len(),
            run_end(v@, i as int) == run_end(v@, e as int),
        decreases v@.len() - e,
    {
        e += 1;
    }
    e
}

fn run_digits(v: &Vec<char>, i: usize, e: usize) -> (r: Vec<char>)
    requires
        i <= e <= v@.len(),
        e == run_end(v@, i as int),
    ensures
        r@ == run(v@, i as int),
{
    let mut k = i;
    while k < e && v[k] == '0'
        invariant
            i <= k <= e <= v@.len(),
            past_zeros(v@, i as int, e as int) == past_zeros(v@, k as int, e as int),
        decreases e - k,
    {
        k += 1;
    }
    let ghost start = k as int;
    let mut r: Vec<char> = Vec::new();
    assert(r@ =~= v@.subrange(start, k as int));
    while k < e
        invariant
            0 <= start <= k <= e <= v@.len(),
            r@ == v@.subrange(start, k as int),
        decreases e - k,
    {
        r.push(v[k]);
        assert(r@ =~= v@.subrange(start, k + 1));
        k += 1;
    }
    r
}

/// Whether a name comes before another: runs of digits by their value, all else by character.
pub fn natural_before(a: &str, b: &str) -> (r: bool)
    ensures
        r == natural(a@, b@),
{
    let x = chars_of(a);
    let y = chars_of(b);
    let mut i: usize = 0;
    let mut j: usize = 0;
    while i < x.len() && j < y.len()
        invariant
            x@ == a@,
            y@ == b@,
            i <= x@.len(),
            j <= y@.len(),
            natural(a@, b@) == natural_from(a@, i as int, b@, j as int),
        decreases x@.len() - i + y@.len() - j,
    {
        let (c, d) = (x[i], y[j]);
        if '0' <= c && c <= '9' && '0' <= d && d <= '9' {
            let e = find_run_end(&x, i);
            let f = find_run_end(&y, j);
            proof {
                lemma_run_end(a@, i as int);
                lemma_run_end(b@, j as int);
            }
            let p = run_digits(&x, i, e);
            let q = run_digits(&y, j, f);
            if p.len() != q.len() {
                return p.len() < q.len();
            }
            let (s, t) = (of_chars(&p), of_chars(&q));
            if !same(s.as_str(), t.as_str()) {
                return is_before(s.as_str(), t.as_str());
            }
            i = e;
            j = f;
        } else if c == d {
            i += 1;
            j += 1;
        } else {
            return c < d;
        }
    }
    j < y.len()
}

/// The first place whose name a new one comes before.
pub open spec fn nat_place(v: Seq<Seq<char>>, x: Seq<char>, i: int) -> int
    decreases v.len() - i,
{
    if i < 0 || i >= v.len() || natural(x, v[i]) {
        i
    } else {
        nat_place(v, x, i + 1)
    }
}

/// A name does not come before itself.
pub proof fn natural_is_irreflexive(a: Seq<char>)
    ensures
        !natural(a, a),
{
    lemma_irreflexive(a, 0);
}

proof fn lemma_irreflexive(a: Seq<char>, i: int)
    requires
        0 <= i <= a.len(),
    ensures
        !natural_from(a, i, a, i),
    decreases a.len() - i,
{
    if i < a.len() {
        if text::is_digit(a[i]) {
            lemma_run_end(a, i);
            lemma_irreflexive(a, run_end(a, i));
        } else {
            lemma_irreflexive(a, i + 1);
        }
    }
}

} // verus!
