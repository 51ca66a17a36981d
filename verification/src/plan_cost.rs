//! What a drawn plan is judged by: crossings, merges, wires and dots that stand too close.
use crate::emit;
use crate::emit::{point_on_segment, Dir, Wire, WireV};
use crate::floorplan::Side;
use crate::geom;
use crate::geom::{abs_i, max_i, min_i, Pt};
use crate::orient;
use crate::orient::cut_off;
use crate::text::same;
use vstd::prelude::*;

verus! {

// ---------------------------------------------------------------- counting pairs
/// How many of the first `k` are in a relation with `j`.
pub open spec fn row_count(f: spec_fn(int, int) -> bool, j: int, k: int) -> int
    decreases k,
{
    if k <= 0 {
        0
    } else {
        row_count(f, j, k - 1) + if f(k - 1, j) {
            1int
        } else {
            0
        }
    }
}

/// How many pairs among the first `n` are in a relation.
pub open spec fn pair_count(f: spec_fn(int, int) -> bool, n: int) -> int
    decreases n,
{
    if n <= 0 {
        0
    } else {
        pair_count(f, n - 1) + row_count(f, n - 1, n - 1)
    }
}

proof fn lemma_row(f: spec_fn(int, int) -> bool, j: int, k: int)
    requires
        0 <= k,
    ensures
        0 <= row_count(f, j, k) <= k,
    decreases k,
{
    if k > 0 {
        lemma_row(f, j, k - 1);
    }
}

proof fn lemma_pairs(f: spec_fn(int, int) -> bool, n: int)
    requires
        0 <= n,
    ensures
        0 <= pair_count(f, n) <= n * n,
    decreases n,
{
    if n > 0 {
        lemma_pairs(f, n - 1);
        lemma_row(f, n - 1, n - 1);
        assert((n - 1) * (n - 1) + (n - 1) <= n * n) by (nonlinear_arith)
            requires
                n > 0,
        ;
    }
}

proof fn lemma_square(n: int)
    requires
        0 <= n <= 0xffff_ffff_ffff_ffff,
    ensures
        n * n + n <= 0xffff_ffff_ffff_ffff_ffff_ffff_ffff_ffff,
{
    assert(n * n + n <= 0xffff_ffff_ffff_ffff_ffff_ffff_ffff_ffff) by (nonlinear_arith)
        requires
            0 <= n <= 0xffff_ffff_ffff_ffff,
    ;
}

// ---------------------------------------------------------------- relations of two wires
/// Whether two level or two upright wires run beside each other, closer than `near`, for more than
/// five grid steps.
pub open spec fn cramped(a1: Pt, a2: Pt, b1: Pt, b2: Pt, near: int) -> bool {
    let level = a1.y == a2.y && b1.y == b2.y;
    let upright = a1.x == a2.x && b1.x == b2.x;
    if level {
        let apart = geom::mag(a1.y - b1.y);
        let lo = geom::hi(
            geom::lo(a1.x as int, a2.x as int),
            geom::lo(b1.x as int, b2.x as int),
        );
        let hi = geom::lo(
            geom::hi(a1.x as int, a2.x as int),
            geom::hi(b1.x as int, b2.x as int),
        );
        0 < apart < near && hi - lo > 635_000
    } else if upright {
        let apart = geom::mag(a1.x - b1.x);
        let lo = geom::hi(
            geom::lo(a1.y as int, a2.y as int),
            geom::lo(b1.y as int, b2.y as int),
        );
        let hi = geom::lo(
            geom::hi(a1.y as int, a2.y as int),
            geom::hi(b1.y as int, b2.y as int),
        );
        0 < apart < near && hi - lo > 635_000
    } else {
        false
    }
}

/// Whether two parallel wires run too close beside each other.
pub fn parallel_too_close(a1: Pt, a2: Pt, b1: Pt, b2: Pt, near: i64) -> (r: bool)
    ensures
        r == cramped(a1, a2, b1, b2, near as int),
{
    let (pa, pb, lo, hi): (i64, i64, i64, i64) = if a1.y == a2.y && b1.y == b2.y {
        (
            a1.y,
            b1.y,
            max_i(min_i(a1.x, a2.x), min_i(b1.x, b2.x)),
            min_i(max_i(a1.x, a2.x), max_i(b1.x, b2.x)),
        )
    } else if a1.x == a2.x && b1.x == b2.x {
        (
            a1.x,
            b1.x,
            max_i(min_i(a1.y, a2.y), min_i(b1.y, b2.y)),
            min_i(max_i(a1.y, a2.y), max_i(b1.y, b2.y)),
        )
    } else {
        return false;
    };
    let d: i128 = pa as i128 - pb as i128;
    let apart: i128 = if d < 0 { -d } else { d };
    0 < apart && apart < near as i128 && hi as i128 - lo as i128 > 635_000
}

/// Whether two wires lie on one line and overlap in more than a point.
pub open spec fn fused(a1: Pt, a2: Pt, b1: Pt, b2: Pt) -> bool {
    if a1.y == a2.y && b1.y == b2.y && a1.y == b1.y {
        geom::lo(a1.x as int, a2.x as int) < geom::hi(b1.x as int, b2.x as int) && geom::lo(
            b1.x as int,
            b2.x as int,
        ) < geom::hi(a1.x as int, a2.x as int)
    } else if a1.x == a2.x && b1.x == b2.x && a1.x == b1.x {
        geom::lo(a1.y as int, a2.y as int) < geom::hi(b1.y as int, b2.y as int) && geom::lo(
            b1.y as int,
            b2.y as int,
        ) < geom::hi(a1.y as int, a2.y as int)
    } else {
        false
    }
}

/// Whether two wires lie on one line and overlap in more than a point.
pub fn collinear_overlap(a1: Pt, a2: Pt, b1: Pt, b2: Pt) -> (r: bool)
    ensures
        r == fused(a1, a2, b1, b2),
{
    if a1.y == a2.y && b1.y == b2.y && a1.y == b1.y {
        min_i(a1.x, a2.x) < max_i(b1.x, b2.x) && min_i(b1.x, b2.x) < max_i(a1.x, a2.x)
    } else if a1.x == a2.x && b1.x == b2.x && a1.x == b1.x {
        min_i(a1.y, a2.y) < max_i(b1.y, b2.y) && min_i(b1.y, b2.y) < max_i(a1.y, a2.y)
    } else {
        false
    }
}

/// Whether a level wire and an upright one cross inside both.
pub open spec fn crosses(h1: Pt, h2: Pt, v1: Pt, v2: Pt) -> bool {
    geom::lo(h1.x as int, h2.x as int) < v1.x < geom::hi(h1.x as int, h2.x as int) && geom::lo(
        v1.y as int,
        v2.y as int,
    ) < h1.y < geom::hi(v1.y as int, v2.y as int)
}

/// Whether two wires cross without a joint: one level, one upright, inside both.
pub open spec fn crossing(a1: Pt, a2: Pt, b1: Pt, b2: Pt) -> bool {
    if a1.y == a2.y && b1.x == b2.x {
        crosses(a1, a2, b1, b2)
    } else if a1.x == a2.x && b1.y == b2.y {
        crosses(b1, b2, a1, a2)
    } else {
        false
    }
}

fn is_crossing(a1: Pt, a2: Pt, b1: Pt, b2: Pt) -> (r: bool)
    ensures
        r == crossing(a1, a2, b1, b2),
{
    let (h1, h2, v1, v2) = if a1.y == a2.y && b1.x == b2.x {
        (a1, a2, b1, b2)
    } else if a1.x == a2.x && b1.y == b2.y {
        (b1, b2, a1, a2)
    } else {
        return false;
    };
    min_i(h1.x, h2.x) < v1.x && v1.x < max_i(h1.x, h2.x) && min_i(v1.y, v2.y) < h1.y && h1.y
        < max_i(v1.y, v2.y)
}

fn same_net(a: &Wire, b: &Wire) -> (r: bool)
    ensures
        r == (a@.net == b@.net),
{
    match (&a.net, &b.net) {
        (Some(x), Some(y)) => same(x.as_str(), y.as_str()),
        (None, None) => true,
        _ => false,
    }
}

// ---------------------------------------------------------------- the counts
pub open spec fn crossing_pair(v: Seq<WireV>) -> spec_fn(int, int) -> bool {
    |i: int, j: int| v[i].net != v[j].net && crossing(v[i].a, v[i].b, v[j].a, v[j].b)
}

/// How many pairs of wires of different nets cross.
pub fn count_crossings(v: &Vec<Wire>) -> (r: u128)
    ensures
        r == pair_count(crossing_pair(emit::wires_v(v@)), v@.len() as int),
{
    let ghost m = emit::wires_v(v@);
    let ghost f = crossing_pair(m);
    let mut n: u128 = 0;
    let mut j: usize = 0;
    while j < v.len()
        invariant
            j <= v@.len(),
            m == emit::wires_v(v@),
            f == crossing_pair(m),
            n == pair_count(f, j as int),
        decreases v@.len() - j,
    {
        let ghost n0 = n as int;
        let mut k: usize = 0;
        proof {
            lemma_pairs(f, j as int);
            lemma_square(j as int);
        }
        while k < j
            invariant
                k <= j < v@.len(),
                m == emit::wires_v(v@),
                f == crossing_pair(m),
                0 <= n0 <= j * j,
                j * j + j <= 0xffff_ffff_ffff_ffff_ffff_ffff_ffff_ffff,
                n0 <= n <= n0 + k,
                n == n0 + row_count(f, j as int, k as int),
            decreases j - k,
        {
            assert(m[k as int] == v@[k as int]@ && m[j as int] == v@[j as int]@);
            if !same_net(&v[k], &v[j]) && is_crossing(v[k].a, v[k].b, v[j].a, v[j].b) {
                n += 1;
            }
            k += 1;
        }
        j += 1;
    }
    n
}

pub open spec fn close_pair(v: Seq<WireV>) -> spec_fn(int, int) -> bool {
    |i: int, j: int| cramped(v[i].a, v[i].b, v[j].a, v[j].b, 254_000)
}

/// How many of the first `n` bodies a wire hugs.
pub open spec fn hugged(w: WireV, bodies: Seq<(Pt, Pt)>, n: int) -> int
    decreases n,
{
    if n <= 0 {
        0
    } else {
        hugged(w, bodies, n - 1) + if cramped(
            w.a,
            w.b,
            bodies[n - 1].0,
            bodies[n - 1].1,
            381_000,
        ) {
            1int
        } else {
            0
        }
    }
}

pub open spec fn all_hugged(v: Seq<WireV>, bodies: Seq<(Pt, Pt)>, n: int) -> int
    decreases n,
{
    if n <= 0 {
        0
    } else {
        all_hugged(v, bodies, n - 1) + hugged(v[n - 1], bodies, bodies.len() as int)
    }
}

proof fn lemma_hugged(w: WireV, bodies: Seq<(Pt, Pt)>, n: int)
    requires
        0 <= n,
    ensures
        0 <= hugged(w, bodies, n) <= n,
    decreases n,
{
    if n > 0 {
        lemma_hugged(w, bodies, n - 1);
    }
}

fn count_close_pairs(v: &Vec<Wire>) -> (r: u128)
    ensures
        r == pair_count(close_pair(emit::wires_v(v@)), v@.len() as int),
{
    let ghost m = emit::wires_v(v@);
    let ghost f = close_pair(m);
    let mut n: u128 = 0;
    let mut j: usize = 0;
    while j < v.len()
        invariant
            j <= v@.len(),
            m == emit::wires_v(v@),
            f == close_pair(m),
            n == pair_count(f, j as int),
        decreases v@.len() - j,
    {
        let ghost n0 = n as int;
        let mut k: usize = 0;
        proof {
            lemma_pairs(f, j as int);
            lemma_square(j as int);
        }
        while k < j
            invariant
                k <= j < v@.len(),
                m == emit::wires_v(v@),
                f == close_pair(m),
                0 <= n0 <= j * j,
                j * j + j <= 0xffff_ffff_ffff_ffff_ffff_ffff_ffff_ffff,
                n0 <= n <= n0 + k,
                n == n0 + row_count(f, j as int, k as int),
            decreases j - k,
        {
            assert(m[k as int] == v@[k as int]@ && m[j as int] == v@[j as int]@);
            if parallel_too_close(v[k].a, v[k].b, v[j].a, v[j].b, 254_000) {
                n += 1;
            }
            k += 1;
        }
        j += 1;
    }
    n
}

/// How many pairs of wires run too close, and how often a wire runs too close to a part's body.
/// `None` where there are more of them than a count holds.
pub fn count_close_wires(v: &Vec<Wire>, bodies: &Vec<(Pt, Pt)>) -> (r: Option<u128>)
    ensures
        ({
            let m = emit::wires_v(v@);
            let want = pair_count(close_pair(m), v@.len() as int) + all_hugged(
                m,
                bodies@,
                v@.len() as int,
            );
            match r {
                Some(n) => n == want,
                None => want > u128::MAX,
            }
        }),
{
    let ghost m = emit::wires_v(v@);
    let pairs = count_close_pairs(v);
    let mut n = pairs;
    let mut i: usize = 0;
    while i < v.len()
        invariant
            i <= v@.len(),
            m == emit::wires_v(v@),
            pairs == pair_count(close_pair(m), v@.len() as int),
            n == pairs + all_hugged(m, bodies@, i as int),
        decreases v@.len() - i,
    {
        assert(m[i as int] == v@[i as int]@);
        let mut h: usize = 0;
        let mut k: usize = 0;
        while k < bodies.len()
            invariant
                i < v@.len(),
                h <= k <= bodies@.len(),
                h == hugged(v@[i as int]@, bodies@, k as int),
            decreases bodies@.len() - k,
        {
            if parallel_too_close(v[i].a, v[i].b, bodies[k].0, bodies[k].1, 381_000) {
                h += 1;
            }
            k += 1;
        }
        if n > u128::MAX - h as u128 {
            proof {
                lemma_all_hugged(m, bodies@, i + 1, v@.len() as int);
            }
            return None;
        }
        n += h as u128;
        i += 1;
    }
    Some(n)
}

proof fn lemma_all_hugged(v: Seq<WireV>, bodies: Seq<(Pt, Pt)>, n: int, m: int)
    requires
        0 <= n <= m,
    ensures
        all_hugged(v, bodies, n) <= all_hugged(v, bodies, m),
    decreases m - n,
{
    if n < m {
        lemma_all_hugged(v, bodies, n, m - 1);
        lemma_hugged(v[m - 1], bodies, bodies.len() as int);
    }
}

/// Whether two dots are closer than three grid steps.
pub open spec fn dots_close(a: Pt, b: Pt) -> bool {
    let (dx, dy) = (a.x - b.x, a.y - b.y);
    dx * dx + dy * dy < 381_000 * 381_000
}

fn are_close(a: Pt, b: Pt) -> (r: bool)
    ensures
        r == dots_close(a, b),
{
    let dx: i128 = a.x as i128 - b.x as i128;
    let dy: i128 = a.y as i128 - b.y as i128;
    if dx < -381_000 || dx > 381_000 || dy < -381_000 || dy > 381_000 {
        assert(!dots_close(a, b)) by {
            assert(dx * dx >= 0 && dy * dy >= 0 && (dx < -381_000 || dx > 381_000 ==> dx * dx
                >= 381_000 * 381_000) && (dy < -381_000 || dy > 381_000 ==> dy * dy >= 381_000
                * 381_000)) by (nonlinear_arith);
        }
        return false;
    }
    assert(0 <= dx * dx <= 381_000 * 381_000 && 0 <= dy * dy <= 381_000 * 381_000)
        by (nonlinear_arith)
        requires
            -381_000 <= dx <= 381_000,
            -381_000 <= dy <= 381_000,
    ;
    dx * dx + dy * dy < 381_000 * 381_000
}

pub open spec fn dot_pair(v: Seq<Pt>) -> spec_fn(int, int) -> bool {
    |i: int, j: int| dots_close(v[i], v[j])
}

/// How many pairs of dots are crammed together.
pub fn count_congestion(v: &Vec<Pt>) -> (r: u128)
    ensures
        r == pair_count(dot_pair(v@), v@.len() as int),
{
    let ghost f = dot_pair(v@);
    let mut n: u128 = 0;
    let mut j: usize = 0;
    while j < v.len()
        invariant
            j <= v@.len(),
            f == dot_pair(v@),
            n == pair_count(f, j as int),
        decreases v@.len() - j,
    {
        let ghost n0 = n as int;
        let mut k: usize = 0;
        proof {
            lemma_pairs(f, j as int);
            lemma_square(j as int);
        }
        while k < j
            invariant
                k <= j < v@.len(),
                f == dot_pair(v@),
                0 <= n0 <= j * j,
                j * j + j <= 0xffff_ffff_ffff_ffff_ffff_ffff_ffff_ffff,
                n0 <= n <= n0 + k,
                n == n0 + row_count(f, j as int, k as int),
            decreases j - k,
        {
            if are_close(v[k], v[j]) {
                n += 1;
            }
            k += 1;
        }
        j += 1;
    }
    n
}

// ---------------------------------------------------------------- nets that run together
pub open spec fn fused_pair(v: Seq<WireV>) -> spec_fn(int, int) -> bool {
    |i: int, j: int| v[i].net != v[j].net && fused(v[i].a, v[i].b, v[j].a, v[j].b)
}

/// Whether a wire with a net runs through a point.
pub open spec fn runs_through(w: WireV, p: Pt) -> bool {
    w.net is Some && emit::on_line(p, w.a, w.b)
}

/// Whether wires of different nets run through a point.
pub open spec fn mixed(v: Seq<WireV>, p: Pt) -> bool {
    exists|i: int, k: int|
        0 <= i < v.len() && 0 <= k < v.len() && #[trigger] runs_through(v[i], p)
            && #[trigger] runs_through(v[k], p) && v[i].net != v[k].net
}

/// How many of the first `n` dots join different nets.
pub open spec fn mixed_dots(v: Seq<WireV>, dots: Seq<Pt>, n: int) -> int
    decreases n,
{
    if n <= 0 {
        0
    } else {
        mixed_dots(v, dots, n - 1) + (if mixed(v, dots[n - 1]) {
            1int
        } else {
            0
        })
    }
}

fn is_mixed(v: &Vec<Wire>, p: Pt) -> (r: bool)
    ensures
        r == mixed(emit::wires_v(v@), p),
{
    let ghost m = emit::wires_v(v@);
    let mut first: usize = v.len();
    let mut i: usize = 0;
    while i < v.len()
        invariant
            i <= v@.len(),
            m == emit::wires_v(v@),
            first <= v@.len(),
            first < v@.len() ==> first < i && runs_through(m[first as int], p),
            forall|k: int|
                0 <= k < i && #[trigger] runs_through(m[k], p) ==> first < v@.len() && m[k].net
                    == m[first as int].net,
        decreases v@.len() - i,
    {
        assert(m[i as int] == v@[i as int]@);
        if v[i].net.is_some() && point_on_segment(p, v[i].a, v[i].b) {
            assert(runs_through(m[i as int], p));
            if first == v.len() {
                first = i;
            } else {
                assert(m[first as int] == v@[first as int]@);
                if !same_net(&v[first], &v[i]) {
                    assert(runs_through(m[first as int], p));
                    return true;
                }
            }
        }
        i += 1;
    }
    false
}

fn count_fused(v: &Vec<Wire>) -> (r: u128)
    ensures
        r == pair_count(fused_pair(emit::wires_v(v@)), v@.len() as int),
{
    let ghost m = emit::wires_v(v@);
    let ghost f = fused_pair(m);
    let mut n: u128 = 0;
    let mut j: usize = 0;
    while j < v.len()
        invariant
            j <= v@.len(),
            m == emit::wires_v(v@),
            f == fused_pair(m),
            n == pair_count(f, j as int),
        decreases v@.len() - j,
    {
        let ghost n0 = n as int;
        let mut k: usize = 0;
        proof {
            lemma_pairs(f, j as int);
            lemma_square(j as int);
        }
        while k < j
            invariant
                k <= j < v@.len(),
                m == emit::wires_v(v@),
                f == fused_pair(m),
                0 <= n0 <= j * j,
                j * j + j <= 0xffff_ffff_ffff_ffff_ffff_ffff_ffff_ffff,
                n0 <= n <= n0 + k,
                n == n0 + row_count(f, j as int, k as int),
            decreases j - k,
        {
            assert(m[k as int] == v@[k as int]@ && m[j as int] == v@[j as int]@);
            if !same_net(&v[k], &v[j]) && collinear_overlap(v[k].a, v[k].b, v[j].a, v[j].b) {
                n += 1;
            }
            k += 1;
        }
        j += 1;
    }
    n
}

/// How often nets run together: pairs of wires on one line, and dots that join different nets.
pub fn count_merges(v: &Vec<Wire>, dots: &Vec<Pt>) -> (r: u128)
    ensures
        r == pair_count(fused_pair(emit::wires_v(v@)), v@.len() as int) + mixed_dots(
            emit::wires_v(v@),
            dots@,
            dots@.len() as int,
        ),
{
    let ghost m = emit::wires_v(v@);
    let a = count_fused(v);
    let size = v.len();
    proof {
        lemma_pairs(fused_pair(m), size as int);
        lemma_square(size as int);
        lemma_room(size as int);
    }
    let mut n: u128 = 0;
    let mut i: usize = 0;
    while i < dots.len()
        invariant
            i <= dots@.len(),
            m == emit::wires_v(v@),
            n == mixed_dots(m, dots@, i as int),
            n <= i,
        decreases dots@.len() - i,
    {
        if is_mixed(v, dots[i]) {
            n += 1;
        }
        i += 1;
    }
    assert(i <= usize::MAX);
    a + n
}

proof fn lemma_room(n: int)
    requires
        0 <= n <= usize::MAX,
    ensures
        n * n + usize::MAX <= 0xffff_ffff_ffff_ffff_ffff_ffff_ffff_ffff,
{
    assert(n * n <= 0xffff_ffff_ffff_ffff * 0xffff_ffff_ffff_ffff) by (nonlinear_arith)
        requires
            0 <= n <= 0xffff_ffff_ffff_ffff,
    ;
}

/// Whether a wire of another net ends at a point.
pub open spec fn shorted(w: WireV, net: Seq<char>, p: Pt) -> bool {
    w.net != Some(net) && (p == w.a || p == w.b)
}

/// How many of the first `n` wires end at a pin of another net.
pub open spec fn shorts_at(v: Seq<WireV>, net: Seq<char>, p: Pt, n: int) -> int
    decreases n,
{
    if n <= 0 {
        0
    } else {
        shorts_at(v, net, p, n - 1) + (if shorted(v[n - 1], net, p) {
            1int
        } else {
            0
        })
    }
}

/// The same for the first `n` pins.
pub open spec fn shorts(v: Seq<WireV>, pins: Seq<(String, Pt)>, n: int) -> int
    decreases n,
{
    if n <= 0 {
        0
    } else {
        shorts(v, pins, n - 1) + shorts_at(v, pins[n - 1].0@, pins[n - 1].1, v.len() as int)
    }
}

/// How many wires end at a pin of another net. The pins come with their nets and where they end.
pub fn count_shorts(v: &Vec<Wire>, pins: &Vec<(String, Pt)>) -> (r: u128)
    ensures
        r == shorts(emit::wires_v(v@), pins@, pins@.len() as int),
{
    let ghost m = emit::wires_v(v@);
    let size = v.len();
    let mut n: u128 = 0;
    let mut i: usize = 0;
    while i < pins.len()
        invariant
            i <= pins@.len(),
            size == v@.len(),
            m == emit::wires_v(v@),
            n == shorts(m, pins@, i as int),
            0 <= n <= i * size,
        decreases pins@.len() - i,
    {
        let net = pins[i].0.as_str();
        let p = pins[i].1;
        let ghost n0 = n as int;
        let mut k: usize = 0;
        assert(i * size + size <= 0xffff_ffff_ffff_ffff_ffff_ffff_ffff_ffff && (i + 1) * size == i
            * size + size) by (nonlinear_arith)
            requires
                0 <= i <= 0xffff_ffff_ffff_fffe,
                0 <= size <= 0xffff_ffff_ffff_ffff,
        ;
        while k < size
            invariant
                k <= size,
                size == v@.len(),
                i < pins@.len(),
                m == emit::wires_v(v@),
                net@ == pins@[i as int].0@,
                p == pins@[i as int].1,
                n == n0 + shorts_at(m, net@, p, k as int),
                n0 <= n <= n0 + k,
                0 <= n0 <= i * size,
                i * size + size <= 0xffff_ffff_ffff_ffff_ffff_ffff_ffff_ffff,
            decreases size - k,
        {
            assert(m[k as int] == v@[k as int]@);
            let own = match &v[k].net {
                Some(x) => same(x.as_str(), net),
                None => false,
            };
            let meets = (p.x == v[k].a.x && p.y == v[k].a.y) || (p.x == v[k].b.x && p.y
                == v[k].b.y);
            if !own && meets {
                n += 1;
            }
            k += 1;
        }
        i += 1;
    }
    n
}

// ---------------------------------------------------------------- the cost of a plan
/// The length of a wire; coordinates are cut to the sheet.
pub open spec fn wire_span(w: WireV) -> int {
    geom::mag(orient::cut(w.a.x as int) - orient::cut(w.b.x as int)) + geom::mag(
        orient::cut(w.a.y as int) - orient::cut(w.b.y as int),
    )
}

/// The length of the first `n` wires.
pub open spec fn length_of(v: Seq<WireV>, n: int) -> int
    decreases n,
{
    if n <= 0 {
        0
    } else {
        length_of(v, n - 1) + wire_span(v[n - 1])
    }
}

/// The length of all wires.
pub fn wire_length(v: &Vec<Wire>) -> (r: u128)
    ensures
        r == length_of(emit::wires_v(v@), v@.len() as int),
{
    let ghost m = emit::wires_v(v@);
    let mut n: u128 = 0;
    let mut i: usize = 0;
    while i < v.len()
        invariant
            i <= v@.len(),
            m == emit::wires_v(v@),
            n == length_of(m, i as int),
            n <= i * 0x200_0000_0000,
        decreases v@.len() - i,
    {
        assert(m[i as int] == v@[i as int]@);
        let dx: i64 = cut_off(v[i].a.x) - cut_off(v[i].b.x);
        let dy: i64 = cut_off(v[i].a.y) - cut_off(v[i].b.y);
        let d: i64 = abs_i(dx) + abs_i(dy);
        assert(d == wire_span(m[i as int]));
        n = n + d as u128;
        i += 1;
    }
    n
}

/// What a plan is judged by.
#[derive(Debug, Clone, Copy)]
pub struct PlanCounts {
    pub merges: u64,
    /// Nets that fell back to labels.
    pub fallbacks: u64,
    pub crossings: u64,
    pub congestion: u64,
    pub junctions: u64,
    /// How far parts stand from the pins they belong to.
    pub stray: u64,
    pub length: u64,
}

/// The cost of a plan, in ten-millionths: nets that run together weigh most, then labels for
/// wires; a millimetre of wire weighs least.
pub open spec fn cost_of(c: PlanCounts) -> int {
    20_000_000_000 * c.merges + 10_000_000_000 * c.fallbacks + 50_000_000 * c.crossings
        + 70_000_000 * c.congestion + 10_000_000 * c.junctions + 40 * c.stray + 15 * c.length
}

/// The cost of a plan.
pub fn layout_cost(c: &PlanCounts) -> (r: u128)
    ensures
        r == cost_of(*c),
{
    20_000_000_000 * c.merges as u128 + 10_000_000_000 * c.fallbacks as u128 + 50_000_000
        * c.crossings as u128 + 70_000_000 * c.congestion as u128 + 10_000_000 * c.junctions as u128
        + 40 * c.stray as u128 + 15 * c.length as u128
}

// ---------------------------------------------------------------- bodies
/// The body of a part: where it stands, its size, and whether it is turned a quarter.
#[derive(Debug, Clone, Copy)]
pub struct Body {
    pub at: Pt,
    pub width: i64,
    pub height: i64,
    pub quarter: bool,
}

/// The size of a body without its pins: two steps off each side, and at least one step each way.
pub open spec fn solid(size: i64) -> int {
    geom::hi(size - 508_000, 254_000)
}

pub open spec fn solid_width(b: Body) -> int {
    solid(
        if b.quarter {
            b.height
        } else {
            b.width
        },
    )
}

pub open spec fn solid_height(b: Body) -> int {
    solid(
        if b.quarter {
            b.width
        } else {
            b.height
        },
    )
}

/// Whether two bodies overlap, the first one at a given place.
pub open spec fn bodies_overlap(a: Body, at: Pt, b: Body) -> bool {
    &&& 2 * geom::mag(at.x - b.at.x) < solid_width(a) + solid_width(b)
    &&& 2 * geom::mag(at.y - b.at.y) < solid_height(a) + solid_height(b)
}

fn solid_of(size: i64) -> (r: i128)
    ensures
        r == solid(size),
{
    let s = size as i128 - 508_000;
    if s > 254_000 {
        s
    } else {
        254_000
    }
}

/// Whether a part would overlap another one at a place.
pub fn overlaps_any(v: &Vec<Body>, k: usize, at: Pt) -> (r: bool)
    requires
        k < v@.len(),
    ensures
        r == exists|j: int|
            0 <= j < v@.len() && j != k && bodies_overlap(v@[k as int], at, #[trigger] v@[j]),
{
    let a = v[k];
    let mut j: usize = 0;
    while j < v.len()
        invariant
            j <= v@.len(),
            k < v@.len(),
            a == v@[k as int],
            forall|i: int|
                0 <= i < j && i != k ==> !bodies_overlap(v@[k as int], at, #[trigger] v@[i]),
        decreases v@.len() - j,
    {
        let b = v[j];
        let (aw, ah) = if a.quarter {
            (a.height, a.width)
        } else {
            (a.width, a.height)
        };
        let (bw, bh) = if b.quarter {
            (b.height, b.width)
        } else {
            (b.width, b.height)
        };
        let dx: i128 = if at.x < b.at.x {
            b.at.x as i128 - at.x as i128
        } else {
            at.x as i128 - b.at.x as i128
        };
        let dy: i128 = if at.y < b.at.y {
            b.at.y as i128 - at.y as i128
        } else {
            at.y as i128 - b.at.y as i128
        };
        if j != k && 2 * dx < solid_of(aw) + solid_of(bw) && 2 * dy < solid_of(ah) + solid_of(bh) {
            assert(bodies_overlap(v@[k as int], at, v@[j as int]));
            return true;
        }
        j += 1;
    }
    false
}

// ---------------------------------------------------------------- directions
pub open spec fn edge_dir(s: Side) -> Dir {
    match s {
        Side::Right => Dir::East,
        Side::Left => Dir::West,
        Side::Top => Dir::North,
        Side::Bottom => Dir::South,
    }
}

/// The direction toward an edge.
pub fn side_dir(s: Side) -> (d: Dir)
    ensures
        d == edge_dir(s),
{
    match s {
        Side::Right => Dir::East,
        Side::Left => Dir::West,
        Side::Top => Dir::North,
        Side::Bottom => Dir::South,
    }
}

/// The direction from a point toward another, along the longer way.
pub open spec fn heading(a: Pt, b: Pt) -> Dir {
    if geom::mag(b.x - a.x) >= geom::mag(b.y - a.y) {
        if b.x >= a.x {
            Dir::East
        } else {
            Dir::West
        }
    } else if b.y >= a.y {
        Dir::South
    } else {
        Dir::North
    }
}

/// The direction from a point toward another, along the longer way.
pub fn dir_toward(a: Pt, b: Pt) -> (d: Dir)
    ensures
        d == heading(a, b),
{
    let dx: i128 = b.x as i128 - a.x as i128;
    let dy: i128 = b.y as i128 - a.y as i128;
    let ax: i128 = if dx < 0 { -dx } else { dx };
    let ay: i128 = if dy < 0 { -dy } else { dy };
    if ax >= ay {
        if b.x >= a.x {
            Dir::East
        } else {
            Dir::West
        }
    } else if b.y >= a.y {
        Dir::South
    } else {
        Dir::North
    }
}

/// Counting crossings does not depend on which wire comes first.
pub proof fn crossing_is_symmetric(a1: Pt, a2: Pt, b1: Pt, b2: Pt)
    requires
        !(a1.x == a2.x && a1.y == a2.y),
        !(b1.x == b2.x && b1.y == b2.y),
    ensures
        crossing(a1, a2, b1, b2) == crossing(b1, b2, a1, a2),
        fused(a1, a2, b1, b2) == fused(b1, b2, a1, a2),
{
}

} // verus!
