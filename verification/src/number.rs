//! Decimal numbers: reading and writing them, and rounding to a number of places.
use crate::geom;
use crate::text;
use crate::text::{chars_of, decimal_u64};
use vstd::prelude::*;

verus! {

/// Largest number that is held, in millionths.
pub const NUM_MAX: i64 = 9_000_000_000_000_000;

/// Largest number that is written, in millionths.
pub const WRITE_MAX: i64 = 25_000_000_000_000_000;

pub open spec fn pow10(n: int) -> int
    decreases n,
{
    if n <= 0 {
        1
    } else {
        10 * pow10(n - 1)
    }
}

/// First position from `i` on that holds no digit.
pub open spec fn run_end(s: Seq<char>, i: int) -> int
    decreases s.len() - i,
{
    if 0 <= i < s.len() && text::is_digit(s[i]) {
        run_end(s, i + 1)
    } else {
        i
    }
}

/// The value of a row of digits.
pub open spec fn value(d: Seq<char>) -> int
    decreases d.len(),
{
    if d.len() == 0 {
        0
    } else {
        value(d.drop_last()) * 10 + (d.last() as int - 48)
    }
}

/// The nearest integer to `m / d`, to the even one at the half.
pub open spec fn nearest(m: int, d: int) -> int {
    let q = m / d;
    let r = m % d;
    if 2 * r < d || (2 * r == d && q % 2 == 0) {
        q
    } else {
        q + 1
    }
}

/// `m` times a power of ten, rounded to an integer where the power is negative.
pub open spec fn scaled(m: int, shift: int) -> int {
    if shift >= 0 {
        m * pow10(shift)
    } else {
        nearest(m, pow10(-shift))
    }
}

pub open spec fn is_sign(s: Seq<char>, i: int) -> bool {
    0 <= i < s.len() && (s[i] == '-' || s[i] == '+')
}

/// Where the parts of a number stand: start and end of its whole digits, of its decimals and of the
/// digits of its exponent.
pub struct Spans {
    pub i0: int,
    pub i1: int,
    pub i2: int,
    pub i3: int,
    pub e: bool,
    pub j1: int,
    pub j2: int,
}

pub open spec fn spans(s: Seq<char>) -> Spans {
    let i0 = if is_sign(s, 0) {
        1int
    } else {
        0
    };
    let i1 = run_end(s, i0);
    let dot = i1 < s.len() && s[i1] == '.';
    let i2 = if dot {
        i1 + 1
    } else {
        i1
    };
    let i3 = if dot {
        run_end(s, i2)
    } else {
        i1
    };
    let e = i3 < s.len() && (s[i3] == 'e' || s[i3] == 'E');
    let j1 = if e && is_sign(s, i3 + 1) {
        i3 + 2
    } else {
        i3 + 1
    };
    Spans { i0, i1, i2, i3, e, j1, j2: run_end(s, j1) }
}

/// The text is a decimal number of at most eighteen digits and three digits of exponent.
pub open spec fn is_number(s: Seq<char>) -> bool {
    let p = spans(s);
    let n = (p.i1 - p.i0) + (p.i3 - p.i2);
    &&& 1 <= n <= 18
    &&& if p.e {
        p.j1 < p.j2 <= p.j1 + 3 && p.j2 == s.len()
    } else {
        p.i3 == s.len()
    }
}

/// The millionths of a decimal number, of the size without its sign.
pub open spec fn size_of(s: Seq<char>) -> int {
    let p = spans(s);
    let m = value(s.subrange(p.i0, p.i1) + s.subrange(p.i2, p.i3));
    let x = if p.e {
        value(s.subrange(p.j1, p.j2))
    } else {
        0
    };
    let e = if p.e && s[p.i3 + 1] == '-' {
        -x
    } else {
        x
    };
    scaled(m, 6 - (p.i3 - p.i2) + e)
}

/// The number a text stands for, in millionths; a number too large or too long is none.
pub open spec fn number_of(s: Seq<char>) -> Option<int> {
    if is_number(s) && size_of(s) <= NUM_MAX {
        Some(
            if s[0] == '-' {
                -size_of(s)
            } else {
                size_of(s)
            },
        )
    } else {
        None
    }
}

proof fn lemma_run_end(s: Seq<char>, i: int)
    requires
        0 <= i <= s.len(),
    ensures
        i <= run_end(s, i) <= s.len(),
        forall|k: int| i <= k < run_end(s, i) ==> text::is_digit(#[trigger] s[k]),
        run_end(s, i) < s.len() ==> !text::is_digit(s[run_end(s, i)]),
    decreases s.len() - i,
{
    if i < s.len() && text::is_digit(s[i]) {
        lemma_run_end(s, i + 1);
    }
}

fn end_of_run(v: &Vec<char>, i: usize) -> (r: usize)
    requires
        i <= v@.len(),
    ensures
        r == run_end(v@, i as int),
        i <= r <= v@.len(),
        forall|k: int| i <= k < r ==> text::is_digit(#[trigger] v@[k]),
{
    let mut r: usize = i;
    while r < v.len() && '0' <= v[r] && v[r] <= '9'
        invariant
            i <= r <= v@.len(),
            run_end(v@, i as int) == run_end(v@, r as int),
            forall|k: int| i <= k < r ==> text::is_digit(#[trigger] v@[k]),
        decreases v@.len() - r,
    {
        r += 1;
    }
    r
}

proof fn lemma_value_push(d: Seq<char>, c: char)
    ensures
        value(d.push(c)) == value(d) * 10 + (c as int - 48),
{
    assert(d.push(c).drop_last() =~= d);
}

/// Value so far, joined by the digits `from..to`.
fn add_digits(v: &Vec<char>, from: usize, to: usize, start: u64, Ghost(d): Ghost<Seq<char>>) -> (r: u64)
    requires
        from <= to <= v@.len(),
        forall|k: int| from <= k < to ==> text::is_digit(#[trigger] v@[k]),
        start == value(d),
        0 <= start < pow10(d.len() as int),
        d.len() + (to - from) <= 18,
    ensures
        r == value(d + v@.subrange(from as int, to as int)),
        r < pow10(d.len() + (to - from)),
{
    let mut r: u64 = start;
    let mut i: usize = from;
    assert(d + v@.subrange(from as int, from as int) =~= d);
    proof {
        lemma_pow10_18();
    }
    while i < to
        invariant
            from <= i <= to <= v@.len(),
            forall|k: int| from <= k < to ==> text::is_digit(#[trigger] v@[k]),
            d.len() + (to - from) <= 18,
            r == value(d + v@.subrange(from as int, i as int)),
            0 <= r < pow10(d.len() + (i - from)),
            pow10(18) == 1_000_000_000_000_000_000,
        decreases to - i,
    {
        let c = v[i];
        proof {
            let done = d + v@.subrange(from as int, i as int);
            assert(d + v@.subrange(from as int, i + 1) =~= done.push(c));
            lemma_value_push(done, c);
            assert(text::is_digit(v@[i as int]));
            lemma_pow10_mono(d.len() + (i - from) + 1, 18);
        }
        r = r * 10 + ((c as u64) - 48);
        i += 1;
    }
    r
}

proof fn lemma_pow10_mono(a: int, b: int)
    requires
        a <= b,
    ensures
        1 <= pow10(a) <= pow10(b),
    decreases b - a, b,
{
    if b > 0 {
        if a < b {
            lemma_pow10_mono(a, b - 1);
        } else {
            lemma_pow10_mono(a - 1, b - 1);
        }
    }
}

proof fn lemma_pow10_18()
    ensures
        pow10(18) == 1_000_000_000_000_000_000,
        pow10(3) == 1000,
        pow10(6) == 1_000_000,
{
    reveal_with_fuel(pow10, 19);
}

proof fn lemma_grow(m: int, a: int, b: int)
    requires
        0 <= m,
        a <= b,
    ensures
        m * pow10(a) <= m * pow10(b),
{
    lemma_pow10_mono(a, b);
    assert(m * pow10(a) <= m * pow10(b)) by (nonlinear_arith)
        requires
            0 <= m,
            pow10(a) <= pow10(b),
    ;
}

/// Scales a row of digits; sizes beyond the limit give none.
fn scale(m: u64, shift: i64) -> (r: Option<i64>)
    requires
        m < 1_000_000_000_000_000_000,
        -2000 <= shift <= 2000,
    ensures
        match r {
            Some(v) => v == scaled(m as int, shift as int) && 0 <= v <= NUM_MAX,
            None => scaled(m as int, shift as int) > NUM_MAX,
        },
{
    if shift >= 0 {
        if m == 0 {
            assert(0 * pow10(shift as int) == 0);
            return Some(0);
        }
        let mut r: i128 = m as i128;
        let mut k: i64 = 0;
        assert(m * pow10(0) == m) by {
            assert(pow10(0) == 1);
        }
        while k < shift
            invariant
                0 <= k <= shift,
                m >= 1,
                r == m * pow10(k as int),
                1 <= r,
                r <= NUM_MAX || k == 0,
                r < 1_000_000_000_000_000_000,
            decreases shift - k,
        {
            r = r * 10;
            proof {
                assert(m * pow10(k + 1) == 10 * (m * pow10(k as int))) by (nonlinear_arith)
                    requires
                        pow10(k + 1) == 10 * pow10(k as int),
                ;
            }
            k += 1;
            if r > NUM_MAX as i128 {
                proof {
                    lemma_grow(m as int, k as int, shift as int);
                }
                return None;
            }
        }
        if r > NUM_MAX as i128 {
            None
        } else {
            Some(r as i64)
        }
    } else {
        let n: i64 = -shift;
        if n >= 20 {
            proof {
                lemma_pow10_18();
                lemma_pow10_mono(20, n as int);
                assert(pow10(20) == 100 * pow10(18)) by {
                    reveal_with_fuel(pow10, 3);
                }
                vstd::arithmetic::div_mod::lemma_small_mod(m as nat, pow10(n as int) as nat);
                vstd::arithmetic::div_mod::lemma_basic_div(m as int, pow10(n as int));
            }
            return Some(0);
        }
        let mut d: i128 = 1;
        let mut k: i64 = 0;
        proof {
            lemma_pow10_18();
            assert(pow10(19) == 10 * pow10(18));
        }
        while k < n
            invariant
                0 <= k <= n < 20,
                d == pow10(k as int),
                pow10(19) == 10_000_000_000_000_000_000,
            decreases n - k,
        {
            proof {
                lemma_pow10_mono(k + 1, 19);
            }
            d = d * 10;
            k += 1;
        }
        proof {
            lemma_pow10_mono(0, n as int);
            lemma_pow10_mono(n as int, 19);
        }
        let q: i128 = (m as i128) / d;
        let r: i128 = (m as i128) % d;
        proof {
            assert(0 <= (m as int) / (d as int) && (m as int) / (d as int) <= m) by (nonlinear_arith)
                requires
                    d >= 1,
                    m >= 0,
            ;
            assert(0 <= (m as int) % (d as int) && (m as int) % (d as int) < d) by (nonlinear_arith)
                requires
                    d >= 1,
            ;
        }
        let v: i128 = if 2 * r < d || (2 * r == d && q % 2 == 0) { q } else { q + 1 };
        if v > NUM_MAX as i128 {
            None
        } else {
            Some(v as i64)
        }
    }
}

/// Where the parts of a number stand.
struct Places {
    i0: usize,
    i1: usize,
    i2: usize,
    i3: usize,
    e: bool,
    j1: usize,
    j2: usize,
}

impl Places {
    spec fn matches(&self, p: Spans) -> bool {
        &&& self.i0 == p.i0
        &&& self.i1 == p.i1
        &&& self.i2 == p.i2
        &&& self.i3 == p.i3
        &&& self.e == p.e
        &&& p.e ==> self.j1 == p.j1 && self.j2 == p.j2
    }
}

fn places_of(v: &Vec<char>) -> (r: Places)
    ensures
        r.matches(spans(v@)),
        r.i0 <= r.i1 <= r.i2 <= r.i3 <= v@.len(),
        r.e ==> r.i3 < r.j1 <= r.j2 <= v@.len(),
        forall|k: int| r.i0 <= k < r.i1 ==> text::is_digit(#[trigger] v@[k]),
        forall|k: int| r.i2 <= k < r.i3 ==> text::is_digit(#[trigger] v@[k]),
        r.e ==> forall|k: int| r.j1 <= k < r.j2 ==> text::is_digit(#[trigger] v@[k]),
{
    let n: usize = v.len();
    let i0: usize = if n > 0 && (v[0] == '-' || v[0] == '+') { 1 } else { 0 };
    let i1: usize = end_of_run(v, i0);
    let dot = i1 < n && v[i1] == '.';
    let i2: usize = if dot { i1 + 1 } else { i1 };
    let i3: usize = if dot { end_of_run(v, i2) } else { i1 };
    let e = i3 < n && (v[i3] == 'e' || v[i3] == 'E');
    let mut j1: usize = i3;
    let mut j2: usize = i3;
    if e {
        j1 = if i3 + 1 < n && (v[i3 + 1] == '-' || v[i3 + 1] == '+') { i3 + 2 } else { i3 + 1 };
        j2 = end_of_run(v, j1);
    }
    Places { i0, i1, i2, i3, e, j1, j2 }
}

/// The value of at most eighteen digits.
fn read_digits(v: &Vec<char>, from: usize, to: usize) -> (r: u64)
    requires
        from <= to <= v@.len(),
        to - from <= 18,
        forall|k: int| from <= k < to ==> text::is_digit(#[trigger] v@[k]),
    ensures
        r == value(v@.subrange(from as int, to as int)),
        r < pow10(to - from),
{
    let r: u64 = add_digits(v, from, to, 0, Ghost(Seq::empty()));
    assert(Seq::<char>::empty() + v@.subrange(from as int, to as int) =~= v@.subrange(
        from as int,
        to as int,
    ));
    r
}

/// The number a text stands for, in millionths.
pub fn read_number(s: &str) -> (r: Option<i64>)
    ensures
        match r {
            Some(v) => number_of(s@) == Some(v as int) && -NUM_MAX <= v <= NUM_MAX,
            None => number_of(s@) is None,
        },
{
    let v = chars_of(s);
    let p = places_of(&v);
    let ghost sp = spans(s@);
    let whole: usize = p.i1 - p.i0;
    let decs: usize = p.i3 - p.i2;
    if whole > 18 || decs > 18 || whole + decs < 1 || whole + decs > 18 {
        return None;
    }
    if p.e {
        if p.j2 == p.j1 || p.j2 - p.j1 > 3 || p.j2 != v.len() {
            return None;
        }
    } else if p.i3 != v.len() {
        return None;
    }
    assert(is_number(s@));
    let mut x: i64 = 0;
    if p.e {
        let u: u64 = read_digits(&v, p.j1, p.j2);
        proof {
            lemma_pow10_18();
            lemma_pow10_mono(p.j2 - p.j1, 3);
        }
        x = if v[p.i3 + 1] == '-' { -(u as i64) } else { u as i64 };
    }
    let a: u64 = read_digits(&v, p.i0, p.i1);
    let m: u64 = add_digits(&v, p.i2, p.i3, a, Ghost(v@.subrange(p.i0 as int, p.i1 as int)));
    proof {
        lemma_pow10_18();
        lemma_pow10_mono(whole + decs, 18);
    }
    let size = scale(m, 6 - (decs as i64) + x);
    assert(scaled(m as int, 6 - decs + x) == size_of(s@));
    match size {
        Some(r) => if v[0] == '-' {
            Some(-r)
        } else {
            Some(r)
        },
        None => None,
    }
}

// ---------------------------------------------------------------- writing

/// The decimals of a number of millionths below one, without trailing zeros.
pub open spec fn decimals(f: int, places: int) -> Seq<char>
    decreases places,
{
    if f == 0 || places <= 0 {
        Seq::empty()
    } else {
        let unit = pow10(places - 1);
        seq![text::digit((f / unit) as nat)] + decimals(f % unit, places - 1)
    }
}

/// A number of millionths as it is written: at most six decimals, no trailing zeros.
pub open spec fn shown(v: int) -> Seq<char> {
    let a = geom::mag(v);
    let f = a % 1_000_000;
    let body = text::digits((a / 1_000_000) as nat) + (if f == 0 {
        Seq::<char>::empty()
    } else {
        seq!['.'] + decimals(f, 6)
    });
    if v < 0 {
        seq!['-'] + body
    } else {
        body
    }
}

/// Writes a number of millionths.
pub fn fmt_num(v: i64) -> (r: String)
    requires
        v > i64::MIN,
    ensures
        r@ == shown(v as int),
{
    let a: u64 = if v < 0 { (-v) as u64 } else { v as u64 };
    let mut r = String::new();
    if v < 0 {
        r.push('-');
    }
    r.append(decimal_u64(a / 1_000_000).as_str());
    let mut f: u64 = a % 1_000_000;
    if f == 0 {
        assert(r@ =~= shown(v as int));
        return r;
    }
    r.push('.');
    let ghost head = r@;
    let ghost f0 = f as int;
    let mut unit: u64 = 100_000;
    let mut places: u64 = 6;
    proof {
        lemma_pow10_18();
        reveal_with_fuel(pow10, 7);
        assert(head + decimals(f0, 6) =~= r@ + decimals(f as int, 6));
    }
    while f > 0 && places > 0
        invariant
            places <= 6,
            places > 0 ==> unit == pow10(places - 1),
            places > 0 ==> f < 10 * unit,
            places == 0 ==> f == 0,
            1 <= unit <= 100_000,
            head + decimals(f0, 6) == r@ + decimals(f as int, places as int),
        decreases places,
    {
        assert(f / unit < 10 && f % unit < unit) by (nonlinear_arith)
            requires
                f < 10 * unit,
                unit >= 1,
        ;
        let c = (48u8 + (f / unit) as u8) as char;
        proof {
            assert(c == text::digit((f / unit) as nat));
            assert(decimals(f as int, places as int) == seq![c] + decimals(
                (f % unit) as int,
                places - 1,
            ));
            assert(r@ + (seq![c] + decimals((f % unit) as int, places - 1)) =~= r@.push(c) + decimals(
                (f % unit) as int,
                places - 1,
            ));
        }
        r.push(c);
        f = f % unit;
        places -= 1;
        if places > 0 {
            unit = unit / 10;
        }
    }
    assert(decimals(f as int, places as int) =~= Seq::<char>::empty());
    assert(r@ =~= shown(v as int));
    r
}

// ---------------------------------------------------------------- rounding to places

/// A positive number doubled until the mantissa of its hundred-thousandth fills a double.
pub open spec fn lifted(w: int) -> int
    decreases geom::hi(0, 450_359_962_737_049_600_000 - w),
{
    if w <= 0 || w >= 450_359_962_737_049_600_000 {
        w
    } else {
        lifted(2 * w)
    }
}

/// How the double nearest to `v` hundred-thousandths compares with it: -1, 0 or 1 as it lies
/// below, on or above.
pub open spec fn double_side(v: int) -> int {
    let w = lifted(v);
    let q = w / 100_000;
    let r = w % 100_000;
    if r == 0 {
        0
    } else if r < 50_000 || (r == 50_000 && q % 2 == 0) {
        -1
    } else {
        1
    }
}

/// A number of hundred-thousandths rounded to a multiple of `step` as the double nearest to it
/// rounds: at a half by the side on which the double lies, to the even multiple where it lies on it.
pub open spec fn rounded(v: int, step: int) -> int {
    let a = geom::mag(v);
    let q = a / step;
    let r = a % step;
    let up = 2 * r > step || (2 * r == step && (double_side(a) > 0 || (double_side(a) == 0 && q % 2
        != 0)));
    let size = (if up {
        q + 1
    } else {
        q
    }) * step;
    if v < 0 {
        -size
    } else {
        size
    }
}

fn side(v: i64) -> (r: i32)
    requires
        0 < v <= 0x10_0000_0000_0000,
    ensures
        r == double_side(v as int),
{
    let mut w: u128 = v as u128;
    while w < 450_359_962_737_049_600_000
        invariant
            0 < w < 900_719_925_474_099_200_000,
            lifted(v as int) == lifted(w as int),
        decreases geom::hi(0, 450_359_962_737_049_600_000 - w),
    {
        w = w * 2;
    }
    let q: u128 = w / 100_000;
    let r: u128 = w % 100_000;
    if r == 0 {
        0
    } else if r < 50_000 || (r == 50_000 && q % 2 == 0) {
        -1
    } else {
        1
    }
}

/// Rounds a number of hundred-thousandths to a multiple of `step`.
pub fn round_to(v: i64, step: i64) -> (r: i64)
    requires
        -0x10_0000_0000_0000 <= v <= 0x10_0000_0000_0000,
        step == 10 || step == 1000,
    ensures
        r == rounded(v as int, step as int),
        -1000 <= r - v <= 1000,
{
    let a: i64 = if v < 0 { -v } else { v };
    let q: i64 = a / step;
    let rem: i64 = a % step;
    let mut up = 2 * rem > step;
    if 2 * rem == step {
        let s: i32 = side(a);
        up = s > 0 || (s == 0 && q % 2 != 0);
    }
    let size: i64 = (if up { q + 1 } else { q }) * step;
    if v < 0 {
        -size
    } else {
        size
    }
}

// ---------------------------------------------------------------- what is shown reads back
proof fn lemma_run_to(s: Seq<char>, i: int, j: int)
    requires
        0 <= i <= j <= s.len(),
        forall|k: int| i <= k < j ==> text::is_digit(#[trigger] s[k]),
        j < s.len() ==> !text::is_digit(s[j]),
    ensures
        run_end(s, i) == j,
    decreases j - i,
{
    if i < j {
        lemma_run_to(s, i + 1, j);
    }
}

proof fn lemma_pow10_sum(a: int, b: int)
    requires
        0 <= a,
        0 <= b,
    ensures
        pow10(a) * pow10(b) == pow10(a + b),
    decreases a,
{
    if a > 0 {
        lemma_pow10_sum(a - 1, b);
        assert(10 * pow10(a - 1) * pow10(b) == 10 * (pow10(a - 1) * pow10(b))) by (nonlinear_arith);
    }
}

proof fn lemma_value_join(a: Seq<char>, b: Seq<char>)
    ensures
        value(a + b) == value(a) * pow10(b.len() as int) + value(b),
    decreases b.len(),
{
    if b.len() == 0 {
        assert(a + b =~= a);
    } else {
        let c = b.drop_last();
        lemma_value_join(a, c);
        assert((a + b).drop_last() =~= a + c);
        let (x, p) = (value(a), pow10(c.len() as int));
        assert(x * (10 * p) == (x * p) * 10) by (nonlinear_arith);
    }
}

/// A numeral holds digits only, at most as many as its bound has noughts, and has its number's
/// value.
pub proof fn numerals_have_their_value(n: nat, k: int)
    requires
        1 <= k,
        n < pow10(k),
    ensures
        value(text::digits(n)) == n,
        1 <= text::digits(n).len() <= k,
        forall|i: int| 0 <= i < text::digits(n).len() ==> text::is_digit(#[trigger] text::digits(n)[i]),
    decreases n,
{
    if n < 10 {
        let d = text::digits(n);
        assert(d.drop_last() =~= Seq::empty());
        assert(value(d.drop_last()) == 0);
    } else {
        if k == 1 {
            assert(pow10(0) == 1);
            assert(pow10(1) == 10);
        }
        numerals_have_their_value(n / 10, k - 1);
        let d = text::digits(n / 10);
        lemma_value_push(d, text::digit(n % 10));
    }
}

proof fn lemma_decimals(f: int, p: int)
    requires
        0 <= p,
        0 <= f < pow10(p),
    ensures
        decimals(f, p).len() <= p,
        f > 0 ==> decimals(f, p).len() > 0,
        forall|i: int| 0 <= i < decimals(f, p).len() ==> text::is_digit(#[trigger] decimals(f, p)[i]),
        value(decimals(f, p)) * pow10(p - decimals(f, p).len()) == f,
    decreases p,
{
    let d = decimals(f, p);
    if f == 0 || p <= 0 {
        assert(value(d) == 0);
        assert(0 * pow10(p - d.len()) == 0);
    } else {
        let unit = pow10(p - 1);
        lemma_pow10_mono(0, p - 1);
        let q = f / unit;
        let r = f % unit;
        assert(0 <= q < 10 && 0 <= r < unit && f == q * unit + r) by (nonlinear_arith)
            requires
                0 <= f < 10 * unit,
                unit >= 1,
                q == f / unit,
                r == f % unit,
        ;
        lemma_decimals(r, p - 1);
        let rest = decimals(r, p - 1);
        let one = seq![text::digit(q as nat)];
        assert(one.drop_last() =~= Seq::empty());
        assert(value(one.drop_last()) == 0);
        assert(value(one) == q);
        lemma_value_join(one, rest);
        let l = rest.len() as int;
        lemma_pow10_sum(l, p - 1 - l);
        let (a, b, c) = (pow10(l), value(rest), pow10(p - 1 - l));
        assert((q * a + b) * c == q * (a * c) + b * c) by (nonlinear_arith);
        assert(d.len() == l + 1);
        assert forall|i: int| 0 <= i < d.len() implies text::is_digit(#[trigger] d[i]) by {
            if i > 0 {
                assert(d[i] == rest[i - 1]);
            }
        }
    }
}

/// The parts of a number as it is shown.
pub proof fn lemma_shown(v: int)
    requires
        -NUM_MAX <= v <= NUM_MAX,
    ensures
        ({
            let s = shown(v);
            let whole = text::digits((geom::mag(v) / 1_000_000) as nat);
            let k = if v < 0 {
                1int
            } else {
                0
            };
            let w = k + whole.len();
            &&& 1 <= whole.len() <= 10
            &&& value(whole) == geom::mag(v) / 1_000_000
            &&& w <= s.len() <= w + 7
            &&& s.subrange(k, w) == whole
            &&& forall|i: int| k <= i < w ==> text::is_digit(#[trigger] s[i])
            &&& v < 0 ==> s[0] == '-'
            &&& v % 1_000_000 == 0 ==> s.len() == w
            &&& v % 1_000_000 != 0 ==> w + 1 < s.len() && s[w] == '.'
            &&& forall|i: int| w + 1 <= i < s.len() ==> text::is_digit(#[trigger] s[i])
        }),
{
    let a = geom::mag(v);
    let f = a % 1_000_000;
    lemma_pow10_18();
    reveal_with_fuel(pow10, 11);
    numerals_have_their_value((a / 1_000_000) as nat, 10);
    lemma_decimals(f, 6);
    let whole = text::digits((a / 1_000_000) as nat);
    let s = shown(v);
    let k = if v < 0 {
        1int
    } else {
        0
    };
    let w = k + whole.len();
    assert(s.subrange(k, w) =~= whole);
    assert forall|i: int| k <= i < w implies text::is_digit(#[trigger] s[i]) by {
        assert(s[i] == whole[i - k]);
    }
    assert forall|i: int| w + 1 <= i < s.len() implies text::is_digit(#[trigger] s[i]) by {
        assert(s[i] == decimals(f, 6)[i - w - 1]);
    }
    assert(f == 0 <==> v % 1_000_000 == 0);
}

/// A number that is shown reads back as the same number.
pub proof fn shown_numbers_read_back(v: int)
    requires
        -NUM_MAX <= v <= NUM_MAX,
    ensures
        number_of(shown(v)) == Some(v),
{
    lemma_shown(v);
    lemma_pow10_18();
    let s = shown(v);
    let a = geom::mag(v);
    let f = a % 1_000_000;
    let whole = text::digits((a / 1_000_000) as nat);
    let k = if v < 0 {
        1int
    } else {
        0
    };
    let w = k + whole.len();
    assert(text::is_digit(s[k]));
    assert(is_sign(s, 0) == (v < 0));
    lemma_run_to(s, k, w);
    let n = s.len() as int;
    let p = spans(s);
    lemma_decimals(f, 6);
    if f == 0 {
        assert(p.i1 == w && p.i2 == w && p.i3 == w && !p.e);
        assert(s.subrange(p.i0, p.i1) + s.subrange(p.i2, p.i3) =~= whole);
    } else {
        let d = decimals(f, 6);
        lemma_run_to(s, w + 1, n);
        assert(p.i1 == w && p.i2 == w + 1 && p.i3 == n && !p.e);
        assert(s.subrange(p.i2, p.i3) =~= d);
        lemma_value_join(whole, d);
        let l = d.len() as int;
        lemma_pow10_sum(l, 6 - l);
        let (x, b, c, e) = (value(whole), value(d), pow10(l), pow10(6 - l));
        assert((x * c + b) * e == x * (c * e) + b * e) by (nonlinear_arith);
    }
    let (x, t) = (value(whole), pow10(6));
    assert(x * t == x * 1_000_000) by (nonlinear_arith)
        requires
            t == 1_000_000,
    ;
    if f != 0 {
        assert(value(s.subrange(p.i0, p.i1) + s.subrange(p.i2, p.i3)) * pow10(6 - (p.i3 - p.i2))
            == a);
    }
    assert(size_of(s) == a);
}

} // verus!
