//! Text primitives: characters, decimal numerals, search, ordering, splitting and joining.
//!
//! A string is reasoned about as the sequence of its characters; a list of strings as the sequence
//! of those sequences ([`views`]).
use vstd::prelude::*;

verus! {

/// `String::push`: the character is appended at the end.
pub assume_specification[ String::push ](s: &mut String, c: char)
    ensures
        final(s)@ == old(s)@.push(c),
;

/// What `str::to_uppercase` makes of a text.
pub uninterp spec fn uppercase(s: Seq<char>) -> Seq<char>;

/// `str::to_uppercase`: the result is a function of the text alone. On ASCII text every lower-case
/// letter becomes its capital and every other character stays; beyond ASCII only the name is used.
#[verifier::external_body]
pub(crate) fn upper(s: &str) -> (r: String)
    ensures
        r@ == uppercase(s@),
        vstd::utf8::is_ascii_chars(s@) ==> r@ == ascii_uppercase(s@),
{
    s.to_uppercase()
}

/// What `char::is_whitespace` answers for one character outside ASCII.
pub uninterp spec fn whitespace(c: char) -> bool;

/// Whether a character is white space: of ASCII, the space and the five control characters from tab
/// to carriage return.
pub open spec fn is_blank(c: char) -> bool {
    if (c as u32) < 128 {
        c as u32 == 32 || 9 <= c as u32 <= 13
    } else {
        whitespace(c)
    }
}

/// `char::is_whitespace`: the Unicode `White_Space` property. Of ASCII it holds for the space and
/// for the five control characters from tab to carriage return, and for nothing else.
#[verifier::external_body]
pub(crate) fn is_whitespace(c: char) -> (r: bool)
    ensures
        (c as u32) >= 128 ==> r == whitespace(c),
        (c as u32) < 128 ==> r == (c as u32 == 32 || 9 <= c as u32 <= 13),
{
    c.is_whitespace()
}

/// What the `Debug` form of a string shows: the string in quotes, with escapes.
pub uninterp spec fn debug_shown(s: Seq<char>) -> Seq<char>;

/// `format!` with `{:?}` of a string: its `Debug` form, which is a function of the string alone. Which
/// characters it escapes is left unsaid.
#[verifier::external_body]
pub(crate) fn debug_text(s: &str) -> (r: String)
    ensures
        r@ == debug_shown(s@),
{
    format!("{:?}", s)
}

/// The character sequences of a list of strings.
pub open spec fn views(v: Seq<String>) -> Seq<Seq<char>> {
    Seq::new(v.len(), |i: int| v[i]@)
}

/// The capital of an ASCII lower-case letter, every other character itself.
pub open spec fn ascii_upper_char(c: char) -> char {
    if 'a' <= c && c <= 'z' {
        (c as u32 - 32) as char
    } else {
        c
    }
}

pub open spec fn ascii_uppercase(s: Seq<char>) -> Seq<char> {
    Seq::new(s.len(), |i: int| ascii_upper_char(s[i]))
}

pub open spec fn is_digit(c: char) -> bool {
    '0' <= c && c <= '9'
}

pub open spec fn is_capital(c: char) -> bool {
    'A' <= c && c <= 'Z'
}

/// `p` is a prefix of `s`.
pub open spec fn starts(s: Seq<char>, p: Seq<char>) -> bool {
    p.len() <= s.len() && s.subrange(0, p.len() as int) == p
}

/// `p` is a suffix of `s`.
pub open spec fn ends(s: Seq<char>, p: Seq<char>) -> bool {
    p.len() <= s.len() && s.subrange(s.len() - p.len(), s.len() as int) == p
}

/// `p` occurs in `s` at position `i`.
pub open spec fn occurs_at(s: Seq<char>, p: Seq<char>, i: int) -> bool {
    0 <= i && i + p.len() <= s.len() && s.subrange(i, i + p.len()) == p
}

/// `p` occurs somewhere in `s`.
pub open spec fn has(s: Seq<char>, p: Seq<char>) -> bool {
    exists|i: int| #[trigger] occurs_at(s, p, i)
}

/// Lexicographic order by code point: `a` comes strictly before `b`.
pub open spec fn before(a: Seq<char>, b: Seq<char>) -> bool
    decreases a.len(),
{
    if b.len() == 0 {
        false
    } else if a.len() == 0 {
        true
    } else if a[0] != b[0] {
        a[0] < b[0]
    } else {
        before(a.drop_first(), b.drop_first())
    }
}

pub open spec fn digit(d: nat) -> char {
    (48 + d) as char
}

/// The decimal numeral of a natural number.
pub open spec fn digits(n: nat) -> Seq<char>
    decreases n,
{
    if n < 10 {
        seq![digit(n)]
    } else {
        digits(n / 10).push(digit(n % 10))
    }
}

/// The decimal numeral of an integer, with a leading minus sign where it is negative.
pub open spec fn numeral(n: int) -> Seq<char> {
    if n < 0 {
        seq!['-'] + digits((-n) as nat)
    } else {
        digits(n as nat)
    }
}

/// Pieces of `s` from position `i` on, cut at every `c`; `cur` is the piece under way.
pub open spec fn pieces_from(s: Seq<char>, c: char, i: int, cur: Seq<char>) -> Seq<Seq<char>>
    decreases s.len() - i,
{
    if i < 0 || i >= s.len() {
        seq![cur]
    } else if s[i] == c {
        seq![cur] + pieces_from(s, c, i + 1, Seq::empty())
    } else {
        pieces_from(s, c, i + 1, cur.push(s[i]))
    }
}

/// The pieces of `s` between occurrences of `c` (one piece more than there are occurrences).
pub open spec fn pieces(s: Seq<char>, c: char) -> Seq<Seq<char>> {
    pieces_from(s, c, 0, Seq::empty())
}

/// The parts joined by a separator.
pub open spec fn joined(v: Seq<Seq<char>>, sep: Seq<char>) -> Seq<char>
    decreases v.len(),
{
    if v.len() == 0 {
        Seq::empty()
    } else if v.len() == 1 {
        v[0]
    } else {
        joined(v.drop_last(), sep) + sep + v.last()
    }
}

/// The characters of a string, one by one.
pub fn chars_of(s: &str) -> (v: Vec<char>)
    ensures
        v@ == s@,
{
    let mut v: Vec<char> = Vec::new();
    for c in it: s.chars()
        invariant
            v@ == it.seq().take(it.index()),
            it.seq() == s@,
    {
        proof {
            assert(it.seq().take(it.index() + 1) =~= it.seq().take(it.index()).push(
                it.seq()[it.index()],
            ));
        }
        v.push(c);
    }
    assert(s@.take(s@.len() as int) =~= s@);
    v
}

/// The string made of the given characters.
pub fn of_chars(v: &Vec<char>) -> (s: String)
    ensures
        s@ == v@,
{
    let mut s = String::new();
    let mut i: usize = 0;
    while i < v.len()
        invariant
            i <= v.len(),
            s@ == v@.take(i as int),
        decreases v.len() - i,
    {
        proof {
            assert(v@.take(i + 1) =~= v@.take(i as int).push(v@[i as int]));
        }
        s.push(v[i]);
        i += 1;
    }
    assert(v@.take(v.len() as int) =~= v@);
    s
}

/// Whether two texts are equal.
pub fn same(a: &str, b: &str) -> (r: bool)
    ensures
        r == (a@ == b@),
{
    a.to_owned() == b.to_owned()
}

/// Whether the characters of `p` stand in `s` from position `i` on.
fn stands_at(s: &Vec<char>, p: &Vec<char>, i: usize) -> (r: bool)
    ensures
        r == occurs_at(s@, p@, i as int),
{
    if p.len() > s.len() || i > s.len() - p.len() {
        return false;
    }
    let mut k: usize = 0;
    while k < p.len()
        invariant
            k <= p.len(),
            i + p.len() <= s.len(),
            forall|j: int| 0 <= j < k ==> s@[i + j] == p@[j],
        decreases p.len() - k,
    {
        if s[i + k] != p[k] {
            proof {
                assert(s@.subrange(i as int, i + p.len())[k as int] == s@[i + k]);
            }
            return false;
        }
        k += 1;
    }
    assert(s@.subrange(i as int, i + p.len()) =~= p@);
    true
}

/// Whether `p` is a prefix of `s`.
pub fn starts_with(s: &str, p: &str) -> (r: bool)
    ensures
        r == starts(s@, p@),
{
    let sv = chars_of(s);
    let pv = chars_of(p);
    stands_at(&sv, &pv, 0)
}

/// Whether `p` is a suffix of `s`.
pub fn ends_with(s: &str, p: &str) -> (r: bool)
    ensures
        r == ends(s@, p@),
{
    let sv = chars_of(s);
    let pv = chars_of(p);
    if pv.len() > sv.len() {
        return false;
    }
    let at: usize = sv.len() - pv.len();
    stands_at(&sv, &pv, at)
}

/// Whether `p` occurs in `s`.
pub fn contains(s: &str, p: &str) -> (r: bool)
    ensures
        r == has(s@, p@),
{
    let sv = chars_of(s);
    let pv = chars_of(p);
    if pv.len() > sv.len() {
        return false;
    }
    if pv.len() == 0 {
        assert(s@.subrange(0, 0) =~= p@);
        assert(occurs_at(s@, p@, 0));
        return true;
    }
    let last: usize = sv.len() - pv.len();
    let mut i: usize = 0;
    while i <= last
        invariant
            last == sv@.len() - pv@.len(),
            last < sv.len(),
            i <= last + 1,
            sv@ == s@,
            pv@ == p@,
            forall|j: int| 0 <= j < i ==> !#[trigger] occurs_at(s@, p@, j),
        decreases last + 1 - i,
    {
        if stands_at(&sv, &pv, i) {
            return true;
        }
        i += 1;
    }
    false
}

/// Whether `a` comes strictly before `b` in code point order.
pub fn is_before(a: &str, b: &str) -> (r: bool)
    ensures
        r == before(a@, b@),
{
    let av = chars_of(a);
    let bv = chars_of(b);
    let mut i: usize = 0;
    proof {
        assert(a@.skip(0) =~= a@);
        assert(b@.skip(0) =~= b@);
    }
    while i < av.len() && i < bv.len()
        invariant
            i <= av.len(),
            i <= bv.len(),
            av@ == a@,
            bv@ == b@,
            before(a@, b@) == before(a@.skip(i as int), b@.skip(i as int)),
        decreases av.len() - i,
    {
        if av[i] != bv[i] {
            return av[i] < bv[i];
        }
        proof {
            assert(a@.skip(i as int).drop_first() =~= a@.skip(i + 1));
            assert(b@.skip(i as int).drop_first() =~= b@.skip(i + 1));
        }
        i += 1;
    }
    i < bv.len()
}

/// The empty text comes before every other, and nothing before it; the order is irreflexive.
pub proof fn before_irreflexive(a: Seq<char>)
    ensures
        !before(a, a),
    decreases a.len(),
{
    if a.len() > 0 {
        before_irreflexive(a.drop_first());
    }
}

/// Two different texts are ordered one way or the other, never both.
pub proof fn before_total(a: Seq<char>, b: Seq<char>)
    ensures
        a != b ==> before(a, b) != before(b, a),
        a == b ==> !before(a, b) && !before(b, a),
    decreases a.len(),
{
    if a.len() > 0 && b.len() > 0 && a[0] == b[0] {
        before_total(a.drop_first(), b.drop_first());
        if a.drop_first() == b.drop_first() {
            assert(a =~= b) by {
                assert forall|i: int| 0 <= i < a.len() implies a[i] == b[i] by {
                    if i > 0 {
                        assert(a[i] == a.drop_first()[i - 1]);
                        assert(b[i] == b.drop_first()[i - 1]);
                    }
                }
            }
        }
    } else if a.len() == 0 && b.len() == 0 {
        assert(a =~= b);
    }
}

/// The order is transitive.
pub proof fn before_transitive(a: Seq<char>, b: Seq<char>, c: Seq<char>)
    requires
        before(a, b),
        before(b, c),
    ensures
        before(a, c),
    decreases a.len(),
{
    if a.len() > 0 && a[0] == b[0] && b[0] == c[0] {
        before_transitive(a.drop_first(), b.drop_first(), c.drop_first());
    }
}

fn digit_char(d: u64) -> (c: char)
    requires
        d < 10,
    ensures
        c == digit(d as nat),
{
    match d {
        0 => '0',
        1 => '1',
        2 => '2',
        3 => '3',
        4 => '4',
        5 => '5',
        6 => '6',
        7 => '7',
        8 => '8',
        _ => '9',
    }
}

/// The decimal numeral of a natural number.
pub fn decimal_u128(n: u128) -> (s: String)
    ensures
        s@ == digits(n as nat),
    decreases n,
{
    let mut s = if n < 10 {
        String::new()
    } else {
        decimal_u128(n / 10)
    };
    s.push(digit_char((n % 10) as u64));
    assert(n < 10 ==> s@ =~= digits(n as nat));
    s
}

/// The decimal numeral of a natural number.
pub fn decimal_u64(n: u64) -> (s: String)
    ensures
        s@ == digits(n as nat),
{
    decimal_u128(n as u128)
}

/// The decimal numeral of an integer.
pub fn decimal(n: i64) -> (s: String)
    ensures
        s@ == numeral(n as int),
{
    if n < 0 {
        let mut s = String::new();
        s.push('-');
        let m: u64 = (-(n as i128)) as u64;
        s.append(decimal_u64(m).as_str());
        assert(s@ =~= numeral(n as int));
        s
    } else {
        decimal_u64(n as u64)
    }
}

/// ASCII letters raised to capitals, every other character kept.
pub fn ascii_upper(s: &str) -> (r: String)
    ensures
        r@ == ascii_uppercase(s@),
{
    let v = chars_of(s);
    let mut r = String::new();
    let mut i: usize = 0;
    while i < v.len()
        invariant
            i <= v.len(),
            v@ == s@,
            r@ == ascii_uppercase(s@).take(i as int),
        decreases v.len() - i,
    {
        let c = v[i];
        let u = if 'a' <= c && c <= 'z' {
            ((c as u8) - 32) as char
        } else {
            c
        };
        proof {
            assert(ascii_uppercase(s@).take(i + 1) =~= ascii_uppercase(s@).take(i as int).push(
                ascii_uppercase(s@)[i as int],
            ));
        }
        r.push(u);
        i += 1;
    }
    assert(ascii_uppercase(s@).take(s@.len() as int) =~= ascii_uppercase(s@));
    r
}

/// The pieces of a text between occurrences of `c`.
pub fn split(s: &str, c: char) -> (r: Vec<String>)
    ensures
        views(r@) == pieces(s@, c),
        r@.len() >= 1,
{
    let v = chars_of(s);
    let mut r: Vec<String> = Vec::new();
    let mut cur = String::new();
    let mut i: usize = 0;
    while i < v.len()
        invariant
            i <= v.len(),
            v@ == s@,
            pieces(s@, c) == views(r@) + pieces_from(s@, c, i as int, cur@),
        decreases v.len() - i,
    {
        if v[i] == c {
            let ghost r0 = r@;
            let ghost c0 = cur@;
            r.push(cur);
            cur = String::new();
            proof {
                assert(views(r@) =~= views(r0).push(c0));
                assert(views(r@) + pieces_from(s@, c, i + 1, Seq::empty()) =~= views(r0) + (seq![
                    c0,
                ] + pieces_from(s@, c, i + 1, Seq::empty())));
            }
        } else {
            cur.push(v[i]);
        }
        i += 1;
    }
    let ghost r0 = r@;
    let ghost c0 = cur@;
    r.push(cur);
    assert(views(r@) =~= views(r0) + seq![c0]);
    r
}

/// The strings joined by a separator.
pub fn join(v: &Vec<String>, sep: &str) -> (r: String)
    ensures
        r@ == joined(views(v@), sep@),
{
    let mut r = String::new();
    let mut i: usize = 0;
    while i < v.len()
        invariant
            i <= v.len(),
            r@ == joined(views(v@).take(i as int), sep@),
        decreases v.len() - i,
    {
        proof {
            assert(views(v@).take(i + 1).drop_last() =~= views(v@).take(i as int));
            assert(i == 0 ==> r@ + v@[0]@ =~= v@[0]@);
        }
        if i > 0 {
            r.append(sep);
        }
        r.append(v[i].as_str());
        i += 1;
    }
    assert(views(v@).take(v@.len() as int) =~= views(v@));
    r
}

/// A text written between two others.
pub fn concat3(a: &str, b: &str, c: &str) -> (r: String)
    ensures
        r@ == a@ + b@ + c@,
{
    let mut r = a.to_owned();
    r.append(b);
    r.append(c);
    r
}

/// Bytes that a character takes in UTF-8.
pub open spec fn byte_len(c: char) -> int {
    if (c as u32) < 0x80 {
        1
    } else if (c as u32) < 0x800 {
        2
    } else if (c as u32) < 0x10000 {
        3
    } else {
        4
    }
}

/// How many characters from `i` on fit in `room` bytes.
pub open spec fn fitting(s: Seq<char>, i: int, room: int) -> int
    decreases s.len() - i,
{
    if i < 0 || i >= s.len() || byte_len(s[i]) > room {
        i
    } else {
        fitting(s, i + 1, room - byte_len(s[i]))
    }
}

/// The longest prefix that takes at most `room` bytes in UTF-8.
pub open spec fn clipped(s: Seq<char>, room: int) -> Seq<char> {
    s.take(fitting(s, 0, room))
}

/// Cuts a text to at most `room` bytes of UTF-8, between two characters.
pub fn clip(s: &str, room: usize) -> (r: String)
    ensures
        r@ == clipped(s@, room as int),
{
    let v = chars_of(s);
    let mut left: usize = room;
    let mut i: usize = 0;
    let mut r = String::new();
    let mut going = true;
    assert(s@.take(0) =~= Seq::empty());
    while going && i < v.len()
        invariant
            i <= v@.len(),
            v@ == s@,
            r@ == s@.take(i as int),
            going ==> fitting(s@, 0, room as int) == fitting(s@, i as int, left as int),
            !going ==> fitting(s@, 0, room as int) == i,
        decreases (if going { 1int } else { 0 }), v@.len() - i,
    {
        let c = v[i];
        let n: usize = if (c as u32) < 0x80 {
            1
        } else if (c as u32) < 0x800 {
            2
        } else if (c as u32) < 0x10000 {
            3
        } else {
            4
        };
        if n > left {
            going = false;
        } else {
            left -= n;
            assert(s@.take(i + 1) =~= s@.take(i as int).push(s@[i as int]));
            r.push(c);
            i += 1;
        }
    }
    r
}

/// Each text between two others.
pub open spec fn quoted(v: Seq<Seq<char>>, a: Seq<char>, b: Seq<char>) -> Seq<Seq<char>> {
    Seq::new(v.len(), |i: int| a + v[i] + b)
}

/// Puts each text between two others.
pub fn quote_all(v: &Vec<String>, a: &str, b: &str) -> (r: Vec<String>)
    ensures
        views(r@) == quoted(views(v@), a@, b@),
{
    let mut r: Vec<String> = Vec::new();
    let mut i: usize = 0;
    while i < v.len()
        invariant
            i <= v@.len(),
            r@.len() == i,
            forall|j: int| 0 <= j < i ==> (#[trigger] r@[j])@ == a@ + v@[j]@ + b@,
        decreases v@.len() - i,
    {
        r.push(concat3(a, v[i].as_str(), b));
        i += 1;
    }
    assert(views(r@) =~= quoted(views(v@), a@, b@));
    r
}

/// `s` from position `i` on with every occurrence of `p` replaced by `r`, from left to right.
pub open spec fn replaced_from(s: Seq<char>, p: Seq<char>, r: Seq<char>, i: int) -> Seq<char>
    decreases s.len() - i,
{
    if i < 0 || i >= s.len() || p.len() == 0 {
        Seq::empty()
    } else if occurs_at(s, p, i) {
        r + replaced_from(s, p, r, i + p.len())
    } else {
        seq![s[i]] + replaced_from(s, p, r, i + 1)
    }
}

pub open spec fn replaced(s: Seq<char>, p: Seq<char>, r: Seq<char>) -> Seq<char> {
    replaced_from(s, p, r, 0)
}

/// Replaces every occurrence of a text, from left to right.
pub fn replace_all(s: &str, p: &str, r: &str) -> (out: String)
    requires
        p@.len() > 0,
    ensures
        out@ == replaced(s@, p@, r@),
{
    let sv = chars_of(s);
    let pv = chars_of(p);
    let mut out = String::new();
    let mut i: usize = 0;
    assert(out@ + replaced_from(s@, p@, r@, 0) =~= replaced(s@, p@, r@));
    while i < sv.len()
        invariant
            i <= sv@.len(),
            sv@ == s@,
            pv@ == p@,
            p@.len() > 0,
            out@ + replaced_from(s@, p@, r@, i as int) == replaced(s@, p@, r@),
        decreases sv@.len() - i,
    {
        let mut k: usize = 0;
        let total: usize = sv.len();
        let fits = pv.len() <= total - i;
        while fits && k < pv.len() && sv[i + k] == pv[k]
            invariant
                k <= pv@.len(),
                i <= sv@.len(),
                total == sv@.len(),
                fits == (pv@.len() <= sv@.len() - i),
                fits ==> i + pv@.len() <= sv@.len(),
                forall|j: int| 0 <= j < k ==> sv@[i + j] == pv@[j],
            decreases pv@.len() - k,
        {
            k += 1;
        }
        let ghost o0 = out@;
        if fits && k == pv.len() {
            proof {
                assert(sv@.subrange(i as int, i + pv@.len()) =~= pv@);
                assert(occurs_at(s@, p@, i as int));
                assert(o0 + (r@ + replaced_from(s@, p@, r@, i + p@.len())) =~= (o0 + r@)
                    + replaced_from(s@, p@, r@, i + p@.len()));
            }
            out.append(r);
            i += pv.len();
        } else {
            proof {
                if occurs_at(s@, p@, i as int) {
                    assert(s@.subrange(i as int, i + p@.len())[k as int] == p@[k as int]);
                }
                assert(o0 + (seq![s@[i as int]] + replaced_from(s@, p@, r@, i + 1)) =~= o0.push(
                    s@[i as int],
                ) + replaced_from(s@, p@, r@, i + 1));
            }
            out.push(sv[i]);
            i += 1;
        }
    }
    assert(out@ + replaced_from(s@, p@, r@, i as int) =~= out@);
    out
}

/// A text under construction.
pub struct Line {
    pub s: String,
}

impl Line {
    pub open spec fn view(&self) -> Seq<char> {
        self.s@
    }

    pub fn of(t: &str) -> (r: Line)
        ensures
            r@ == t@,
    {
        Line { s: t.to_owned() }
    }

    pub fn add(self, t: &str) -> (r: Line)
        ensures
            r@ == self@ + t@,
    {
        let mut s = self.s;
        s.append(t);
        Line { s }
    }

    /// Adds the numeral of an integer.
    pub fn whole(self, n: i64) -> (r: Line)
        ensures
            r@ == self@ + numeral(n as int),
    {
        let d = decimal(n);
        self.add(d.as_str())
    }

    /// Adds the numeral of a count.
    pub fn count(self, n: u128) -> (r: Line)
        ensures
            r@ == self@ + digits(n as nat),
    {
        let d = decimal_u128(n);
        self.add(d.as_str())
    }

    pub fn done(self) -> (r: String)
        ensures
            r@ == self@,
    {
        self.s
    }
}

} // verus!
