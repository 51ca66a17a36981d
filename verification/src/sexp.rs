//! Reader and writer for the s-expressions of schematic files.
//!
//! A parsed node is a list whose first element is its tag. Atoms are bare symbols, quoted strings,
//! integers and decimal numbers.
use crate::number;
use crate::number::{fmt_num, read_number, NUM_MAX, WRITE_MAX};
use crate::order_map;
use crate::text;
use crate::text::{chars_of, decimal, replace_all, same};
use vstd::prelude::*;

verus! {

/// An s-expression.
#[derive(Debug)]
pub enum Sexp {
    List(Vec<Sexp>),
    /// A quoted string atom.
    Str(String),
    /// A bare symbol atom.
    Sym(String),
    Int(i64),
    /// A decimal number, in millionths.
    Dec(i64),
}

#[verifier::ext_equal]
pub enum SexpV {
    List(Seq<SexpV>),
    Str(Seq<char>),
    Sym(Seq<char>),
    Int(int),
    Dec(int),
}

impl View for Sexp {
    type V = SexpV;

    open spec fn view(&self) -> SexpV
        decreases self,
    {
        match self {
            Sexp::List(v) => SexpV::List(
                Seq::new(
                    v@.len(),
                    |i: int|
                        if 0 <= i < v@.len() {
                            v@[i].view()
                        } else {
                            SexpV::Int(0)
                        },
                ),
            ),
            Sexp::Str(s) => SexpV::Str(s@),
            Sexp::Sym(s) => SexpV::Sym(s@),
            Sexp::Int(i) => SexpV::Int(*i as int),
            Sexp::Dec(d) => SexpV::Dec(*d as int),
        }
    }
}

pub open spec fn nodes_v(v: Seq<Sexp>) -> Seq<SexpV> {
    Seq::new(v.len(), |i: int| v[i]@)
}

/// A list is its items.
pub broadcast proof fn lemma_list_view(v: Vec<Sexp>)
    ensures
        #[trigger] Sexp::List(v)@ == SexpV::List(nodes_v(v@)),
{
    assert(Sexp::List(v)@->List_0 =~= nodes_v(v@));
}

/// Numbers are of a size that can be written.
pub open spec fn ok(n: SexpV) -> bool
    decreases n,
{
    match n {
        SexpV::List(v) => forall|i: int| 0 <= i < v.len() ==> ok(#[trigger] v[i]),
        SexpV::Dec(d) => -WRITE_MAX <= d <= WRITE_MAX,
        _ => true,
    }
}

pub open spec fn all_ok(v: Seq<SexpV>) -> bool {
    forall|i: int| 0 <= i < v.len() ==> ok(#[trigger] v[i])
}

pub proof fn lemma_ok_item(n: SexpV, i: int)
    requires
        ok(n),
        0 <= i < items_of(n).len(),
    ensures
        ok(items_of(n)[i]),
{
}

// ---------------------------------------------------------------- looking at a node

pub open spec fn as_text(n: SexpV) -> Option<Seq<char>> {
    match n {
        SexpV::Str(s) => Some(s),
        SexpV::Sym(s) => Some(s),
        _ => None,
    }
}

/// Text of any atom, numbers as they are written.
pub open spec fn text_of(n: SexpV) -> Seq<char> {
    match n {
        SexpV::Str(s) => s,
        SexpV::Sym(s) => s,
        SexpV::Int(i) => text::numeral(i),
        SexpV::Dec(d) => number::shown(d),
        SexpV::List(_) => Seq::empty(),
    }
}

/// The number an atom stands for, in millionths.
pub open spec fn number_in(n: SexpV) -> Option<int> {
    match n {
        SexpV::Int(i) => if -9_000_000_000 <= i <= 9_000_000_000 {
            Some(i * 1_000_000)
        } else {
            None
        },
        SexpV::Dec(d) => if -NUM_MAX <= d <= NUM_MAX {
            Some(d)
        } else {
            None
        },
        SexpV::Str(s) => number::number_of(s),
        SexpV::Sym(s) => number::number_of(s),
        SexpV::List(_) => None,
    }
}

pub open spec fn items_of(n: SexpV) -> Seq<SexpV> {
    match n {
        SexpV::List(v) => v,
        _ => Seq::empty(),
    }
}

/// The tag of a list: its first item, where that is a symbol or a string.
pub open spec fn tag_of(n: SexpV) -> Seq<char> {
    let v = items_of(n);
    if v.len() > 0 && as_text(v[0]) is Some {
        as_text(v[0])->0
    } else {
        Seq::empty()
    }
}

pub open spec fn is_tagged(n: SexpV, tag: Seq<char>) -> bool {
    n is List && tag_of(n) == tag
}

/// First position from `i` on of a list with the given tag.
pub open spec fn seek_tag(v: Seq<SexpV>, tag: Seq<char>, i: int) -> int
    decreases v.len() - i,
{
    if i < 0 || i >= v.len() || is_tagged(v[i], tag) {
        i
    } else {
        seek_tag(v, tag, i + 1)
    }
}

/// The first child list with the given tag.
pub open spec fn child_of(n: SexpV, tag: Seq<char>) -> Option<SexpV> {
    let v = items_of(n);
    let i = seek_tag(v, tag, 1);
    if i < v.len() {
        Some(v[i])
    } else {
        None
    }
}

/// The child lists with the given tag among the first `n` items.
pub open spec fn tagged(v: Seq<SexpV>, tag: Seq<char>, n: int) -> Seq<SexpV>
    decreases n,
{
    if n <= 1 {
        Seq::empty()
    } else if is_tagged(v[n - 1], tag) {
        tagged(v, tag, n - 1).push(v[n - 1])
    } else {
        tagged(v, tag, n - 1)
    }
}

pub open spec fn children_of(n: SexpV, tag: Seq<char>) -> Seq<SexpV> {
    tagged(items_of(n), tag, items_of(n).len() as int)
}

/// The items among the first `n` that are no lists, the tag left out.
pub open spec fn plain(v: Seq<SexpV>, n: int) -> Seq<SexpV>
    decreases n,
{
    if n <= 1 {
        Seq::empty()
    } else if v[n - 1] is List {
        plain(v, n - 1)
    } else {
        plain(v, n - 1).push(v[n - 1])
    }
}

pub open spec fn atoms_of(n: SexpV) -> Seq<SexpV> {
    plain(items_of(n), items_of(n).len() as int)
}

/// A `(property "name" "value" ...)` node of that name.
pub open spec fn is_prop(n: SexpV, name: Seq<char>) -> bool {
    let v = items_of(n);
    tag_of(n) == "property"@ && v.len() > 2 && as_text(v[1]) == Some(name)
}

pub open spec fn seek_prop(v: Seq<SexpV>, name: Seq<char>, i: int) -> int
    decreases v.len() - i,
{
    if i < 0 || i >= v.len() || is_prop(v[i], name) {
        i
    } else {
        seek_prop(v, name, i + 1)
    }
}

pub open spec fn prop_of(n: SexpV, name: Seq<char>) -> Option<SexpV> {
    let v = items_of(n);
    let i = seek_prop(v, name, 1);
    if i < v.len() {
        Some(v[i])
    } else {
        None
    }
}

pub open spec fn prop_text(n: SexpV, name: Seq<char>) -> Option<Seq<char>> {
    match prop_of(n, name) {
        Some(p) => Some(text_of(items_of(p)[2])),
        None => None,
    }
}

pub open spec fn node_v(n: Option<&Sexp>) -> Option<SexpV> {
    match n {
        Some(x) => Some(x@),
        None => None,
    }
}

pub open spec fn refs_v(v: Seq<&Sexp>) -> Seq<SexpV> {
    Seq::new(v.len(), |i: int| v[i]@)
}

impl Sexp {
    pub fn list(items: Vec<Sexp>) -> (r: Sexp)
        ensures
            r@ == SexpV::List(nodes_v(items@)),
    {
        proof {
            lemma_list_view(items);
        }
        Sexp::List(items)
    }

    pub fn sym(s: &str) -> (r: Sexp)
        ensures
            r@ == SexpV::Sym(s@),
    {
        Sexp::Sym(s.to_owned())
    }

    pub fn str(s: &str) -> (r: Sexp)
        ensures
            r@ == SexpV::Str(s@),
    {
        Sexp::Str(s.to_owned())
    }

    pub fn as_list(&self) -> (r: Option<&Vec<Sexp>>)
        ensures
            match r {
                Some(v) => self@ == SexpV::List(nodes_v(v@)),
                None => !(self@ is List),
            },
    {
        match self {
            Sexp::List(v) => {
                proof {
                    lemma_list_view(*v);
                }
                Some(v)
            },
            _ => None,
        }
    }

    pub fn is_list(&self) -> (r: bool)
        ensures
            r == (self@ is List),
    {
        match self {
            Sexp::List(_) => true,
            _ => false,
        }
    }

    pub fn as_str(&self) -> (r: Option<&str>)
        ensures
            match r {
                Some(s) => as_text(self@) == Some(s@),
                None => as_text(self@) is None,
            },
    {
        match self {
            Sexp::Str(s) => Some(s.as_str()),
            Sexp::Sym(s) => Some(s.as_str()),
            _ => None,
        }
    }

    /// Text of any atom, numbers as they are written.
    pub fn text(&self) -> (r: String)
        requires
            ok(self@),
        ensures
            r@ == text_of(self@),
    {
        match self {
            Sexp::Str(s) => s.clone(),
            Sexp::Sym(s) => s.clone(),
            Sexp::Int(i) => decimal(*i),
            Sexp::Dec(d) => fmt_num(*d),
            Sexp::List(_) => {
                let r = String::new();
                assert(r@ =~= Seq::empty());
                r
            },
        }
    }

    /// The number an atom stands for, in millionths.
    pub fn number(&self) -> (r: Option<i64>)
        requires
            ok(self@),
        ensures
            match r {
                Some(v) => number_in(self@) == Some(v as int) && -NUM_MAX <= v <= NUM_MAX,
                None => number_in(self@) is None,
            },
    {
        match self {
            Sexp::Int(i) => if -9_000_000_000 <= *i && *i <= 9_000_000_000 {
                Some(*i * 1_000_000)
            } else {
                None
            },
            Sexp::Dec(d) => if -NUM_MAX <= *d && *d <= NUM_MAX {
                Some(*d)
            } else {
                None
            },
            Sexp::Str(s) => read_number(s.as_str()),
            Sexp::Sym(s) => read_number(s.as_str()),
            Sexp::List(_) => None,
        }
    }

    /// The node's tag: the first atom of a list.
    pub fn tag(&self) -> (r: &str)
        ensures
            r@ == tag_of(self@),
    {
        proof {
            reveal_strlit("");
            assert(""@ =~= Seq::<char>::empty());
        }
        match self.as_list() {
            Some(v) => {
                if v.len() == 0 {
                    return "";
                }
                assert(nodes_v(v@)[0] == v@[0]@);
                match v[0].as_str() {
                    Some(s) => s,
                    None => "",
                }
            },
            None => "",
        }
    }

    fn is_node(&self, tag: &str) -> (r: bool)
        ensures
            r == is_tagged(self@, tag@),
    {
        self.is_list() && same(self.tag(), tag)
    }

    /// The first child list with the given tag.
    pub fn child(&self, tag: &str) -> (r: Option<&Sexp>)
        ensures
            node_v(r) == child_of(self@, tag@),
            ok(self@) && r is Some ==> ok(r->0@),
    {
        match self.as_list() {
            Some(v) => {
                let ghost vs = nodes_v(v@);
                let mut i: usize = 1;
                while i < v.len()
                    invariant
                        1 <= i,
                        vs == nodes_v(v@),
                        self@ == SexpV::List(vs),
                        seek_tag(vs, tag@, 1) == seek_tag(vs, tag@, i as int),
                    decreases v@.len() - i,
                {
                    assert(vs[i as int] == v@[i as int]@);
                    if v[i].is_node(tag) {
                        return Some(&v[i]);
                    }
                    i += 1;
                }
                None
            },
            None => None,
        }
    }

    /// All child lists with the given tag.
    pub fn children(&self, tag: &str) -> (r: Vec<&Sexp>)
        ensures
            refs_v(r@) == children_of(self@, tag@),
            ok(self@) ==> all_ok(refs_v(r@)),
    {
        let mut r: Vec<&Sexp> = Vec::new();
        assert(refs_v(r@) =~= Seq::empty());
        if let Some(v) = self.as_list() {
            let ghost vs = nodes_v(v@);
            let mut i: usize = 1;
            while i < v.len()
                invariant
                    1 <= i,
                    i <= v@.len() || i == 1,
                    vs == nodes_v(v@),
                    self@ == SexpV::List(vs),
                    refs_v(r@) == tagged(vs, tag@, i as int),
                    ok(self@) ==> all_ok(refs_v(r@)),
                decreases v@.len() - i,
            {
                assert(vs[i as int] == v@[i as int]@);
                if v[i].is_node(tag) {
                    let ghost r0 = r@;
                    r.push(&v[i]);
                    assert(refs_v(r@) =~= refs_v(r0).push(v@[i as int]@));
                    proof {
                        if ok(self@) {
                            lemma_ok_item(self@, i as int);
                        }
                    }
                }
                i += 1;
            }
            assert(tagged(vs, tag@, 0) =~= tagged(vs, tag@, 1));
        }
        r
    }

    /// Children that are no lists, the tag left out.
    pub fn atoms(&self) -> (r: Vec<&Sexp>)
        ensures
            refs_v(r@) == atoms_of(self@),
            ok(self@) ==> all_ok(refs_v(r@)),
    {
        let mut r: Vec<&Sexp> = Vec::new();
        assert(refs_v(r@) =~= Seq::empty());
        if let Some(v) = self.as_list() {
            let ghost vs = nodes_v(v@);
            let mut i: usize = 1;
            while i < v.len()
                invariant
                    1 <= i,
                    i <= v@.len() || i == 1,
                    vs == nodes_v(v@),
                    self@ == SexpV::List(vs),
                    refs_v(r@) == plain(vs, i as int),
                    ok(self@) ==> all_ok(refs_v(r@)),
                decreases v@.len() - i,
            {
                assert(vs[i as int] == v@[i as int]@);
                if !v[i].is_list() {
                    let ghost r0 = r@;
                    r.push(&v[i]);
                    assert(refs_v(r@) =~= refs_v(r0).push(v@[i as int]@));
                    proof {
                        if ok(self@) {
                            lemma_ok_item(self@, i as int);
                        }
                    }
                }
                i += 1;
            }
            assert(plain(vs, 0) =~= plain(vs, 1));
        }
        r
    }

    fn has_name(&self, name: &str) -> (r: bool)
        ensures
            r == is_prop(self@, name@),
    {
        if !same(self.tag(), "property") {
            return false;
        }
        match self.as_list() {
            Some(v) => {
                if v.len() <= 2 {
                    return false;
                }
                assert(nodes_v(v@)[1] == v@[1]@);
                match v[1].as_str() {
                    Some(s) => same(s, name),
                    None => false,
                }
            },
            None => false,
        }
    }

    /// The `(property "name" "value" ...)` child.
    pub fn prop(&self, name: &str) -> (r: Option<&Sexp>)
        ensures
            node_v(r) == prop_of(self@, name@),
            ok(self@) && r is Some ==> ok(r->0@),
            r is Some ==> is_prop(r->0@, name@),
    {
        match self.as_list() {
            Some(v) => {
                let ghost vs = nodes_v(v@);
                let mut i: usize = 1;
                while i < v.len()
                    invariant
                        1 <= i,
                        vs == nodes_v(v@),
                        self@ == SexpV::List(vs),
                        seek_prop(vs, name@, 1) == seek_prop(vs, name@, i as int),
                    decreases v@.len() - i,
                {
                    assert(vs[i as int] == v@[i as int]@);
                    if v[i].has_name(name) {
                        return Some(&v[i]);
                    }
                    i += 1;
                }
                None
            },
            None => None,
        }
    }

    pub fn prop_value(&self, name: &str) -> (r: Option<String>)
        requires
            ok(self@),
        ensures
            match r {
                Some(s) => prop_text(self@, name@) == Some(s@),
                None => prop_text(self@, name@) is None,
            },
    {
        match self.prop(name) {
            Some(p) => match p.as_list() {
                Some(v) => {
                    assert(nodes_v(v@)[2] == v@[2]@);
                    Some(v[2].text())
                },
                None => None,
            },
            None => None,
        }
    }

    /// The item at a position of a list.
    pub fn item(&self, i: usize) -> (r: Option<&Sexp>)
        ensures
            match r {
                Some(n) => i < items_of(self@).len() && n@ == items_of(self@)[i as int],
                None => i >= items_of(self@).len(),
            },
            ok(self@) && r is Some ==> ok(r->0@),
    {
        match self.as_list() {
            Some(v) => {
                if i < v.len() {
                    assert(nodes_v(v@)[i as int] == v@[i as int]@);
                    Some(&v[i])
                } else {
                    None
                }
            },
            None => None,
        }
    }
}

impl Sexp {
    pub fn dup(&self) -> (r: Sexp)
        ensures
            r@ == self@,
        decreases self,
    {
        match self {
            Sexp::List(v) => {
                let mut r: Vec<Sexp> = Vec::new();
                let mut i: usize = 0;
                while i < v.len()
                    invariant
                        i <= v@.len(),
                        self == Sexp::List(*v),
                        r@.len() == i,
                        forall|j: int| 0 <= j < i ==> (#[trigger] r@[j])@ == v@[j]@,
                    decreases v@.len() - i,
                {
                    assert(decreases_to!(self => self->List_0));
                    assert(decreases_to!(v => v@[i as int]));
                    r.push(v[i].dup());
                    i += 1;
                }
                proof {
                    assert(nodes_v(r@) =~= nodes_v(v@));
                    lemma_list_view(r);
                    lemma_list_view(*v);
                }
                Sexp::List(r)
            },
            Sexp::Str(s) => Sexp::Str(s.clone()),
            Sexp::Sym(s) => Sexp::Sym(s.clone()),
            Sexp::Int(i) => Sexp::Int(*i),
            Sexp::Dec(d) => Sexp::Dec(*d),
        }
    }
}

/// Copies of nodes.
pub fn dup_nodes(v: &Vec<Sexp>) -> (r: Vec<Sexp>)
    ensures
        nodes_v(r@) == nodes_v(v@),
{
    let mut r: Vec<Sexp> = Vec::new();
    let mut i: usize = 0;
    while i < v.len()
        invariant
            i <= v@.len(),
            r@.len() == i,
            forall|j: int| 0 <= j < i ==> (#[trigger] r@[j])@ == v@[j]@,
        decreases v@.len() - i,
    {
        r.push(v[i].dup());
        i += 1;
    }
    assert(nodes_v(r@) =~= nodes_v(v@));
    r
}

/// Named nodes.
pub open spec fn named_v(v: Seq<(String, Sexp)>) -> Seq<(Seq<char>, SexpV)> {
    Seq::new(v.len(), |i: int| (v[i].0@, v[i].1@))
}

pub fn dup_named(v: &Vec<(String, Sexp)>) -> (r: Vec<(String, Sexp)>)
    ensures
        named_v(r@) == named_v(v@),
{
    let mut r: Vec<(String, Sexp)> = Vec::new();
    let mut i: usize = 0;
    while i < v.len()
        invariant
            i <= v@.len(),
            r@.len() == i,
            forall|j: int| 0 <= j < i ==> (#[trigger] r@[j]).0@ == v@[j].0@ && r@[j].1@ == v@[j].1@,
        decreases v@.len() - i,
    {
        r.push((v[i].0.clone(), v[i].1.dup()));
        i += 1;
    }
    assert(named_v(r@) =~= named_v(v@));
    r
}

/// Gives a name a node: in place where it has one, at the end where it has none.
pub fn put_named(v: &mut Vec<(String, Sexp)>, k: &str, x: Sexp)
    ensures
        named_v(final(v)@) == order_map::put(named_v(old(v)@), k@, x@),
{
    let key = k.to_owned();
    let ghost v0 = v@;
    let ghost es = named_v(v@);
    let ghost xv = x@;
    let mut i: usize = 0;
    while i < v.len()
        invariant
            i <= v@.len(),
            key@ == k@,
            xv == x@,
            v@ == v0,
            es == named_v(v0),
            es == named_v(old(v)@),
            order_map::seek(es, k@, 0) == order_map::seek(es, k@, i as int),
        decreases v@.len() - i,
    {
        assert(es[i as int].0 == v0[i as int].0@);
        if v[i].0 == key {
            v.set(i, (key, x));
            assert(named_v(v@) =~= es.update(i as int, (k@, xv)));
            return ;
        }
        i += 1;
    }
    v.push((key, x));
    assert(named_v(v@) =~= es.push((k@, xv)));
}

/// The node of a name.
pub fn find_named<'a>(v: &'a Vec<(String, Sexp)>, k: &str) -> (r: Option<&'a Sexp>)
    ensures
        node_v(r) == order_map::look(named_v(v@), k@),
        r is Some ==> exists|i: int| 0 <= i < v@.len() && (#[trigger] v@[i]).1 == *r->0,
{
    let key = k.to_owned();
    let ghost es = named_v(v@);
    let mut i: usize = 0;
    while i < v.len()
        invariant
            i <= v@.len(),
            key@ == k@,
            es == named_v(v@),
            order_map::seek(es, k@, 0) == order_map::seek(es, k@, i as int),
        decreases v@.len() - i,
    {
        assert(es[i as int] == (v@[i as int].0@, v@[i as int].1@));
        if v[i].0 == key {
            return Some(&v[i].1);
        }
        i += 1;
    }
    None
}

// ---------------------------------------------------------------- reading

pub open spec fn is_space(c: char) -> bool {
    c == ' ' || ('\t' <= c && c <= '\r')
}

/// First position from `i` on that holds no space.
pub open spec fn skip_space(s: Seq<char>, i: int) -> int
    decreases s.len() - i,
{
    if 0 <= i < s.len() && is_space(s[i]) {
        skip_space(s, i + 1)
    } else {
        i
    }
}

pub open spec fn ends_token(c: char) -> bool {
    is_space(c) || c == '(' || c == ')' || c == '"'
}

/// First position from `i` on at which a bare token ends.
pub open spec fn token_end(s: Seq<char>, i: int) -> int
    decreases s.len() - i,
{
    if 0 <= i < s.len() && !ends_token(s[i]) {
        token_end(s, i + 1)
    } else {
        i
    }
}

/// First position from `i` on of the quote that closes a string, or the length; a backslash takes
/// the character behind it along.
pub open spec fn string_end(s: Seq<char>, i: int) -> int
    decreases s.len() - i,
{
    if i < 0 || i >= s.len() {
        s.len() as int
    } else if s[i] == '\\' {
        if i + 2 <= s.len() {
            string_end(s, i + 2)
        } else {
            s.len() as int
        }
    } else if s[i] == '"' {
        i
    } else {
        string_end(s, i + 1)
    }
}

/// The text of a quoted string: escaped quotes, then newlines, then backslashes are put back.
pub open spec fn unescaped(raw: Seq<char>) -> Seq<char> {
    text::replaced(
        text::replaced(
            text::replaced(raw, seq!['\\', '"'], seq!['"']),
            seq!['\\', 'n'],
            seq!['\n'],
        ),
        seq!['\\', '\\'],
        seq!['\\'],
    )
}

/// An integer token: digits behind at most one minus sign.
pub open spec fn is_int_token(a: Seq<char>) -> bool {
    let k = if a.len() > 0 && a[0] == '-' {
        1int
    } else {
        0
    };
    k < a.len() && number::run_end(a, k) == a.len()
}

pub open spec fn int_token(a: Seq<char>) -> int {
    if a[0] == '-' {
        -number::value(a.skip(1))
    } else {
        number::value(a)
    }
}

pub open spec fn digits_in(a: Seq<char>, i: int, j: int) -> bool {
    forall|k: int| i <= k < j ==> text::is_digit(#[trigger] a[k])
}

/// Whether a token is a decimal number whose sign ends at `s`, whose first digits end at `i`, whose
/// point ends at `j` and whose last digits before the exponent end at `k`.
pub open spec fn split_as(a: Seq<char>, s: int, i: int, j: int, k: int) -> bool {
    &&& 0 <= s <= i <= j < k <= a.len()
    &&& s == 0 || (s == 1 && a[0] == '-')
    &&& digits_in(a, s, i)
    &&& j == i || (j == i + 1 && a[i] == '.')
    &&& digits_in(a, j, k)
    &&& k == a.len() || exponent_from(a, k)
}

/// Whether a token ends in an exponent from position `k` on: an `e`, perhaps a minus sign, and
/// digits.
pub open spec fn exponent_from(a: Seq<char>, k: int) -> bool {
    let n = if k + 1 < a.len() && a[k + 1] == '-' {
        k + 2
    } else {
        k + 1
    };
    a[k] == 'e' && n < a.len() && digits_in(a, n, a.len() as int)
}

/// A token that matches `-?\d*\.?\d+(e-?\d+)?` as a whole.
pub open spec fn plain_float(a: Seq<char>) -> bool {
    exists|s: int, i: int, j: int, k: int| #[trigger] split_as(a, s, i, j, k)
}

/// What a bare token stands for. A number too large or too long to be held stays a symbol.
pub open spec fn atom_of(a: Seq<char>) -> SexpV {
    if is_int_token(a) && i64::MIN <= int_token(a) <= i64::MAX {
        SexpV::Int(int_token(a))
    } else if plain_float(a) && number::number_of(a) is Some {
        SexpV::Dec(number::number_of(a)->0)
    } else {
        SexpV::Sym(a)
    }
}

pub open spec fn push_top(stack: Seq<Seq<SexpV>>, n: SexpV) -> Seq<Seq<SexpV>> {
    stack.update(stack.len() - 1, stack.last().push(n))
}

pub proof fn lemma_skip(s: Seq<char>, i: int)
    requires
        0 <= i <= s.len(),
    ensures
        i <= skip_space(s, i) <= s.len(),
        skip_space(s, i) < s.len() ==> !is_space(s[skip_space(s, i)]),
    decreases s.len() - i,
{
    if i < s.len() && is_space(s[i]) {
        lemma_skip(s, i + 1);
    }
}

pub proof fn lemma_token(s: Seq<char>, i: int)
    requires
        0 <= i <= s.len(),
    ensures
        i <= token_end(s, i) <= s.len(),
        i < s.len() && !ends_token(s[i]) ==> i < token_end(s, i),
    decreases s.len() - i,
{
    if i < s.len() && !ends_token(s[i]) {
        lemma_token(s, i + 1);
    }
}

pub proof fn lemma_string(s: Seq<char>, i: int)
    requires
        0 <= i <= s.len(),
    ensures
        i <= string_end(s, i) <= s.len(),
    decreases s.len() - i,
{
    if i < s.len() {
        if s[i] == '\\' {
            if i + 2 <= s.len() {
                lemma_string(s, i + 2);
            }
        } else if s[i] != '"' {
            lemma_string(s, i + 1);
        }
    }
}

/// What is read from position `i` on, inside the open lists `stack`: the first list that closes with
/// none around it, or the outermost open list where the text ends first.
pub open spec fn read_from(s: Seq<char>, i: int, stack: Seq<Seq<SexpV>>) -> Option<SexpV>
    decreases s.len() - i,
{
    if i < 0 || i > s.len() {
        None
    } else {
        let p = skip_space(s, i);
        proof {
            lemma_skip(s, i);
        }
        if p >= s.len() {
            if stack.len() > 0 {
                Some(SexpV::List(stack[0]))
            } else {
                None
            }
        } else if s[p] == '(' {
            read_from(s, p + 1, stack.push(Seq::empty()))
        } else if s[p] == ')' {
            if stack.len() == 0 {
                None
            } else if stack.len() == 1 {
                Some(SexpV::List(stack[0]))
            } else {
                read_from(s, p + 1, push_top(stack.drop_last(), SexpV::List(stack.last())))
            }
        } else if s[p] == '"' {
            let end = string_end(s, p + 1);
            proof {
                lemma_string(s, p + 1);
            }
            if stack.len() == 0 {
                None
            } else {
                read_from(
                    s,
                    if end < s.len() {
                        end + 1
                    } else {
                        end
                    },
                    push_top(stack, SexpV::Str(unescaped(s.subrange(p + 1, end)))),
                )
            }
        } else {
            let end = token_end(s, p);
            proof {
                lemma_token(s, p);
            }
            if stack.len() == 0 {
                None
            } else {
                read_from(s, end, push_top(stack, atom_of(s.subrange(p, end))))
            }
        }
    }
}

/// The first complete s-expression in a text.
pub open spec fn loaded(s: Seq<char>) -> Option<SexpV> {
    read_from(s, 0, Seq::empty())
}

fn part_text(v: &Vec<char>, from: usize, to: usize) -> (r: String)
    requires
        from <= to <= v@.len(),
    ensures
        r@ == v@.subrange(from as int, to as int),
{
    let mut r = String::new();
    let mut i: usize = from;
    assert(r@ =~= v@.subrange(from as int, from as int));
    while i < to
        invariant
            from <= i <= to <= v@.len(),
            r@ == v@.subrange(from as int, i as int),
        decreases to - i,
    {
        assert(v@.subrange(from as int, i + 1) =~= v@.subrange(from as int, i as int).push(
            v@[i as int],
        ));
        r.push(v[i]);
        i += 1;
    }
    r
}

fn unescape(raw: &str) -> (r: String)
    ensures
        r@ == unescaped(raw@),
{
    proof {
        reveal_strlit("\\\"");
        reveal_strlit("\"");
        reveal_strlit("\\n");
        reveal_strlit("\n");
        reveal_strlit("\\\\");
        reveal_strlit("\\");
        assert("\\\""@ =~= seq!['\\', '"']);
        assert("\""@ =~= seq!['"']);
        assert("\\n"@ =~= seq!['\\', 'n']);
        assert("\n"@ =~= seq!['\n']);
        assert("\\\\"@ =~= seq!['\\', '\\']);
        assert("\\"@ =~= seq!['\\']);
    }
    let a = replace_all(raw, "\\\"", "\"");
    let b = replace_all(a.as_str(), "\\n", "\n");
    replace_all(b.as_str(), "\\\\", "\\")
}

fn digits_end(v: &Vec<char>, i: usize) -> (r: usize)
    requires
        i <= v@.len(),
    ensures
        r == number::run_end(v@, i as int),
        i <= r <= v@.len(),
{
    let mut r: usize = i;
    while r < v.len() && '0' <= v[r] && v[r] <= '9'
        invariant
            i <= r <= v@.len(),
            number::run_end(v@, i as int) == number::run_end(v@, r as int),
        decreases v@.len() - r,
    {
        r += 1;
    }
    r
}

proof fn lemma_run(a: Seq<char>, i: int)
    requires
        0 <= i <= a.len(),
    ensures
        i <= number::run_end(a, i) <= a.len(),
        digits_in(a, i, number::run_end(a, i)),
        number::run_end(a, i) < a.len() ==> !text::is_digit(a[number::run_end(a, i)]),
    decreases a.len() - i,
{
    if i < a.len() && text::is_digit(a[i]) {
        lemma_run(a, i + 1);
    }
}

/// Where the parts of a decimal number can end: the sign, the first digits and the last ones.
proof fn lemma_split(a: Seq<char>, s: int, i: int, j: int, k: int)
    requires
        split_as(a, s, i, j, k),
    ensures
        s == (if a.len() > 0 && a[0] == '-' {
            1int
        } else {
            0
        }),
        ({
            let m = number::run_end(a, s);
            if m < a.len() && a[m] == '.' {
                j == m + 1 && k == number::run_end(a, j)
            } else {
                m > s && k == m
            }
        }),
{
    lemma_run(a, s);
    let m = number::run_end(a, s);
    if a.len() > 0 && a[0] == '-' && s == 0 {
        assert(!text::is_digit(a[0]));
        if i > 0 {
            assert(text::is_digit(a[0]));
        }
        if j == i {
            assert(text::is_digit(a[0]));
        }
    }
    if j == i + 1 {
        assert(m == i) by {
            if m > i {
                assert(text::is_digit(a[i]));
            }
            if m < i {
                assert(text::is_digit(a[m]));
            }
        }
        lemma_run(a, j);
        let n = number::run_end(a, j);
        if n > k {
            assert(text::is_digit(a[k]));
        }
        if n < k {
            assert(text::is_digit(a[n]));
        }
    } else {
        assert(digits_in(a, s, k));
        if m < k {
            assert(text::is_digit(a[m]));
        }
        if m > k {
            assert(text::is_digit(a[k]));
        }
    }
}

/// Whether a token matches `-?\d*\.?\d+(e-?\d+)?` as a whole.
pub fn is_plain_float(a: &str) -> (r: bool)
    ensures
        r == plain_float(a@),
{
    let v = chars_of(a);
    let ghost t = a@;
    let n: usize = v.len();
    let s: usize = if n > 0 && v[0] == '-' { 1 } else { 0 };
    let m: usize = digits_end(&v, s);
    proof {
        lemma_run(t, s as int);
        if plain_float(t) {
            let (p, i, j, k) = choose|p: int, i: int, j: int, k: int| #[trigger]
                split_as(t, p, i, j, k);
            lemma_split(t, p, i, j, k);
        }
    }
    let point = m < n && v[m] == '.';
    let j: usize = if point { m + 1 } else { s };
    let k: usize = if point { digits_end(&v, m + 1) } else { m };
    proof {
        lemma_run(t, j as int);
    }
    if k == j {
        return false;
    }
    let ghost i = if point {
        m as int
    } else {
        s as int
    };
    if k == n {
        assert(split_as(t, s as int, i, j as int, k as int));
        return true;
    }
    if v[k] != 'e' {
        return false;
    }
    let x: usize = if k + 1 < n && v[k + 1] == '-' { k + 2 } else { k + 1 };
    if x >= n {
        return false;
    }
    let y: usize = digits_end(&v, x);
    proof {
        lemma_run(t, x as int);
    }
    if y == n {
        assert(exponent_from(t, k as int));
        assert(split_as(t, s as int, i, j as int, k as int));
        true
    } else {
        assert(!text::is_digit(t[y as int]));
        false
    }
}

fn read_int(v: &Vec<char>) -> (r: Option<i64>)
    ensures
        match r {
            Some(x) => is_int_token(v@) && int_token(v@) == x,
            None => !(is_int_token(v@) && i64::MIN <= int_token(v@) <= i64::MAX),
        },
{
    let n: usize = v.len();
    let k: usize = if n > 0 && v[0] == '-' { 1 } else { 0 };
    if k >= n {
        return None;
    }
    if digits_end(v, k) != n {
        return None;
    }
    let ghost d = v@.skip(k as int);
    assert(k == 0 ==> d =~= v@);
    let neg = k == 1;
    let mut r: i128 = 0;
    let mut i: usize = k;
    proof {
        lemma_digits_between(v@, k as int);
        assert(d.take(0) =~= Seq::empty());
    }
    while i < n
        invariant
            k <= i <= n,
            n == v@.len(),
            d == v@.skip(k as int),
            forall|j: int| k <= j < n ==> text::is_digit(#[trigger] v@[j]),
            r == number::value(d.take(i - k)),
            0 <= r <= 0x8000_0000_0000_0000,
            is_int_token(v@),
            int_token(v@) == (if neg {
                -number::value(d)
            } else {
                number::value(d)
            }),
        decreases n - i,
    {
        let c = v[i];
        assert(text::is_digit(v@[i as int]));
        proof {
            assert(d.take(i - k + 1) =~= d.take(i - k).push(c));
            assert(d.take(i - k).push(c).drop_last() =~= d.take(i - k));
        }
        r = r * 10 + ((c as i128) - 48);
        i += 1;
        if r > 0x8000_0000_0000_0000 {
            proof {
                lemma_value_grows(d, i - k);
            }
            return None;
        }
    }
    assert(d.take(n - k) =~= d);
    if neg {
        Some((-r) as i64)
    } else if r <= 0x7fff_ffff_ffff_ffff {
        Some(r as i64)
    } else {
        None
    }
}

proof fn lemma_digits_between(s: Seq<char>, i: int)
    requires
        0 <= i <= s.len(),
        number::run_end(s, i) == s.len(),
    ensures
        forall|j: int| i <= j < s.len() ==> text::is_digit(#[trigger] s[j]),
    decreases s.len() - i,
{
    if i < s.len() {
        assert(text::is_digit(s[i]));
        lemma_digits_between(s, i + 1);
    }
}

proof fn lemma_value_grows(d: Seq<char>, n: int)
    requires
        0 <= n <= d.len(),
        forall|j: int| 0 <= j < d.len() ==> text::is_digit(#[trigger] d[j]),
    ensures
        0 <= number::value(d.take(n)) <= number::value(d),
    decreases d.len() + n,
{
    if n < d.len() {
        lemma_value_grows(d.drop_last(), n);
        assert(d.drop_last().take(n) =~= d.take(n));
        assert(text::is_digit(d.last()));
    } else {
        assert(d.take(n) =~= d);
        if n > 0 {
            lemma_value_grows(d.drop_last(), n - 1);
            assert(d.drop_last().take(n - 1) =~= d.drop_last());
            assert(text::is_digit(d.last()));
        }
    }
}

fn read_atom(a: String) -> (r: Sexp)
    ensures
        r@ == atom_of(a@),
        ok(r@),
{
    let v = chars_of(a.as_str());
    if let Some(i) = read_int(&v) {
        return Sexp::Int(i);
    }
    if is_plain_float(a.as_str()) {
        if let Some(d) = read_number(a.as_str()) {
            return Sexp::Dec(d);
        }
    }
    Sexp::Sym(a)
}

pub open spec fn stack_v(v: Seq<Vec<Sexp>>) -> Seq<Seq<SexpV>> {
    Seq::new(v.len(), |i: int| nodes_v(v[i]@))
}

spec fn stack_ok(v: Seq<Seq<SexpV>>) -> bool {
    forall|i: int| 0 <= i < v.len() ==> all_ok(#[trigger] v[i])
}

fn push_node(stack: &mut Vec<Vec<Sexp>>, n: Sexp)
    requires
        old(stack)@.len() > 0,
        stack_ok(stack_v(old(stack)@)),
        ok(n@),
    ensures
        stack_v(final(stack)@) == push_top(stack_v(old(stack)@), n@),
        stack_ok(stack_v(final(stack)@)),
        final(stack)@.len() == old(stack)@.len(),
{
    let ghost s0 = stack_v(stack@);
    let k: usize = stack.len();
    let mut top: Vec<Sexp> = match stack.pop() {
        Some(t) => t,
        None => Vec::new(),
    };
    let ghost t0 = top@;
    let ghost nv = n@;
    assert(nodes_v(t0) == s0[k - 1]);
    top.push(n);
    assert(nodes_v(top@) =~= nodes_v(t0).push(nv));
    let ghost t1 = nodes_v(top@);
    stack.push(top);
    proof {
        assert(stack_v(stack@) =~= push_top(s0, nv));
        assert forall|i: int| 0 <= i < stack_v(stack@).len() implies all_ok(
            #[trigger] stack_v(stack@)[i],
        ) by {
            assert(all_ok(s0[i]));
            if i == k - 1 {
                assert(stack_v(stack@)[i] == s0[i].push(nv));
            }
        }
    }
}

/// Reads the first complete s-expression in a text. A text that ends inside a list gives the
/// outermost list as far as it goes; an atom or a closing bracket outside every list gives none.
pub fn loads(t: &str) -> (r: Option<Sexp>)
    ensures
        match r {
            Some(n) => loaded(t@) == Some(n@) && ok(n@),
            None => loaded(t@) is None,
        },
{
    let s = chars_of(t);
    let n: usize = s.len();
    let mut stack: Vec<Vec<Sexp>> = Vec::new();
    let mut i: usize = 0;
    assert(stack_v(stack@) =~= Seq::empty());
    loop
        invariant
            i <= n,
            n == s@.len(),
            s@ == t@,
            stack_ok(stack_v(stack@)),
            loaded(t@) == read_from(s@, i as int, stack_v(stack@)),
        decreases n - i,
    {
        proof {
            lemma_skip(s@, i as int);
        }
        let ghost i0 = i;
        let ghost before = stack_v(stack@);
        let mut p: usize = i;
        while p < n && (s[p] == ' ' || ('\t' <= s[p] && s[p] <= '\r'))
            invariant
                i <= p <= n,
                n == s@.len(),
                skip_space(s@, i as int) == skip_space(s@, p as int),
            decreases n - p,
        {
            p += 1;
        }
        assert(p == skip_space(s@, i as int));
        if p >= n {
            if stack.len() == 0 {
                return None;
            }
            let first: Vec<Sexp> = stack.swap_remove(0);
            proof {
                lemma_list_view(first);
                assert(all_ok(before[0]));
                assert(nodes_v(first@) == before[0]);
                lemma_ok_all(before[0]);
            }
            return Some(Sexp::List(first));
        }
        let c = s[p];
        if c == '(' {
            stack.push(Vec::new());
            proof {
                let e = stack@[stack@.len() - 1];
                assert(nodes_v(e@) =~= Seq::empty());
                assert(stack_v(stack@) =~= before.push(Seq::empty()));
                assert forall|k: int| 0 <= k < stack_v(stack@).len() implies all_ok(
                    #[trigger] stack_v(stack@)[k],
                ) by {
                    if k < before.len() {
                        assert(all_ok(before[k]));
                    }
                }
            }
            i = p + 1;
        } else if c == ')' {
            let top: Vec<Sexp> = match stack.pop() {
                Some(v) => v,
                None => {
                    return None;
                },
            };
            let ghost rest = stack_v(stack@);
            proof {
                lemma_list_view(top);
                assert(nodes_v(top@) == before.last());
                assert(rest =~= before.drop_last());
                assert(all_ok(before[before.len() - 1]));
                lemma_ok_all(before.last());
            }
            if stack.len() == 0 {
                assert(before.last() == before[0]);
                return Some(Sexp::List(top));
            }
            proof {
                assert forall|k: int| 0 <= k < rest.len() implies all_ok(#[trigger] rest[k]) by {
                    assert(all_ok(before[k]));
                }
            }
            push_node(&mut stack, Sexp::List(top));
            i = p + 1;
        } else if c == '"' {
            let mut e: usize = p + 1;
            let mut going = true;
            proof {
                lemma_string(s@, p + 1);
            }
            while going && e < n
                invariant
                    p + 1 <= e <= n,
                    n == s@.len(),
                    going ==> string_end(s@, p + 1) == string_end(s@, e as int),
                    !going ==> string_end(s@, p + 1) == e,
                decreases (if going { 1int } else { 0 }), n - e,
            {
                if s[e] == '\\' {
                    if n - e >= 2 {
                        e += 2;
                    } else {
                        e = n;
                    }
                } else if s[e] == '"' {
                    going = false;
                } else {
                    e += 1;
                }
            }
            if stack.len() == 0 {
                return None;
            }
            let raw = part_text(&s, p + 1, e);
            let text = unescape(raw.as_str());
            push_node(&mut stack, Sexp::Str(text));
            i = if e < n { e + 1 } else { e };
        } else {
            let mut e: usize = p;
            proof {
                lemma_token(s@, p as int);
            }
            while e < n && !(s[e] == ' ' || ('\t' <= s[e] && s[e] <= '\r') || s[e] == '(' || s[e]
                == ')' || s[e] == '"')
                invariant
                    p <= e <= n,
                    n == s@.len(),
                    token_end(s@, p as int) == token_end(s@, e as int),
                decreases n - e,
            {
                e += 1;
            }
            if stack.len() == 0 {
                return None;
            }
            let a = part_text(&s, p, e);
            push_node(&mut stack, read_atom(a));
            i = e;
        }
    }
}

pub proof fn lemma_ok_all(v: Seq<SexpV>)
    requires
        all_ok(v),
    ensures
        ok(SexpV::List(v)),
{
}

// ---------------------------------------------------------------- writing

pub open spec fn escape_char(c: char) -> Seq<char> {
    if c == '\\' {
        seq!['\\', '\\']
    } else if c == '"' {
        seq!['\\', '"']
    } else if c == '\n' {
        seq!['\\', 'n']
    } else {
        seq![c]
    }
}

pub open spec fn escaped(s: Seq<char>) -> Seq<char>
    decreases s.len(),
{
    if s.len() == 0 {
        Seq::empty()
    } else {
        escaped(s.drop_last()) + escape_char(s.last())
    }
}

/// A string in quotes, with backslashes, quotes and newlines escaped.
pub open spec fn quoted(s: Seq<char>) -> Seq<char> {
    seq!['"'] + escaped(s) + seq!['"']
}

pub open spec fn atom_text(n: SexpV) -> Seq<char> {
    match n {
        SexpV::Str(s) => quoted(s),
        _ => text_of(n),
    }
}

pub open spec fn any_list(v: Seq<SexpV>, n: int) -> bool {
    exists|i: int| 0 <= i < n && (#[trigger] v[i]) is List
}

/// The text of a node behind the indentation `pad`: one child list per line.
pub open spec fn dumped(n: SexpV, pad: Seq<char>) -> Seq<char>
    decreases n, 0nat,
{
    match n {
        SexpV::List(v) => pad + seq!['('] + dumped_items(v, pad, v.len()) + (if any_list(
            v,
            v.len() as int,
        ) {
            seq!['\n'] + pad + seq![')']
        } else {
            seq![')']
        }),
        _ => pad + atom_text(n),
    }
}

/// The text of the first `n` items of a list.
pub open spec fn dumped_items(v: Seq<SexpV>, pad: Seq<char>, n: nat) -> Seq<char>
    decreases v, n,
{
    if n == 0 || n > v.len() {
        Seq::empty()
    } else {
        let c = v[n - 1];
        dumped_items(v, pad, (n - 1) as nat) + (if c is List {
            seq!['\n'] + dumped(c, pad.push('\t'))
        } else if any_list(v, n - 1) {
            seq!['\n'] + pad + seq!['\t'] + atom_text(c)
        } else if n > 1 {
            seq![' '] + atom_text(c)
        } else {
            atom_text(c)
        })
    }
}

// ---------------------------------------------------------------- what is written reads back
/// Whether every atom of a tree reads back from its own text. A string does not where a backslash
/// stands before an `n`; a symbol does not where it looks like a number or holds a space, a bracket
/// or a quote; a decimal number does not where it is whole.
pub open spec fn reads_back(n: SexpV) -> bool
    decreases n,
{
    match n {
        SexpV::List(v) => forall|i: int| 0 <= i < v.len() ==> reads_back(#[trigger] v[i]),
        SexpV::Str(s) => unescaped(escaped(s)) == s,
        _ => is_token(text_of(n)) && atom_of(text_of(n)) == n,
    }
}

/// Whether what is written for a node can be read as a node of the same shape.
pub open spec fn legible(n: SexpV) -> bool
    decreases n,
{
    match n {
        SexpV::List(v) => forall|i: int| 0 <= i < v.len() ==> legible(#[trigger] v[i]),
        SexpV::Str(s) => unescaped(escaped(s)) == s,
        _ => is_token(text_of(n)),
    }
}

/// A node as it is read after it was written: a bare token stands for what it looks like.
pub open spec fn reread(n: SexpV) -> SexpV
    decreases n, 0nat,
{
    match n {
        SexpV::List(v) => SexpV::List(reread_items(v, v.len())),
        SexpV::Str(s) => n,
        _ => atom_of(text_of(n)),
    }
}

/// The first `k` nodes of a list as they are read.
pub open spec fn reread_items(v: Seq<SexpV>, k: nat) -> Seq<SexpV>
    decreases v, k,
{
    if k == 0 || k > v.len() {
        Seq::empty()
    } else {
        reread_items(v, (k - 1) as nat).push(reread(v[k - 1]))
    }
}

/// What is read of a list is read item by item.
pub proof fn lemma_reread_items(v: Seq<SexpV>, k: nat)
    requires
        k <= v.len(),
    ensures
        reread_items(v, k) == Seq::new(k, |i: int| reread(v[i])),
    decreases k,
{
    if k > 0 {
        lemma_reread_items(v, (k - 1) as nat);
    }
    assert(reread_items(v, k) =~= Seq::new(k, |i: int| reread(v[i])));
}

/// A node whose atoms read back is read as it was written.
proof fn lemma_reads_back(n: SexpV)
    requires
        reads_back(n),
    ensures
        legible(n),
        reread(n) == n,
    decreases n,
{
    match n {
        SexpV::List(v) => {
            assert forall|i: int| 0 <= i < v.len() implies legible(#[trigger] v[i]) && reread(v[i])
                == v[i] by {
                assert(reads_back(v[i]));
                lemma_reads_back(v[i]);
            }
            lemma_reread_items(v, v.len());
            assert(reread_items(v, v.len()) =~= v);
        },
        _ => {},
    }
}

pub open spec fn is_token(a: Seq<char>) -> bool {
    a.len() > 0 && forall|i: int| 0 <= i < a.len() ==> !ends_token(#[trigger] a[i])
}

pub open spec fn all_space(a: Seq<char>) -> bool {
    forall|i: int| 0 <= i < a.len() ==> is_space(#[trigger] a[i])
}

proof fn lemma_over_space(s: Seq<char>, i: int, j: int, st: Seq<Seq<SexpV>>)
    requires
        0 <= i <= j <= s.len(),
        forall|k: int| i <= k < j ==> is_space(#[trigger] s[k]),
    ensures
        read_from(s, i, st) == read_from(s, j, st),
    decreases j - i,
{
    if i < j {
        assert(is_space(s[i]));
        lemma_over_space(s, i + 1, j, st);
        assert(skip_space(s, i) == skip_space(s, i + 1));
    }
}

proof fn lemma_token_ends(s: Seq<char>, i: int, j: int)
    requires
        0 <= i <= j <= s.len(),
        forall|k: int| i <= k < j ==> !ends_token(#[trigger] s[k]),
        j == s.len() || ends_token(s[j]),
    ensures
        token_end(s, i) == j,
    decreases j - i,
{
    if i < j {
        assert(!ends_token(s[i]));
        lemma_token_ends(s, i + 1, j);
    }
}

proof fn lemma_escaped_first(s: Seq<char>)
    requires
        s.len() > 0,
    ensures
        escaped(s) == escape_char(s[0]) + escaped(s.skip(1)),
    decreases s.len(),
{
    if s.len() == 1 {
        assert(s.drop_last() =~= Seq::empty());
        assert(s.skip(1) =~= Seq::empty());
        assert(escaped(s) =~= escape_char(s[0]) + escaped(s.skip(1)));
    } else {
        lemma_escaped_first(s.drop_last());
        assert(s.skip(1).drop_last() =~= s.drop_last().skip(1));
        assert(s.skip(1).last() == s.last());
        assert(escaped(s) =~= escape_char(s[0]) + escaped(s.skip(1)));
    }
}

proof fn lemma_string_ends(t: Seq<char>, p: int, s: Seq<char>)
    requires
        0 <= p,
        p + escaped(s).len() < t.len(),
        forall|k: int| 0 <= k < escaped(s).len() ==> t[p + k] == #[trigger] escaped(s)[k],
        t[p + escaped(s).len()] == '"',
    ensures
        string_end(t, p) == p + escaped(s).len(),
    decreases s.len(),
{
    if s.len() > 0 {
        lemma_escaped_first(s);
        let e = escape_char(s[0]);
        let rest = escaped(s.skip(1));
        assert(escaped(s)[0] == e[0]);
        assert(t[p + 0] == e[0]);
        assert forall|k: int| 0 <= k < rest.len() implies t[p + e.len() + k] == #[trigger] rest[k] by {
            assert(escaped(s)[e.len() + k] == rest[k]);
        }
        lemma_string_ends(t, p + e.len(), s.skip(1));
    }
}

proof fn lemma_read_string(pre: Seq<char>, x: Seq<char>, tail: Seq<char>, st: Seq<Seq<SexpV>>)
    requires
        st.len() > 0,
        unescaped(escaped(x)) == x,
    ensures
        read_from(pre + quoted(x) + tail, pre.len() as int, st) == read_from(
            pre + quoted(x) + tail,
            (pre + quoted(x)).len() as int,
            push_top(st, SexpV::Str(x)),
        ),
{
    let s = pre + quoted(x) + tail;
    let p = pre.len() as int;
    let n = escaped(x).len() as int;
    assert(s[p] == '"');
    assert(skip_space(s, p) == p);
    assert forall|k: int| 0 <= k < n implies s[p + 1 + k] == #[trigger] escaped(x)[k] by {
        assert(quoted(x)[k + 1] == escaped(x)[k]);
    }
    assert(quoted(x)[n + 1] == '"');
    assert(s[p + 1 + n] == '"');
    lemma_string_ends(s, p + 1, x);
    assert(s.subrange(p + 1, p + 1 + n) =~= escaped(x));
}

proof fn lemma_read_token(pre: Seq<char>, n: SexpV, tail: Seq<char>, st: Seq<Seq<SexpV>>)
    requires
        st.len() > 0,
        is_token(text_of(n)),
        !(n is List),
        !(n is Str),
        tail.len() == 0 || ends_token(tail[0]),
    ensures
        read_from(pre + text_of(n) + tail, pre.len() as int, st) == read_from(
            pre + text_of(n) + tail,
            (pre + text_of(n)).len() as int,
            push_top(st, reread(n)),
        ),
{
    let a = text_of(n);
    let s = pre + a + tail;
    let p = pre.len() as int;
    let e = p + a.len();
    assert forall|k: int| p <= k < e implies !ends_token(#[trigger] s[k]) by {
        assert(s[k] == a[k - p]);
    }
    assert(s[p] == a[0]);
    assert(!ends_token(s[p]));
    assert(skip_space(s, p) == p);
    if tail.len() > 0 {
        assert(s[e] == tail[0]);
    }
    lemma_token_ends(s, p, e);
    assert(s.subrange(p, e) =~= a);
}

proof fn lemma_read_atom(pre: Seq<char>, n: SexpV, tail: Seq<char>, st: Seq<Seq<SexpV>>)
    requires
        st.len() > 0,
        !(n is List),
        legible(n),
        tail.len() == 0 || ends_token(tail[0]),
    ensures
        read_from(pre + atom_text(n) + tail, pre.len() as int, st) == read_from(
            pre + atom_text(n) + tail,
            (pre + atom_text(n)).len() as int,
            push_top(st, reread(n)),
        ),
{
    match n {
        SexpV::Str(x) => lemma_read_string(pre, x, tail, st),
        _ => lemma_read_token(pre, n, tail, st),
    }
}

/// The items of a list are read one behind the other.
#[verifier::spinoff_prover]
#[verifier::rlimit(80)]
proof fn lemma_read_items(
    pre: Seq<char>,
    v: Seq<SexpV>,
    pad: Seq<char>,
    n: nat,
    tail: Seq<char>,
    st: Seq<Seq<SexpV>>,
)
    requires
        n <= v.len(),
        all_space(pad),
        forall|i: int| 0 <= i < v.len() ==> legible(#[trigger] v[i]),
        tail.len() > 0,
        ends_token(tail[0]),
    ensures
        read_from(pre + dumped_items(v, pad, n) + tail, pre.len() as int, st.push(Seq::empty()))
            == read_from(
            pre + dumped_items(v, pad, n) + tail,
            (pre + dumped_items(v, pad, n)).len() as int,
            st.push(reread_items(v, n)),
        ),
    decreases v, n,
{
    let body = dumped_items(v, pad, n);
    let s = pre + body + tail;
    if n == 0 {
        assert(body =~= Seq::empty());
    } else {
        let c = v[n - 1];
        assert(legible(c));
        let before = dumped_items(v, pad, (n - 1) as nat);
        let gap = if c is List {
            seq!['\n']
        } else if any_list(v, n - 1) {
            seq!['\n'] + pad + seq!['\t']
        } else if n > 1 {
            seq![' ']
        } else {
            Seq::empty()
        };
        let shown = if c is List {
            dumped(c, pad.push('\t'))
        } else {
            atom_text(c)
        };
        assert(body =~= before + (gap + shown));
        let after = gap + shown + tail;
        assert(s =~= pre + before + after);
        let st1 = st.push(reread_items(v, (n - 1) as nat));
        let b = (pre + before).len() as int;
        if n > 1 {
            assert(gap.len() > 0);
            assert(after[0] == gap[0]);
            assert(is_space(after[0]));
            lemma_read_items(pre, v, pad, (n - 1) as nat, after, st);
        } else {
            assert(before =~= Seq::empty());
        }
        assert(read_from(s, pre.len() as int, st.push(Seq::empty())) == read_from(s, b, st1));
        let e = b + gap.len();
        assert forall|k: int| b <= k < e implies is_space(#[trigger] s[k]) by {
            assert(s[k] == gap[k - b]);
            if !(c is List) && any_list(v, n - 1) {
                if 0 < k - b <= pad.len() {
                    assert(gap[k - b] == pad[k - b - 1]);
                }
            }
        }
        lemma_over_space(s, b, e, st1);
        let pre1 = pre + before + gap;
        assert(s =~= pre1 + shown + tail);
        if c is List {
            assert(all_space(pad.push('\t')));
            lemma_read_list(pre1, c, pad.push('\t'), tail, st1);
        } else {
            lemma_read_atom(pre1, c, tail, st1);
        }
        assert(push_top(st1, reread(c)) =~= st.push(reread_items(v, n)));
        assert((pre1 + shown).len() == (pre + body).len());
    }
}

/// A list inside another one is read as a whole.
proof fn lemma_read_list(
    pre: Seq<char>,
    n: SexpV,
    pad: Seq<char>,
    tail: Seq<char>,
    st: Seq<Seq<SexpV>>,
)
    requires
        st.len() > 0,
        n is List,
        legible(n),
        all_space(pad),
    ensures
        read_from(pre + dumped(n, pad) + tail, pre.len() as int, st) == read_from(
            pre + dumped(n, pad) + tail,
            (pre + dumped(n, pad)).len() as int,
            push_top(st, reread(n)),
        ),
    decreases n, 0nat,
{
    let v = n->List_0;
    let s = pre + dumped(n, pad) + tail;
    let inner = dumped_items(v, pad, v.len());
    let close = if any_list(v, v.len() as int) {
        seq!['\n'] + pad + seq![')']
    } else {
        seq![')']
    };
    let p = pre.len() + pad.len();
    assert(dumped(n, pad) =~= pad + seq!['('] + inner + close);
    assert forall|k: int| pre.len() <= k < p implies is_space(#[trigger] s[k]) by {
        assert(s[k] == pad[k - pre.len()]);
    }
    lemma_over_space(s, pre.len() as int, p as int, st);
    assert(s[p as int] == '(');
    assert(skip_space(s, p as int) == p);
    let pre1 = pre + pad + seq!['('];
    let after = close + tail;
    assert(s =~= pre1 + inner + after);
    assert(after[0] == close[0]);
    assert forall|i: int| 0 <= i < v.len() implies legible(#[trigger] v[i]) by {
        assert(legible(n->List_0[i]));
    }
    lemma_read_items(pre1, v, pad, v.len(), after, st);
    let q = (pre1 + inner).len() as int;
    let r = q + close.len() - 1;
    let st1 = st.push(reread_items(v, v.len()));
    assert forall|k: int| q <= k < r implies is_space(#[trigger] s[k]) by {
        assert(s[k] == close[k - q]);
        if k > q {
            assert(close[k - q] == pad[k - q - 1]);
        }
    }
    lemma_over_space(s, q, r, st1);
    assert(s[r] == close[close.len() - 1]);
    assert(s[r] == ')');
    assert(skip_space(s, r) == r);
    assert(st1.drop_last() =~= st);
    assert(st1.last() == reread_items(v, v.len()));
}

/// A list that is written and read again is the same list, where its atoms read back.
pub proof fn written_lists_read_back(n: SexpV, pad: Seq<char>)
    requires
        n is List,
        reads_back(n),
        all_space(pad),
    ensures
        loaded(dumped(n, pad)) == Some(n),
{
    lemma_reads_back(n);
    written_lists_are_read(n, pad, Seq::empty());
    assert(dumped(n, pad) + Seq::<char>::empty() =~= dumped(n, pad));
}

/// A list that is written and read again is the same list but for how its bare tokens look; what
/// follows it is not read.
pub proof fn written_lists_are_read(n: SexpV, pad: Seq<char>, tail: Seq<char>)
    requires
        n is List,
        legible(n),
        all_space(pad),
    ensures
        loaded(dumped(n, pad) + tail) == Some(reread(n)),
{
    let v = n->List_0;
    let s = dumped(n, pad) + tail;
    let inner = dumped_items(v, pad, v.len());
    let close = if any_list(v, v.len() as int) {
        seq!['\n'] + pad + seq![')']
    } else {
        seq![')']
    };
    let none = Seq::<Seq<SexpV>>::empty();
    let p = pad.len() as int;
    assert(s =~= pad + seq!['('] + inner + (close + tail));
    assert forall|k: int| 0 <= k < p implies is_space(#[trigger] s[k]) by {
        assert(s[k] == pad[k]);
    }
    lemma_over_space(s, 0, p, none);
    assert(s[p] == '(');
    assert(skip_space(s, p) == p);
    assert forall|i: int| 0 <= i < v.len() implies legible(#[trigger] v[i]) by {
        assert(legible(n->List_0[i]));
    }
    let after = close + tail;
    assert(after[0] == close[0]);
    assert(ends_token(after[0]));
    lemma_read_items(pad + seq!['('], v, pad, v.len(), after, none);
    assert(s =~= pad + seq!['('] + inner + (close + tail));
    let q = (pad + seq!['('] + inner).len() as int;
    let r = q + close.len() - 1;
    let st1 = none.push(reread_items(v, v.len()));
    assert forall|k: int| q <= k < r implies is_space(#[trigger] s[k]) by {
        assert(s[k] == close[k - q]);
        if k > q {
            assert(close[k - q] == pad[k - q - 1]);
        }
    }
    lemma_over_space(s, q, r, st1);
    assert(s[r] == close[close.len() - 1]);
    assert(skip_space(s, r) == r);
}

// ---------------------------------------------------------------- strings read back
/// A character of a string whose quotes, newlines and backslashes are put back one after the
/// other: `m` of these have been put back.
pub open spec fn half_escaped(c: char, m: int) -> Seq<char> {
    if c == '\\' && m < 3 {
        seq!['\\', '\\']
    } else if c == '"' && m < 1 {
        seq!['\\', '"']
    } else if c == '\n' && m < 2 {
        seq!['\\', 'n']
    } else {
        seq![c]
    }
}

/// A string from position `j` on, of which `m` kinds of characters have been put back.
pub open spec fn stage(s: Seq<char>, j: int, m: int) -> Seq<char>
    decreases s.len() - j,
{
    if j < 0 || j >= s.len() {
        Seq::empty()
    } else {
        half_escaped(s[j], m) + stage(s, j + 1, m)
    }
}

pub open spec fn stage_from(m: int) -> Seq<char> {
    if m == 0 {
        seq!['\\', '"']
    } else if m == 1 {
        seq!['\\', 'n']
    } else {
        seq!['\\', '\\']
    }
}

pub open spec fn stage_to(m: int) -> Seq<char> {
    if m == 0 {
        seq!['"']
    } else if m == 1 {
        seq!['\n']
    } else {
        seq!['\\']
    }
}

/// No backslash stands before an `n`.
pub open spec fn no_slash_n(s: Seq<char>) -> bool {
    forall|i: int| 0 <= i < s.len() - 1 && #[trigger] s[i] == '\\' ==> s[i + 1] != 'n'
}

proof fn lemma_occurs(t: Seq<char>, a: char, b: char, i: int)
    requires
        0 <= i,
    ensures
        text::occurs_at(t, seq![a, b], i) == (i + 2 <= t.len() && t[i] == a && t[i + 1] == b),
{
    let p = seq![a, b];
    if i + 2 <= t.len() {
        let u = t.subrange(i, i + 2);
        assert(u[0] == t[i] && u[1] == t[i + 1]);
        if t[i] == a && t[i + 1] == b {
            assert(u =~= p);
        } else {
            assert(p[0] == a && p[1] == b);
        }
    }
}

proof fn lemma_stage(s: Seq<char>, j: int, m: int, t: Seq<char>, i: int)
    requires
        0 <= j <= s.len(),
        0 <= m < 3,
        no_slash_n(s),
        0 <= i <= t.len(),
        t.skip(i) == stage(s, j, m),
    ensures
        text::replaced_from(t, stage_from(m), stage_to(m), i) == stage(s, j, m + 1),
    decreases s.len() - j,
{
    let p = stage_from(m);
    let r = stage_to(m);
    if j >= s.len() {
        assert(t.skip(i).len() == 0);
    } else {
        let c = s[j];
        let u = half_escaped(c, m);
        let rest = stage(s, j + 1, m);
        let n = u.len() as int;
        assert(t.skip(i) == u + rest);
        assert(t.len() == i + n + rest.len());
        assert(t[i] == t.skip(i)[0]);
        assert(t.skip(i + n) =~= rest) by {
            assert forall|k: int| 0 <= k < rest.len() implies t.skip(i + n)[k] == rest[k] by {
                assert(t.skip(i)[n + k] == rest[k]);
            }
        }
        lemma_stage(s, j + 1, m, t, i + n);
        lemma_occurs(t, p[0], p[1], i);
        assert(p =~= seq![p[0], p[1]]);
        if n == 2 {
            assert(t[i + 1] == t.skip(i)[1]);
            lemma_occurs(t, p[0], p[1], i + 1);
            if u != p {
                if i + 2 < t.len() {
                    assert(t[i + 2] == t.skip(i)[2]);
                    assert(rest.len() > 0);
                    assert(t[i + 2] == rest[0]);
                    if j + 1 < s.len() {
                        assert(rest[0] == half_escaped(s[j + 1], m)[0]);
                    }
                }
                assert(!text::occurs_at(t, p, i));
                assert(!text::occurs_at(t, p, i + 1));
                assert(text::replaced_from(t, p, r, i + 1) == seq![t[i + 1]]
                    + text::replaced_from(t, p, r, i + 2));
                assert(seq![t[i]] + (seq![t[i + 1]] + text::replaced_from(t, p, r, i + 2)) =~= u
                    + text::replaced_from(t, p, r, i + 2));
            } else {
                assert(text::occurs_at(t, p, i));
            }
        } else {
            assert(c != '\\');
            assert(!text::occurs_at(t, p, i));
        }
    }
}

proof fn lemma_stage_ends(s: Seq<char>, j: int)
    requires
        0 <= j <= s.len(),
    ensures
        stage(s, j, 0) == escaped(s.skip(j)),
        stage(s, j, 3) == s.skip(j),
    decreases s.len() - j,
{
    if j < s.len() {
        lemma_stage_ends(s, j + 1);
        lemma_escaped_first(s.skip(j));
        assert(s.skip(j).skip(1) =~= s.skip(j + 1));
        assert(s.skip(j) =~= seq![s[j]] + s.skip(j + 1));
        assert(half_escaped(s[j], 0) =~= escape_char(s[j]));
    } else {
        assert(s.skip(j) =~= Seq::empty());
    }
}

/// A string that is written and read again is the same string, unless a backslash stands before an
/// `n` in it.
pub proof fn written_strings_read_back(s: Seq<char>)
    requires
        no_slash_n(s),
    ensures
        unescaped(escaped(s)) == s,
{
    let a = escaped(s);
    lemma_stage_ends(s, 0);
    assert(s.skip(0) =~= s);
    assert(a.skip(0) =~= a);
    lemma_stage(s, 0, 0, a, 0);
    let b = stage(s, 0, 1);
    assert(b.skip(0) =~= b);
    lemma_stage(s, 0, 1, b, 0);
    let c = stage(s, 0, 2);
    assert(c.skip(0) =~= c);
    lemma_stage(s, 0, 2, c, 0);
}

fn esc(s: &str) -> (r: String)
    ensures
        r@ == quoted(s@),
{
    let v = chars_of(s);
    let mut r = String::new();
    r.push('"');
    let mut i: usize = 0;
    assert(s@.take(0) =~= Seq::empty());
    assert(r@ =~= seq!['"'] + escaped(s@.take(0)));
    while i < v.len()
        invariant
            i <= v@.len(),
            v@ == s@,
            r@ == seq!['"'] + escaped(s@.take(i as int)),
        decreases v@.len() - i,
    {
        let c = v[i];
        let ghost r0 = r@;
        proof {
            assert(s@.take(i + 1).drop_last() =~= s@.take(i as int));
        }
        if c == '\\' {
            r.push('\\');
            r.push('\\');
        } else if c == '"' {
            r.push('\\');
            r.push('"');
        } else if c == '\n' {
            r.push('\\');
            r.push('n');
        } else {
            r.push(c);
        }
        assert(r@ =~= r0 + escape_char(c));
        assert(r@ =~= seq!['"'] + escaped(s@.take(i + 1)));
        i += 1;
    }
    assert(s@.take(i as int) =~= s@);
    r.push('"');
    assert(r@ =~= quoted(s@));
    r
}

/// The text of an atom.
pub fn atom(v: &Sexp) -> (r: String)
    requires
        ok(v@),
    ensures
        r@ == atom_text(v@),
{
    match v {
        Sexp::Str(s) => esc(s.as_str()),
        _ => v.text(),
    }
}

fn dump(node: &Sexp, pad: &String, out: &mut String)
    requires
        ok(node@),
    ensures
        final(out)@ == old(out)@ + dumped(node@, pad@),
    decreases node,
{
    let ghost o0 = out@;
    match node {
        Sexp::List(items) => {
            proof {
                lemma_list_view(*items);
            }
            let ghost vs = nodes_v(items@);
            assert(node@ == SexpV::List(vs));
            out.append(pad.as_str());
            out.push('(');
            let ghost head = out@;
            let mut deeper = pad.clone();
            deeper.push('\t');
            let mut lists = false;
            let mut i: usize = 0;
            assert(out@ =~= head + dumped_items(vs, pad@, 0));
            while i < items.len()
                invariant
                    i <= items@.len(),
                    node == Sexp::List(*items),
                    vs == nodes_v(items@),
                    node@ == SexpV::List(vs),
                    ok(node@),
                    deeper@ == pad@.push('\t'),
                    lists == any_list(vs, i as int),
                    out@ == head + dumped_items(vs, pad@, i as nat),
                decreases items@.len() - i,
            {
                let c = &items[i];
                assert(vs[i as int] == items@[i as int]@);
                proof {
                    lemma_ok_item(node@, i as int);
                }
                let ghost o1 = out@;
                if c.is_list() {
                    out.push('\n');
                    assert(decreases_to!(node => node->List_0));
                    assert(decreases_to!(items => items@[i as int]));
                    dump(c, &deeper, out);
                    lists = true;
                    assert(out@ =~= o1 + (seq!['\n'] + dumped(c@, deeper@)));
                    assert(vs[i as int] is List);
                } else if lists {
                    out.push('\n');
                    out.append(pad.as_str());
                    out.push('\t');
                    out.append(atom(c).as_str());
                    assert(out@ =~= o1 + (seq!['\n'] + pad@ + seq!['\t'] + atom_text(c@)));
                } else {
                    if i > 0 {
                        out.push(' ');
                    }
                    out.append(atom(c).as_str());
                    if i > 0 {
                        assert(out@ =~= o1 + (seq![' '] + atom_text(c@)));
                    } else {
                        assert(out@ =~= o1 + atom_text(c@));
                    }
                }
                assert(out@ =~= head + dumped_items(vs, pad@, (i + 1) as nat));
                i += 1;
            }
            if lists {
                out.push('\n');
                out.append(pad.as_str());
                out.push(')');
            } else {
                out.push(')');
            }
            assert(out@ =~= o0 + dumped(node@, pad@));
        },
        _ => {
            out.append(pad.as_str());
            out.append(atom(node).as_str());
            assert(out@ =~= o0 + dumped(node@, pad@));
        },
    }
}

pub open spec fn tabs(n: nat) -> Seq<char> {
    Seq::new(n, |i: int| '\t')
}

/// Writes a node, one child list per line, indented by tabs.
pub fn dumps(node: &Sexp, indent: usize) -> (r: String)
    requires
        ok(node@),
    ensures
        r@ == dumped(node@, tabs(indent as nat)),
{
    let mut pad = String::new();
    let mut i: usize = 0;
    assert(pad@ =~= tabs(0));
    while i < indent
        invariant
            i <= indent,
            pad@ == tabs(i as nat),
        decreases indent - i,
    {
        pad.push('\t');
        i += 1;
        assert(pad@ =~= tabs(i as nat));
    }
    let mut out = String::new();
    dump(node, &pad, &mut out);
    assert(out@ =~= dumped(node@, tabs(indent as nat)));
    out
}

} // verus!
