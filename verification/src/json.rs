//! JSON values as the design tools exchange them.
use crate::number;
use crate::number::{fmt_num, NUM_MAX};
use crate::order_map;
use crate::text;
use crate::text::{decimal, same};
use vstd::prelude::*;

verus! {

/// A JSON value. Objects keep the order of their entries.
#[derive(Debug)]
pub enum Json {
    Null,
    Bool(bool),
    Int(i64),
    /// A number with a fraction, in millionths.
    Dec(i64),
    Str(String),
    Arr(Vec<Json>),
    Obj(Vec<(String, Json)>),
}

#[verifier::ext_equal]
pub enum JsonV {
    Null,
    Bool(bool),
    Int(int),
    Dec(int),
    Str(Seq<char>),
    Arr(Seq<JsonV>),
    Obj(Seq<(Seq<char>, JsonV)>),
}

impl View for Json {
    type V = JsonV;

    open spec fn view(&self) -> JsonV
        decreases self, 0nat,
    {
        match self {
            Json::Null => JsonV::Null,
            Json::Bool(b) => JsonV::Bool(*b),
            Json::Int(i) => JsonV::Int(*i as int),
            Json::Dec(d) => JsonV::Dec(*d as int),
            Json::Str(s) => JsonV::Str(s@),
            Json::Arr(v) => JsonV::Arr(
                Seq::new(
                    v@.len(),
                    |i: int|
                        if 0 <= i < v@.len() {
                            v@[i].view()
                        } else {
                            JsonV::Null
                        },
                ),
            ),
            Json::Obj(v) => JsonV::Obj(entry_views(v@, v@.len())),
        }
    }
}

/// The first `n` entries of an object.
pub open spec fn entry_views(v: Seq<(String, Json)>, n: nat) -> Seq<(Seq<char>, JsonV)>
    decreases v, n,
{
    if n == 0 || n > v.len() {
        Seq::empty()
    } else {
        entry_views(v, (n - 1) as nat).push((v[n - 1].0@, v[n - 1].1.view()))
    }
}

proof fn lemma_entry_views(v: Seq<(String, Json)>, n: nat)
    requires
        n <= v.len(),
    ensures
        entry_views(v, n) == entries_v(v).take(n as int),
    decreases n,
{
    if n > 0 {
        lemma_entry_views(v, (n - 1) as nat);
        assert(entries_v(v).take(n as int) =~= entries_v(v).take(n - 1).push(entries_v(v)[n - 1]));
    } else {
        assert(entries_v(v).take(0) =~= Seq::empty());
    }
}

pub open spec fn values_v(v: Seq<Json>) -> Seq<JsonV> {
    Seq::new(v.len(), |i: int| v[i]@)
}

pub open spec fn entries_v(v: Seq<(String, Json)>) -> Seq<(Seq<char>, JsonV)> {
    Seq::new(v.len(), |i: int| (v[i].0@, v[i].1@))
}

pub proof fn lemma_arr_view(v: Vec<Json>)
    ensures
        Json::Arr(v)@ == JsonV::Arr(values_v(v@)),
{
    assert(Json::Arr(v)@->Arr_0 =~= values_v(v@));
}

pub proof fn lemma_obj_view(v: Vec<(String, Json)>)
    ensures
        Json::Obj(v)@ == JsonV::Obj(entries_v(v@)),
{
    lemma_entry_views(v@, v@.len());
    assert(entries_v(v@).take(v@.len() as int) =~= entries_v(v@));
}

/// Numbers with a fraction are of a size that can be written.
pub open spec fn ok(j: JsonV) -> bool
    decreases j,
{
    match j {
        JsonV::Dec(d) => -NUM_MAX <= d <= NUM_MAX,
        JsonV::Arr(v) => forall|i: int| 0 <= i < v.len() ==> ok(#[trigger] v[i]),
        JsonV::Obj(v) => forall|i: int| 0 <= i < v.len() ==> ok((#[trigger] v[i]).1),
        _ => true,
    }
}

pub open spec fn all_ok(v: Seq<JsonV>) -> bool {
    forall|i: int| 0 <= i < v.len() ==> ok(#[trigger] v[i])
}

pub open spec fn fields_ok(v: Seq<(Seq<char>, JsonV)>) -> bool {
    forall|i: int| 0 <= i < v.len() ==> ok((#[trigger] v[i]).1)
}

pub proof fn lemma_ok_arr(v: Seq<JsonV>)
    ensures
        ok(JsonV::Arr(v)) == all_ok(v),
{
    let n = JsonV::Arr(v);
    if ok(n) {
        assert(n is Arr && n->Arr_0 == v);
        assert forall|i: int| 0 <= i < v.len() implies ok(#[trigger] v[i]) by {
            assert(ok(n->Arr_0[i]));
        }
    }
}

pub proof fn lemma_ok_obj(v: Seq<(Seq<char>, JsonV)>)
    ensures
        ok(JsonV::Obj(v)) == fields_ok(v),
{
    let n = JsonV::Obj(v);
    if ok(n) {
        assert(n is Obj && n->Obj_0 == v);
        assert forall|i: int| 0 <= i < v.len() implies ok((#[trigger] v[i]).1) by {
            assert(ok(n->Obj_0[i].1));
        }
    }
}

/// A hexadecimal digit.
pub open spec fn hex_digit(n: int) -> char {
    if n < 10 {
        (48 + n) as char
    } else {
        (87 + n) as char
    }
}

/// A character inside a JSON string: quote, backslash and control characters are escaped.
pub open spec fn json_escape(c: char) -> Seq<char> {
    let n = c as int;
    if c == '"' || c == '\\' {
        seq!['\\', c]
    } else if n == 8 {
        seq!['\\', 'b']
    } else if n == 9 {
        seq!['\\', 't']
    } else if n == 10 {
        seq!['\\', 'n']
    } else if n == 12 {
        seq!['\\', 'f']
    } else if n == 13 {
        seq!['\\', 'r']
    } else if n < 32 {
        seq!['\\', 'u', '0', '0', hex_digit(n / 16), hex_digit(n % 16)]
    } else {
        seq![c]
    }
}

pub open spec fn json_escaped(s: Seq<char>) -> Seq<char>
    decreases s.len(),
{
    if s.len() == 0 {
        Seq::empty()
    } else {
        json_escaped(s.drop_last()) + json_escape(s.last())
    }
}

/// The JSON text of a string.
pub open spec fn json_quoted(s: Seq<char>) -> Seq<char> {
    seq!['"'] + json_escaped(s) + seq!['"']
}

/// `serde_json::Value::to_string` of a string value: its JSON text, in quotes, with quote, backslash
/// and the control characters below the space escaped, the usual five by a letter and the others by
/// four hexadecimal digits in lower case.
#[verifier::external_body]
fn quote_json(s: &str) -> (r: String)
    ensures
        r@ == json_quoted(s@),
{
    serde_json::Value::from(s).to_string()
}

/// The text of a number with a fraction; a whole one keeps one decimal.
pub open spec fn dec_text(d: int) -> Seq<char> {
    if d % 1_000_000 == 0 {
        number::shown(d) + ".0"@
    } else {
        number::shown(d)
    }
}

/// The compact JSON text of a value.
pub open spec fn text_of(j: JsonV) -> Seq<char>
    decreases j, 0nat,
{
    match j {
        JsonV::Null => "null"@,
        JsonV::Bool(b) => if b {
            "true"@
        } else {
            "false"@
        },
        JsonV::Int(i) => text::numeral(i),
        JsonV::Dec(d) => dec_text(d),
        JsonV::Str(s) => json_quoted(s),
        JsonV::Arr(v) => seq!['['] + items_text(v, v.len()) + seq![']'],
        JsonV::Obj(v) => seq!['{'] + entries_text(v, v.len()) + seq!['}'],
    }
}

pub open spec fn items_text(v: Seq<JsonV>, n: nat) -> Seq<char>
    decreases v, n,
{
    if n == 0 || n > v.len() {
        Seq::empty()
    } else {
        items_text(v, (n - 1) as nat) + (if n > 1 {
            seq![',']
        } else {
            Seq::empty()
        }) + text_of(v[n - 1])
    }
}

pub open spec fn entries_text(v: Seq<(Seq<char>, JsonV)>, n: nat) -> Seq<char>
    decreases v, n,
{
    if n == 0 || n > v.len() {
        Seq::empty()
    } else {
        entries_text(v, (n - 1) as nat) + (if n > 1 {
            seq![',']
        } else {
            Seq::empty()
        }) + json_quoted(v[n - 1].0) + seq![':'] + text_of(v[n - 1].1)
    }
}

// ---------------------------------------------------------------- reading

pub open spec fn str_in(j: JsonV) -> Option<Seq<char>> {
    match j {
        JsonV::Str(s) => Some(s),
        _ => None,
    }
}

pub open spec fn bool_in(j: JsonV) -> Option<bool> {
    match j {
        JsonV::Bool(b) => Some(b),
        _ => None,
    }
}

pub open spec fn arr_in(j: JsonV) -> Option<Seq<JsonV>> {
    match j {
        JsonV::Arr(v) => Some(v),
        _ => None,
    }
}

/// A number, in millionths; an integer too large for that is none.
pub open spec fn num_in(j: JsonV) -> Option<int> {
    match j {
        JsonV::Int(i) => if -9_000_000_000 <= i <= 9_000_000_000 {
            Some(i * 1_000_000)
        } else {
            None
        },
        JsonV::Dec(d) => Some(d),
        _ => None,
    }
}

/// The entries of an object; anything else has none.
pub open spec fn entries_of(j: JsonV) -> Seq<(Seq<char>, JsonV)> {
    match j {
        JsonV::Obj(v) => v,
        _ => Seq::empty(),
    }
}

/// The items of an array; anything else has none.
pub open spec fn items_of(j: JsonV) -> Seq<JsonV> {
    match j {
        JsonV::Arr(v) => v,
        _ => Seq::empty(),
    }
}

/// The value of a key.
pub open spec fn field(j: JsonV, k: Seq<char>) -> Option<JsonV> {
    order_map::look(entries_of(j), k)
}

pub open spec fn found_v(j: Option<&Json>) -> Option<JsonV> {
    match j {
        Some(v) => Some(v@),
        None => None,
    }
}

/// The value of a key among entries.
pub fn entry<'a>(v: &'a Vec<(String, Json)>, k: &str) -> (r: Option<&'a Json>)
    ensures
        found_v(r) == order_map::look(entries_v(v@), k@),
        fields_ok(entries_v(v@)) && r is Some ==> ok(r->0@),
{
    let key = k.to_owned();
    let ghost es = entries_v(v@);
    let mut i: usize = 0;
    while i < v.len()
        invariant
            i <= v@.len(),
            key@ == k@,
            es == entries_v(v@),
            order_map::seek(es, k@, 0) == order_map::seek(es, k@, i as int),
        decreases v@.len() - i,
    {
        assert(es[i as int] == (v@[i as int].0@, v@[i as int].1@));
        if v[i].0 == key {
            return Some(&v[i].1);
        }
        i += 1;
    }
    None
}

impl Json {
    pub fn dup(&self) -> (r: Json)
        ensures
            r@ == self@,
        decreases self,
    {
        match self {
            Json::Null => Json::Null,
            Json::Bool(b) => Json::Bool(*b),
            Json::Int(i) => Json::Int(*i),
            Json::Dec(d) => Json::Dec(*d),
            Json::Str(s) => Json::Str(s.clone()),
            Json::Arr(v) => {
                let mut r: Vec<Json> = Vec::new();
                let mut i: usize = 0;
                while i < v.len()
                    invariant
                        i <= v@.len(),
                        self == Json::Arr(*v),
                        r@.len() == i,
                        forall|j: int| 0 <= j < i ==> (#[trigger] r@[j])@ == v@[j]@,
                    decreases v@.len() - i,
                {
                    assert(decreases_to!(self => self->Arr_0));
                    assert(decreases_to!(v => v@[i as int]));
                    r.push(v[i].dup());
                    i += 1;
                }
                proof {
                    assert(values_v(r@) =~= values_v(v@));
                    lemma_arr_view(r);
                    lemma_arr_view(*v);
                }
                Json::Arr(r)
            },
            Json::Obj(v) => {
                let mut r: Vec<(String, Json)> = Vec::new();
                let mut i: usize = 0;
                while i < v.len()
                    invariant
                        i <= v@.len(),
                        self == Json::Obj(*v),
                        r@.len() == i,
                        forall|j: int|
                            0 <= j < i ==> (#[trigger] r@[j]).0@ == v@[j].0@ && r@[j].1@ == v@[j].1@,
                    decreases v@.len() - i,
                {
                    assert(decreases_to!(self => self->Obj_0));
                    assert(decreases_to!(v => v@[i as int]));
                    assert(decreases_to!(v@[i as int] => v@[i as int].1));
                    r.push((v[i].0.clone(), v[i].1.dup()));
                    i += 1;
                }
                proof {
                    assert(entries_v(r@) =~= entries_v(v@));
                    lemma_obj_view(r);
                    lemma_obj_view(*v);
                }
                Json::Obj(r)
            },
        }
    }

    /// The compact JSON text.
    pub fn to_text(&self) -> (r: String)
        requires
            ok(self@),
        ensures
            r@ == text_of(self@),
        decreases self,
    {
        match self {
            Json::Null => "null".to_owned(),
            Json::Bool(b) => if *b {
                "true".to_owned()
            } else {
                "false".to_owned()
            },
            Json::Int(i) => decimal(*i),
            Json::Dec(d) => {
                let mut r = fmt_num(*d);
                if *d % 1_000_000 == 0 {
                    r.append(".0");
                }
                r
            },
            Json::Str(s) => quote_json(s.as_str()),
            Json::Arr(v) => {
                proof {
                    lemma_arr_view(*v);
                    lemma_ok_arr(values_v(v@));
                }
                let ghost vs = values_v(v@);
                let mut r = String::new();
                r.push('[');
                let mut i: usize = 0;
                assert(r@ =~= seq!['['] + items_text(vs, 0));
                while i < v.len()
                    invariant
                        i <= v@.len(),
                        self == Json::Arr(*v),
                        vs == values_v(v@),
                        all_ok(vs),
                        r@ == seq!['['] + items_text(vs, i as nat),
                    decreases v@.len() - i,
                {
                    let ghost r0 = r@;
                    assert(decreases_to!(self => self->Arr_0));
                    assert(decreases_to!(v => v@[i as int]));
                    assert(vs[i as int] == v@[i as int]@);
                    if i > 0 {
                        r.push(',');
                    }
                    r.append(v[i].to_text().as_str());
                    assert(r@ =~= seq!['['] + items_text(vs, (i + 1) as nat));
                    i += 1;
                }
                r.push(']');
                assert(r@ =~= text_of(self@));
                r
            },
            Json::Obj(v) => {
                proof {
                    lemma_obj_view(*v);
                    lemma_ok_obj(entries_v(v@));
                }
                let ghost vs = entries_v(v@);
                let mut r = String::new();
                r.push('{');
                let mut i: usize = 0;
                assert(r@ =~= seq!['{'] + entries_text(vs, 0));
                while i < v.len()
                    invariant
                        i <= v@.len(),
                        self == Json::Obj(*v),
                        vs == entries_v(v@),
                        fields_ok(vs),
                        r@ == seq!['{'] + entries_text(vs, i as nat),
                    decreases v@.len() - i,
                {
                    let ghost r0 = r@;
                    assert(decreases_to!(self => self->Obj_0));
                    assert(decreases_to!(v => v@[i as int]));
                    assert(decreases_to!(v@[i as int] => v@[i as int].1));
                    assert(vs[i as int] == (v@[i as int].0@, v@[i as int].1@));
                    assert(ok(vs[i as int].1));
                    if i > 0 {
                        r.push(',');
                    }
                    r.append(quote_json(v[i].0.as_str()).as_str());
                    r.push(':');
                    r.append(v[i].1.to_text().as_str());
                    assert(r@ =~= seq!['{'] + entries_text(vs, (i + 1) as nat));
                    i += 1;
                }
                r.push('}');
                assert(r@ =~= text_of(self@));
                r
            },
        }
    }

    pub fn as_str(&self) -> (r: Option<&String>)
        ensures
            match r {
                Some(s) => str_in(self@) == Some(s@),
                None => str_in(self@) is None,
            },
    {
        match self {
            Json::Str(s) => Some(s),
            _ => None,
        }
    }

    pub fn as_bool(&self) -> (r: Option<bool>)
        ensures
            r == bool_in(self@),
    {
        match self {
            Json::Bool(b) => Some(*b),
            _ => None,
        }
    }

    pub fn as_array(&self) -> (r: Option<&Vec<Json>>)
        ensures
            match r {
                Some(v) => self@ == JsonV::Arr(values_v(v@)),
                None => !(self@ is Arr),
            },
            ok(self@) && r is Some ==> all_ok(values_v(r->0@)),
    {
        match self {
            Json::Arr(v) => {
                proof {
                    lemma_arr_view(*v);
                    lemma_ok_arr(values_v(v@));
                }
                Some(v)
            },
            _ => None,
        }
    }

    pub fn as_object(&self) -> (r: Option<&Vec<(String, Json)>>)
        ensures
            match r {
                Some(v) => self@ == JsonV::Obj(entries_v(v@)),
                None => !(self@ is Obj),
            },
            ok(self@) && r is Some ==> fields_ok(entries_v(r->0@)),
    {
        match self {
            Json::Obj(v) => {
                proof {
                    lemma_obj_view(*v);
                    lemma_ok_obj(entries_v(v@));
                }
                Some(v)
            },
            _ => None,
        }
    }

    /// A number, in millionths.
    pub fn as_num(&self) -> (r: Option<i64>)
        requires
            ok(self@),
        ensures
            match r {
                Some(v) => num_in(self@) == Some(v as int) && -NUM_MAX <= v <= NUM_MAX,
                None => num_in(self@) is None,
            },
    {
        match self {
            Json::Int(i) => if -9_000_000_000 <= *i && *i <= 9_000_000_000 {
                Some(*i * 1_000_000)
            } else {
                None
            },
            Json::Dec(d) => Some(*d),
            _ => None,
        }
    }

    /// The value of a key.
    pub fn get(&self, k: &str) -> (r: Option<&Json>)
        ensures
            found_v(r) == field(self@, k@),
            ok(self@) && r is Some ==> ok(r->0@),
    {
        match self.as_object() {
            Some(v) => entry(v, k),
            None => None,
        }
    }
}

// ---------------------------------------------------------------- building

/// Copies of entries.
pub fn dup_entries(v: &Vec<(String, Json)>) -> (r: Vec<(String, Json)>)
    ensures
        entries_v(r@) == entries_v(v@),
{
    let mut r: Vec<(String, Json)> = Vec::new();
    let mut i: usize = 0;
    while i < v.len()
        invariant
            i <= v@.len(),
            r@.len() == i,
            forall|j: int| 0 <= j < i ==> (#[trigger] r@[j]).0@ == v@[j].0@ && r@[j].1@ == v@[j].1@,
        decreases v@.len() - i,
    {
        r.push((v[i].0.clone(), v[i].1.dup()));
        i += 1;
    }
    assert(entries_v(r@) =~= entries_v(v@));
    r
}

/// Copies of values.
pub fn dup_values(v: &Vec<Json>) -> (r: Vec<Json>)
    ensures
        values_v(r@) == values_v(v@),
{
    let mut r: Vec<Json> = Vec::new();
    let mut i: usize = 0;
    while i < v.len()
        invariant
            i <= v@.len(),
            r@.len() == i,
            forall|j: int| 0 <= j < i ==> (#[trigger] r@[j])@ == v@[j]@,
        decreases v@.len() - i,
    {
        r.push(v[i].dup());
        i += 1;
    }
    assert(values_v(r@) =~= values_v(v@));
    r
}

/// Gives a key a value: in place where it has one, at the end where it has none.
pub fn put_entry(v: &mut Vec<(String, Json)>, k: &str, x: Json)
    ensures
        entries_v(final(v)@) == order_map::put(entries_v(old(v)@), k@, x@),
{
    let key = k.to_owned();
    let ghost v0 = v@;
    let ghost es = entries_v(v@);
    let ghost xv = x@;
    let mut i: usize = 0;
    while i < v.len()
        invariant
            i <= v@.len(),
            key@ == k@,
            xv == x@,
            v@ == v0,
            es == entries_v(v0),
            es == entries_v(old(v)@),
            order_map::seek(es, k@, 0) == order_map::seek(es, k@, i as int),
        decreases v@.len() - i,
    {
        assert(es[i as int].0 == v0[i as int].0@);
        if v[i].0 == key {
            v.set(i, (key, x));
            assert(entries_v(v@) =~= es.update(i as int, (k@, xv)));
            return ;
        }
        i += 1;
    }
    v.push((key, x));
    assert(entries_v(v@) =~= es.push((k@, xv)));
}

pub proof fn lemma_put_ok(m: Seq<(Seq<char>, JsonV)>, k: Seq<char>, x: JsonV)
    requires
        fields_ok(m),
        ok(x),
    ensures
        fields_ok(order_map::put(m, k, x)),
{
    order_map::lemma_seek(m, k, 0);
}

/// The entries without a key; the last entry takes the place that becomes free.
pub open spec fn taken_out(m: Seq<(Seq<char>, JsonV)>, k: Seq<char>) -> Seq<(Seq<char>, JsonV)> {
    let i = order_map::seek(m, k, 0);
    if i >= m.len() {
        m
    } else {
        m.update(i, m.last()).drop_last()
    }
}

/// Takes a key out; the last entry takes the place that becomes free.
pub fn take_out(v: &mut Vec<(String, Json)>, k: &str)
    ensures
        entries_v(final(v)@) == taken_out(entries_v(old(v)@), k@),
{
    let key = k.to_owned();
    let ghost v0 = v@;
    let ghost es = entries_v(v@);
    let mut i: usize = 0;
    while i < v.len()
        invariant
            i <= v@.len(),
            key@ == k@,
            v@ == v0,
            es == entries_v(v0),
            es == entries_v(old(v)@),
            order_map::seek(es, k@, 0) == order_map::seek(es, k@, i as int),
        decreases v@.len() - i,
    {
        assert(es[i as int].0 == v0[i as int].0@);
        if v[i].0 == key {
            let _ = v.swap_remove(i);
            assert(entries_v(v@) =~= es.update(i as int, es.last()).drop_last());
            return ;
        }
        i += 1;
    }
}

// ---------------------------------------------------------------- comparing
/// Equal values; the order of an object's entries does not matter.
pub open spec fn alike(a: JsonV, b: JsonV) -> bool
    decreases a,
{
    match a {
        JsonV::Arr(v) => b is Arr && v.len() == b->Arr_0.len() && forall|i: int|
            0 <= i < v.len() ==> alike(#[trigger] v[i], b->Arr_0[i]),
        JsonV::Obj(v) => b is Obj && v.len() == b->Obj_0.len() && forall|i: int|
            0 <= i < v.len() ==> order_map::look(b->Obj_0, (#[trigger] v[i]).0) is Some && alike(
                v[i].1,
                order_map::look(b->Obj_0, v[i].0)->0,
            ),
        _ => a == b,
    }
}

impl Json {
    pub fn is_alike(&self, o: &Json) -> (r: bool)
        ensures
            r == alike(self@, o@),
        decreases self,
    {
        match (self, o) {
            (Json::Null, Json::Null) => true,
            (Json::Bool(a), Json::Bool(b)) => *a == *b,
            (Json::Int(a), Json::Int(b)) => *a == *b,
            (Json::Dec(a), Json::Dec(b)) => *a == *b,
            (Json::Str(a), Json::Str(b)) => same(a.as_str(), b.as_str()),
            (Json::Arr(a), Json::Arr(b)) => {
                let ghost sv = self@;
                let ghost ov = o@;
                proof {
                    lemma_arr_view(*a);
                    lemma_arr_view(*b);
                    assert(sv == JsonV::Arr(values_v(a@)));
                    assert(ov == JsonV::Arr(values_v(b@)));
                }
                if a.len() != b.len() {
                    return false;
                }
                let mut i: usize = 0;
                while i < a.len()
                    invariant
                        i <= a@.len(),
                        self is Arr,
                        self->Arr_0 == *a,
                        a@.len() == b@.len(),
                        sv == self@,
                        ov == o@,
                        sv == JsonV::Arr(values_v(a@)),
                        ov == JsonV::Arr(values_v(b@)),
                        forall|k: int|
                            0 <= k < i ==> alike(#[trigger] values_v(a@)[k], values_v(b@)[k]),
                    decreases a@.len() - i,
                {
                    assert(decreases_to!(self => self->Arr_0));
                    assert(decreases_to!(a => a@[i as int]));
                    assert(values_v(a@)[i as int] == a@[i as int]@);
                    assert(values_v(b@)[i as int] == b@[i as int]@);
                    if !a[i].is_alike(&b[i]) {
                        proof {
                            assert(!alike(sv->Arr_0[i as int], ov->Arr_0[i as int]));
                        }
                        return false;
                    }
                    i += 1;
                }
                assert forall|k: int| 0 <= k < sv->Arr_0.len() implies alike(
                    #[trigger] sv->Arr_0[k],
                    ov->Arr_0[k],
                ) by {
                    assert(alike(values_v(a@)[k], values_v(b@)[k]));
                }
                true
            },
            (Json::Obj(a), Json::Obj(b)) => {
                let ghost sv = self@;
                let ghost ov = o@;
                let ghost es = entries_v(a@);
                let ghost fs = entries_v(b@);
                proof {
                    lemma_obj_view(*a);
                    lemma_obj_view(*b);
                    assert(sv == JsonV::Obj(es));
                    assert(ov == JsonV::Obj(fs));
                }
                if a.len() != b.len() {
                    return false;
                }
                let mut i: usize = 0;
                while i < a.len()
                    invariant
                        i <= a@.len(),
                        self is Obj,
                        self->Obj_0 == *a,
                        a@.len() == b@.len(),
                        sv == self@,
                        ov == o@,
                        es == entries_v(a@),
                        fs == entries_v(b@),
                        sv == JsonV::Obj(es),
                        ov == JsonV::Obj(fs),
                        forall|k: int|
                            0 <= k < i ==> order_map::look(fs, (#[trigger] es[k]).0) is Some && alike(
                                es[k].1,
                                order_map::look(fs, es[k].0)->0,
                            ),
                    decreases a@.len() - i,
                {
                    assert(decreases_to!(self => self->Obj_0));
                    assert(decreases_to!(a => a@[i as int]));
                    assert(decreases_to!(a@[i as int] => a@[i as int].1));
                    assert(es[i as int] == (a@[i as int].0@, a@[i as int].1@));
                    match entry(b, a[i].0.as_str()) {
                        Some(x) => {
                            if !a[i].1.is_alike(x) {
                                assert(!alike(
                                    sv->Obj_0[i as int].1,
                                    order_map::look(ov->Obj_0, sv->Obj_0[i as int].0)->0,
                                ));
                                return false;
                            }
                        },
                        None => {
                            assert(order_map::look(ov->Obj_0, sv->Obj_0[i as int].0) is None);
                            return false;
                        },
                    }
                    i += 1;
                }
                assert forall|k: int| 0 <= k < sv->Obj_0.len() implies order_map::look(
                    ov->Obj_0,
                    (#[trigger] sv->Obj_0[k]).0,
                ) is Some && alike(
                    sv->Obj_0[k].1,
                    order_map::look(ov->Obj_0, sv->Obj_0[k].0)->0,
                ) by {
                    assert(order_map::look(fs, es[k].0) is Some);
                }
                true
            },
            _ => false,
        }
    }
}

// ---------------------------------------------------------------- bounds
/// Every number in a value is at most `m` millionths in size.
pub open spec fn within(j: JsonV, m: int) -> bool
    decreases j,
{
    match j {
        JsonV::Int(i) => -m <= i * 1_000_000 <= m,
        JsonV::Dec(d) => -m <= d <= m,
        JsonV::Arr(v) => forall|i: int| 0 <= i < v.len() ==> within(#[trigger] v[i], m),
        JsonV::Obj(v) => forall|i: int| 0 <= i < v.len() ==> within((#[trigger] v[i]).1, m),
        _ => true,
    }
}

pub open spec fn all_within(v: Seq<JsonV>, m: int) -> bool {
    forall|i: int| 0 <= i < v.len() ==> within(#[trigger] v[i], m)
}

pub open spec fn fields_within(v: Seq<(Seq<char>, JsonV)>, m: int) -> bool {
    forall|i: int| 0 <= i < v.len() ==> within((#[trigger] v[i]).1, m)
}

pub proof fn lemma_within_arr(v: Seq<JsonV>, m: int)
    ensures
        within(JsonV::Arr(v), m) == all_within(v, m),
{
    let n = JsonV::Arr(v);
    if within(n, m) {
        assert(n is Arr && n->Arr_0 == v);
        assert forall|i: int| 0 <= i < v.len() implies within(#[trigger] v[i], m) by {
            assert(within(n->Arr_0[i], m));
        }
    }
}

pub proof fn lemma_within_obj(v: Seq<(Seq<char>, JsonV)>, m: int)
    ensures
        within(JsonV::Obj(v), m) == fields_within(v, m),
{
    let n = JsonV::Obj(v);
    if within(n, m) {
        assert(n is Obj && n->Obj_0 == v);
        assert forall|i: int| 0 <= i < v.len() implies within((#[trigger] v[i]).1, m) by {
            assert(within(n->Obj_0[i].1, m));
        }
    }
}

/// A value within a bound that can be written can be written.
pub proof fn lemma_within_ok(j: JsonV, m: int)
    requires
        within(j, m),
        m <= NUM_MAX,
    ensures
        ok(j),
    decreases j,
{
    match j {
        JsonV::Arr(v) => {
            lemma_within_arr(v, m);
            assert forall|i: int| 0 <= i < v.len() implies ok(#[trigger] v[i]) by {
                lemma_within_ok(v[i], m);
            }
        },
        JsonV::Obj(v) => {
            lemma_within_obj(v, m);
            assert forall|i: int| 0 <= i < v.len() implies ok((#[trigger] v[i]).1) by {
                lemma_within_ok(v[i].1, m);
            }
        },
        _ => {},
    }
}

pub proof fn lemma_fields_within_ok(v: Seq<(Seq<char>, JsonV)>, m: int)
    requires
        fields_within(v, m),
        m <= NUM_MAX,
    ensures
        fields_ok(v),
{
    assert forall|i: int| 0 <= i < v.len() implies ok((#[trigger] v[i]).1) by {
        lemma_within_ok(v[i].1, m);
    }
}

pub proof fn lemma_items_within(j: JsonV, m: int)
    requires
        within(j, m),
    ensures
        all_within(items_of(j), m),
        fields_within(entries_of(j), m),
{
    match j {
        JsonV::Arr(v) => lemma_within_arr(v, m),
        JsonV::Obj(v) => lemma_within_obj(v, m),
        _ => {},
    }
}

pub proof fn lemma_look_within(v: Seq<(Seq<char>, JsonV)>, k: Seq<char>, m: int)
    requires
        fields_within(v, m),
    ensures
        order_map::look(v, k) is Some ==> within(order_map::look(v, k)->0, m),
{
    order_map::lemma_seek(v, k, 0);
}

pub proof fn lemma_put_within(v: Seq<(Seq<char>, JsonV)>, k: Seq<char>, x: JsonV, m: int)
    requires
        fields_within(v, m),
        within(x, m),
    ensures
        fields_within(order_map::put(v, k, x), m),
{
    order_map::lemma_seek(v, k, 0);
}

pub proof fn lemma_within_mono(j: JsonV, a: int, b: int)
    requires
        within(j, a),
        a <= b,
    ensures
        within(j, b),
    decreases j,
{
    match j {
        JsonV::Arr(v) => {
            lemma_within_arr(v, a);
            lemma_within_arr(v, b);
            assert forall|i: int| 0 <= i < v.len() implies within(#[trigger] v[i], b) by {
                lemma_within_mono(v[i], a, b);
            }
        },
        JsonV::Obj(v) => {
            lemma_within_obj(v, a);
            lemma_within_obj(v, b);
            assert forall|i: int| 0 <= i < v.len() implies within((#[trigger] v[i]).1, b) by {
                lemma_within_mono(v[i].1, a, b);
            }
        },
        _ => {},
    }
}

} // verus!
