//! Edits of a design in its tagged JSON form.
use crate::json;
use crate::json::{entry, put_entry, Json, JsonV};
use crate::model;
use crate::model_json;
use crate::model_json::{list_json, list_of, object_of, Fields};
use crate::names;
use crate::names::{has_name, name_set};
use crate::order_map;
use crate::text;
use crate::text::{same, Line};
use vstd::prelude::*;

verus! {

/// The lists of a design that an edit reaches.
pub open spec fn list_key(i: int) -> Seq<char> {
    if i == 0 {
        "parts"@
    } else if i == 1 {
        "power"@
    } else if i == 2 {
        "wires"@
    } else if i == 3 {
        "labels"@
    } else if i == 4 {
        "nc"@
    } else if i == 5 {
        "texts"@
    } else {
        "rects"@
    }
}

/// The letter of the identifiers in a list.
pub open spec fn list_letter(i: int) -> Seq<char> {
    if i == 1 {
        "p"@
    } else if i == 2 {
        "w"@
    } else if i == 3 {
        "l"@
    } else if i == 4 {
        "n"@
    } else if i == 5 {
        "t"@
    } else {
        "r"@
    }
}

fn key_name(i: usize) -> (r: &'static str)
    ensures
        r@ == list_key(i as int),
{
    if i == 0 {
        "parts"
    } else if i == 1 {
        "power"
    } else if i == 2 {
        "wires"
    } else if i == 3 {
        "labels"
    } else if i == 4 {
        "nc"
    } else if i == 5 {
        "texts"
    } else {
        "rects"
    }
}

fn key_letter(i: usize) -> (r: &'static str)
    ensures
        r@ == list_letter(i as int),
{
    if i == 1 {
        "p"
    } else if i == 2 {
        "w"
    } else if i == 3 {
        "l"
    } else if i == 4 {
        "n"
    } else if i == 5 {
        "t"
    } else {
        "r"
    }
}

/// The identifier of an item.
pub open spec fn ident_of(it: JsonV) -> Option<Seq<char>> {
    match json::field(it, "id"@) {
        Some(JsonV::Str(s)) => Some(s),
        _ => None,
    }
}

fn ident(it: &Json) -> (r: Option<&String>)
    ensures
        match r {
            Some(s) => ident_of(it@) == Some(s@),
            None => ident_of(it@) is None,
        },
{
    match it.get("id") {
        Some(v) => v.as_str(),
        None => None,
    }
}

/// A design under edit, and what is wrong with the edit.
#[verifier::ext_equal]
pub struct EditV {
    pub d: Seq<(Seq<char>, JsonV)>,
    pub errors: Seq<Seq<char>>,
}

pub open spec fn idents(items: Seq<JsonV>, n: int) -> Seq<Seq<char>>
    decreases n,
{
    if n <= 0 {
        Seq::empty()
    } else {
        match ident_of(items[n - 1]) {
            Some(s) => idents(items, n - 1).push(s),
            None => idents(items, n - 1),
        }
    }
}

/// Identifiers in the first `n` lists.
pub open spec fn known_ids(d: Seq<(Seq<char>, JsonV)>, n: int) -> Seq<Seq<char>>
    decreases n,
{
    if n <= 0 {
        Seq::empty()
    } else {
        let v = model_json::list_at(d, list_key(n - 1));
        known_ids(d, n - 1) + idents(v, v.len() as int)
    }
}

/// The strings in a list.
pub open spec fn strings(v: Seq<JsonV>, n: int) -> Seq<Seq<char>>
    decreases n,
{
    if n <= 0 {
        Seq::empty()
    } else {
        match v[n - 1] {
            JsonV::Str(s) => strings(v, n - 1).push(s),
            _ => strings(v, n - 1),
        }
    }
}

/// What an edit removes: a set of identifiers.
pub open spec fn removals(patch: Seq<(Seq<char>, JsonV)>) -> Seq<Seq<char>> {
    let v = strings(
        model_json::list_at(patch, "remove"@),
        model_json::list_at(patch, "remove"@).len() as int,
    );
    names::distinct(v, v.len() as int)
}

pub open spec fn unknown_note(id: Seq<char>) -> Seq<char> {
    "note: remove: id '"@ + id
        + "' does not exist in the original design (patches are always relative to the ORIGINAL; ids you added in an earlier patch do not exist) - ignored"@
}

pub open spec fn removal_notes(gone: Seq<Seq<char>>, known: Seq<Seq<char>>, n: int) -> Seq<Seq<char>>
    decreases n,
{
    if n <= 0 {
        Seq::empty()
    } else if known.contains(gone[n - 1]) {
        removal_notes(gone, known, n - 1)
    } else {
        removal_notes(gone, known, n - 1).push(unknown_note(gone[n - 1]))
    }
}

pub open spec fn is_gone(it: JsonV, gone: Seq<Seq<char>>) -> bool {
    match ident_of(it) {
        Some(s) => gone.contains(s),
        None => false,
    }
}

/// The items that stay.
pub open spec fn kept_items(v: Seq<JsonV>, gone: Seq<Seq<char>>, n: int) -> Seq<JsonV>
    decreases n,
{
    if n <= 0 {
        Seq::empty()
    } else if is_gone(v[n - 1], gone) {
        kept_items(v, gone, n - 1)
    } else {
        kept_items(v, gone, n - 1).push(v[n - 1])
    }
}

/// A design with items removed from its first `n` lists.
pub open spec fn removed(d: Seq<(Seq<char>, JsonV)>, gone: Seq<Seq<char>>, n: int) -> Seq<
    (Seq<char>, JsonV),
>
    decreases n,
{
    if n <= 0 {
        d
    } else {
        let e = removed(d, gone, n - 1);
        let v = model_json::list_at(e, list_key(n - 1));
        order_map::put(e, list_key(n - 1), JsonV::Arr(kept_items(v, gone, v.len() as int)))
    }
}

/// Entries with the first `n` changes made; an identifier does not change.
pub open spec fn changed(
    o: Seq<(Seq<char>, JsonV)>,
    ch: Seq<(Seq<char>, JsonV)>,
    n: int,
) -> Seq<(Seq<char>, JsonV)>
    decreases n,
{
    if n <= 0 {
        o
    } else if ch[n - 1].0 == "id"@ {
        changed(o, ch, n - 1)
    } else {
        order_map::put(changed(o, ch, n - 1), ch[n - 1].0, ch[n - 1].1)
    }
}

/// The first item from `i` on with an identifier.
pub open spec fn find_item(v: Seq<JsonV>, id: Seq<char>, i: int) -> int
    decreases v.len() - i,
{
    if i < 0 || i >= v.len() {
        v.len() as int
    } else if ident_of(v[i]) == Some(id) {
        i
    } else {
        find_item(v, id, i + 1)
    }
}

/// The first list from `k` on that holds an identifier; seven where none does.
pub open spec fn find_list(d: Seq<(Seq<char>, JsonV)>, id: Seq<char>, k: int) -> int
    decreases 7 - k,
{
    if k >= 7 {
        7
    } else {
        let v = model_json::list_at(d, list_key(k));
        if find_item(v, id, 0) < v.len() {
            k
        } else {
            find_list(d, id, k + 1)
        }
    }
}

pub open spec fn no_object(id: Seq<char>) -> Seq<char> {
    "update: '"@ + id + "' needs an object of fields to change"@
}

pub open spec fn also_removed(id: Seq<char>) -> Seq<char> {
    "update: '"@ + id + "' is also removed"@
}

pub open spec fn unknown_id(id: Seq<char>) -> Seq<char> {
    "update: unknown id '"@ + id + "'"@
}

/// One update: the fields of the first item with the identifier change.
pub open spec fn updated_one(
    e: EditV,
    gone: Seq<Seq<char>>,
    id: Seq<char>,
    ch: JsonV,
) -> EditV {
    let k = find_list(e.d, id, 0);
    if gone.contains(id) {
        EditV { errors: e.errors.push(also_removed(id)), ..e }
    } else if k >= 7 {
        EditV { errors: e.errors.push(unknown_id(id)), ..e }
    } else {
        let v = model_json::list_at(e.d, list_key(k));
        let i = find_item(v, id, 0);
        match ch {
            JsonV::Obj(c) => EditV {
                d: order_map::put(
                    e.d,
                    list_key(k),
                    JsonV::Arr(
                        v.update(
                            i,
                            JsonV::Obj(changed(json::entries_of(v[i]), c, c.len() as int)),
                        ),
                    ),
                ),
                ..e
            },
            _ => EditV {
                d: order_map::put(e.d, list_key(k), JsonV::Arr(v)),
                errors: e.errors.push(no_object(id)),
            },
        }
    }
}

/// The first `n` updates.
pub open spec fn updated(
    e: EditV,
    gone: Seq<Seq<char>>,
    ups: Seq<(Seq<char>, JsonV)>,
    n: int,
) -> EditV
    decreases n,
{
    if n <= 0 {
        e
    } else {
        updated_one(updated(e, gone, ups, n - 1), gone, ups[n - 1].0, ups[n - 1].1)
    }
}

/// A bare wire or marker is put into an object.
pub open spec fn wrapped(k: int, it: JsonV) -> JsonV {
    if k == 2 && !(it is Obj) {
        JsonV::Obj(seq![("pts"@, it)])
    } else if k == 4 && !(it is Obj) {
        JsonV::Obj(seq![("at"@, it)])
    } else {
        it
    }
}

/// The unit of a part.
pub open spec fn unit_of(p: JsonV) -> int {
    match json::field(p, "unit"@) {
        Some(JsonV::Int(u)) => u,
        _ => 1,
    }
}

pub open spec fn id_value(it: JsonV) -> JsonV {
    match json::field(it, "id"@) {
        Some(v) => v,
        None => JsonV::Null,
    }
}

pub open spec fn has_id(p: JsonV, id: JsonV) -> bool {
    match json::field(p, "id"@) {
        Some(v) => json::alike(v, id),
        None => false,
    }
}

/// The part takes a reference that is in use, and is not a further unit of the part that has it.
pub open spec fn clashes(parts: Seq<JsonV>, it: JsonV) -> bool {
    &&& exists|i: int| 0 <= i < parts.len() && has_id(#[trigger] parts[i], id_value(it))
    &&& unit_of(it) == 1
    &&& !exists|i: int|
        0 <= i < parts.len() && has_id(#[trigger] parts[i], id_value(it)) && unit_of(parts[i]) != 1
}

pub open spec fn clash_note(it: JsonV) -> Seq<char> {
    "add: part id '"@ + (match id_value(it) {
        JsonV::Str(s) => s,
        _ => Seq::empty(),
    }) + "' already exists (use update or a new id)"@
}

/// A new item of a list other than parts: it gets the next identifier, whatever it says itself.
pub open spec fn tagged_item(k: int, count: int, it: JsonV) -> JsonV {
    let o = json::entries_of(it);
    JsonV::Obj(
        changed(
            seq![("id"@, JsonV::Str(list_letter(k) + text::digits(count as nat)))],
            o,
            o.len() as int,
        ),
    )
}

pub open spec fn pushed(d: Seq<(Seq<char>, JsonV)>, k: int, it: JsonV) -> Seq<(Seq<char>, JsonV)> {
    order_map::put(
        d,
        list_key(k),
        JsonV::Arr(model_json::list_at(d, list_key(k)).push(it)),
    )
}

/// One addition to list `k`, the `count`-th item of it.
pub open spec fn added_one(e: EditV, k: int, count: int, raw: JsonV) -> EditV {
    let it = wrapped(k, raw);
    if k == 0 {
        if clashes(model_json::list_at(e.d, "parts"@), it) {
            EditV { errors: e.errors.push(clash_note(it)), ..e }
        } else {
            EditV { d: pushed(e.d, k, it), ..e }
        }
    } else {
        EditV { d: pushed(e.d, k, tagged_item(k, count, it)), ..e }
    }
}

/// The first `n` additions to list `k`, which has `start` items.
pub open spec fn added_items(e: EditV, k: int, start: int, v: Seq<JsonV>, n: int) -> EditV
    decreases n,
{
    if n <= 0 {
        e
    } else {
        added_one(added_items(e, k, start, v, n - 1), k, start + n, v[n - 1])
    }
}

/// Additions to the first `n` lists; new items are counted from the lists as they were.
pub open spec fn added(
    e: EditV,
    d0: Seq<(Seq<char>, JsonV)>,
    add: Seq<(Seq<char>, JsonV)>,
    n: int,
) -> EditV
    decreases n,
{
    if n <= 0 {
        e
    } else {
        let v = model_json::list_at(add, list_key(n - 1));
        added_items(
            added(e, d0, add, n - 1),
            n - 1,
            model_json::list_at(d0, list_key(n - 1)).len() as int,
            v,
            v.len() as int,
        )
    }
}

/// A field that the edit states replaces the design's.
pub open spec fn restated(
    d: Seq<(Seq<char>, JsonV)>,
    patch: Seq<(Seq<char>, JsonV)>,
    k: Seq<char>,
) -> Seq<(Seq<char>, JsonV)> {
    match order_map::look(patch, k) {
        Some(v) => order_map::put(d, k, v),
        None => d,
    }
}

pub open spec fn retitled(
    d: Seq<(Seq<char>, JsonV)>,
    patch: Seq<(Seq<char>, JsonV)>,
) -> Seq<(Seq<char>, JsonV)> {
    let d1 = restated(restated(d, patch, "title"@), patch, "rev"@);
    let d2 = restated(restated(d1, patch, "date"@), patch, "company"@);
    restated(restated(d2, patch, "comments"@), patch, "paper"@)
}

pub open spec fn object_at(o: Seq<(Seq<char>, JsonV)>, k: Seq<char>) -> Seq<(Seq<char>, JsonV)> {
    match order_map::look(o, k) {
        Some(v) => json::entries_of(v),
        None => Seq::empty(),
    }
}

/// A design after an edit: removals first, then updates, then additions, then its title block.
pub open spec fn patched(base: JsonV, patch: JsonV) -> EditV {
    let d = json::entries_of(base);
    let p = json::entries_of(patch);
    let gone = removals(p);
    let e0 = EditV {
        d: removed(d, gone, 7),
        errors: removal_notes(gone, known_ids(d, 7), gone.len() as int),
    };
    let ups = object_at(p, "update"@);
    let e1 = updated(e0, gone, ups, ups.len() as int);
    let e2 = added(e1, e1.d, object_at(p, "add"@), 7);
    EditV { d: retitled(e2.d, p), ..e2 }
}

/// What an edit adds to lists of objects are objects.
pub open spec fn addable(add: Seq<(Seq<char>, JsonV)>) -> bool {
    forall|k: int, i: int|
        #![trigger model_json::list_at(add, list_key(k))[i]]
        (k == 1 || k == 3 || k == 5 || k == 6) && 0 <= i < model_json::list_at(
            add,
            list_key(k),
        ).len() ==> model_json::list_at(add, list_key(k))[i] is Obj
}

fn add_idents(out: &mut Vec<String>, v: &Vec<Json>)
    ensures
        text::views(final(out)@) == text::views(old(out)@) + idents(
            json::values_v(v@),
            v@.len() as int,
        ),
{
    let ghost o0 = text::views(out@);
    let ghost vv = json::values_v(v@);
    let mut i: usize = 0;
    assert(text::views(out@) =~= o0 + idents(vv, 0));
    while i < v.len()
        invariant
            i <= v@.len(),
            vv == json::values_v(v@),
            text::views(out@) == o0 + idents(vv, i as int),
        decreases v@.len() - i,
    {
        assert(vv[i as int] == v@[i as int]@);
        let ghost o1 = text::views(out@);
        match ident(&v[i]) {
            Some(s) => {
                out.push(s.clone());
                assert(text::views(out@) =~= o1.push(s@));
                assert(text::views(out@) =~= o0 + idents(vv, i + 1));
            },
            None => {},
        }
        i += 1;
    }
}

fn collect_ids(d: &Vec<(String, Json)>) -> (r: Vec<String>)
    ensures
        text::views(r@) == known_ids(json::entries_v(d@), 7),
{
    let ghost dv = json::entries_v(d@);
    let mut r: Vec<String> = Vec::new();
    let mut k: usize = 0;
    assert(text::views(r@) =~= known_ids(dv, 0));
    while k < 7
        invariant
            k <= 7,
            dv == json::entries_v(d@),
            text::views(r@) == known_ids(dv, k as int),
        decreases 7 - k,
    {
        let v = list_of(d, key_name(k));
        assert(json::values_v(v@).len() == v@.len());
        add_idents(&mut r, &v);
        k += 1;
    }
    r
}

fn removal_set(p: &Vec<(String, Json)>) -> (r: Vec<String>)
    ensures
        text::views(r@) == removals(json::entries_v(p@)),
{
    let v = list_of(p, "remove");
    let ghost vv = json::values_v(v@);
    let mut out: Vec<String> = Vec::new();
    let mut i: usize = 0;
    assert(text::views(out@) =~= strings(vv, 0));
    while i < v.len()
        invariant
            i <= v@.len(),
            vv == json::values_v(v@),
            text::views(out@) == strings(vv, i as int),
        decreases v@.len() - i,
    {
        assert(vv[i as int] == v@[i as int]@);
        let ghost o1 = text::views(out@);
        match v[i].as_str() {
            Some(s) => {
                out.push(s.clone());
                assert(text::views(out@) =~= o1.push(s@));
            },
            None => {},
        }
        i += 1;
    }
    name_set(&out)
}

fn note_unknown(gone: &Vec<String>, known: &Vec<String>) -> (r: Vec<String>)
    ensures
        text::views(r@) == removal_notes(
            text::views(gone@),
            text::views(known@),
            gone@.len() as int,
        ),
{
    let ghost gv = text::views(gone@);
    let ghost kv = text::views(known@);
    let mut r: Vec<String> = Vec::new();
    let mut i: usize = 0;
    assert(text::views(r@) =~= removal_notes(gv, kv, 0));
    while i < gone.len()
        invariant
            i <= gone@.len(),
            gv == text::views(gone@),
            kv == text::views(known@),
            text::views(r@) == removal_notes(gv, kv, i as int),
        decreases gone@.len() - i,
    {
        assert(gv[i as int] == gone@[i as int]@);
        let ghost r1 = text::views(r@);
        if !has_name(known, gone[i].as_str()) {
            let t = Line::of("note: remove: id '").add(gone[i].as_str()).add(
                "' does not exist in the original design (patches are always relative to the ORIGINAL; ids you added in an earlier patch do not exist) - ignored",
            ).done();
            r.push(t);
            assert(text::views(r@) =~= r1.push(unknown_note(gv[i as int])));
        }
        i += 1;
    }
    r
}

fn keep_items(v: &Vec<Json>, gone: &Vec<String>) -> (r: Vec<Json>)
    requires
        json::all_ok(json::values_v(v@)),
    ensures
        json::values_v(r@) == kept_items(json::values_v(v@), text::views(gone@), v@.len() as int),
        json::all_ok(json::values_v(r@)),
{
    let ghost vv = json::values_v(v@);
    let ghost gv = text::views(gone@);
    let mut r: Vec<Json> = Vec::new();
    let mut i: usize = 0;
    assert(json::values_v(r@) =~= kept_items(vv, gv, 0));
    while i < v.len()
        invariant
            i <= v@.len(),
            vv == json::values_v(v@),
            gv == text::views(gone@),
            json::all_ok(vv),
            json::values_v(r@) == kept_items(vv, gv, i as int),
            json::all_ok(json::values_v(r@)),
        decreases v@.len() - i,
    {
        assert(vv[i as int] == v@[i as int]@);
        assert(json::ok(vv[i as int]));
        let ghost r1 = json::values_v(r@);
        let out = match ident(&v[i]) {
            Some(s) => has_name(gone, s.as_str()),
            None => false,
        };
        if !out {
            r.push(v[i].dup());
            assert(json::values_v(r@) =~= r1.push(vv[i as int]));
        }
        i += 1;
    }
    r
}

fn put_list(d: &mut Vec<(String, Json)>, k: &str, v: Vec<Json>)
    requires
        json::fields_ok(json::entries_v(old(d)@)),
        json::all_ok(json::values_v(v@)),
    ensures
        json::entries_v(final(d)@) == order_map::put(
            json::entries_v(old(d)@),
            k@,
            JsonV::Arr(json::values_v(v@)),
        ),
        json::fields_ok(json::entries_v(final(d)@)),
{
    let x = list_json(v);
    proof {
        json::lemma_put_ok(json::entries_v(d@), k@, x@);
    }
    put_entry(d, k, x);
}

fn remove_items(d: &mut Vec<(String, Json)>, gone: &Vec<String>)
    requires
        json::fields_ok(json::entries_v(old(d)@)),
    ensures
        json::entries_v(final(d)@) == removed(json::entries_v(old(d)@), text::views(gone@), 7),
        json::fields_ok(json::entries_v(final(d)@)),
{
    let ghost d0 = json::entries_v(d@);
    let ghost gv = text::views(gone@);
    let mut k: usize = 0;
    while k < 7
        invariant
            k <= 7,
            gv == text::views(gone@),
            json::entries_v(d@) == removed(d0, gv, k as int),
            json::fields_ok(json::entries_v(d@)),
        decreases 7 - k,
    {
        let v = list_of(d, key_name(k));
        assert(json::values_v(v@).len() == v@.len());
        let kept = keep_items(&v, gone);
        put_list(d, key_name(k), kept);
        k += 1;
    }
}

fn seek_item(v: &Vec<Json>, id: &str) -> (r: usize)
    ensures
        r == find_item(json::values_v(v@), id@, 0),
        r <= v@.len(),
{
    let ghost vv = json::values_v(v@);
    let mut i: usize = 0;
    while i < v.len()
        invariant
            i <= v@.len(),
            vv == json::values_v(v@),
            find_item(vv, id@, 0) == find_item(vv, id@, i as int),
        decreases v@.len() - i,
    {
        assert(vv[i as int] == v@[i as int]@);
        match ident(&v[i]) {
            Some(s) => {
                if same(s.as_str(), id) {
                    return i;
                }
            },
            None => {},
        }
        i += 1;
    }
    i
}

/// Makes changes to entries; an identifier does not change.
fn change(o: &mut Vec<(String, Json)>, ch: &Vec<(String, Json)>)
    requires
        json::fields_ok(json::entries_v(old(o)@)),
        json::fields_ok(json::entries_v(ch@)),
    ensures
        json::entries_v(final(o)@) == changed(
            json::entries_v(old(o)@),
            json::entries_v(ch@),
            ch@.len() as int,
        ),
        json::fields_ok(json::entries_v(final(o)@)),
{
    let ghost o0 = json::entries_v(o@);
    let ghost cv = json::entries_v(ch@);
    let mut i: usize = 0;
    while i < ch.len()
        invariant
            i <= ch@.len(),
            cv == json::entries_v(ch@),
            json::fields_ok(cv),
            json::entries_v(o@) == changed(o0, cv, i as int),
            json::fields_ok(json::entries_v(o@)),
        decreases ch@.len() - i,
    {
        assert(cv[i as int] == (ch@[i as int].0@, ch@[i as int].1@));
        assert(json::ok(cv[i as int].1));
        if !same(ch[i].0.as_str(), "id") {
            let x = ch[i].1.dup();
            proof {
                json::lemma_put_ok(json::entries_v(o@), ch@[i as int].0@, x@);
            }
            put_entry(o, ch[i].0.as_str(), x);
        }
        i += 1;
    }
}

/// A design under edit.
pub struct Edit {
    pub d: Vec<(String, Json)>,
    pub errors: Vec<String>,
}

impl Edit {
    pub open spec fn view(&self) -> EditV {
        EditV { d: json::entries_v(self.d@), errors: text::views(self.errors@) }
    }

    pub open spec fn wf(&self) -> bool {
        json::fields_ok(json::entries_v(self.d@))
    }

    fn complain(&mut self, t: String)
        requires
            old(self).wf(),
        ensures
            final(self).wf(),
            final(self)@ == (EditV { errors: old(self)@.errors.push(t@), ..old(self)@ }),
    {
        let ghost e0 = self@;
        let ghost tv = t@;
        self.errors.push(t);
        assert(self@ =~= EditV { errors: e0.errors.push(tv), ..e0 });
    }

    fn update_at(&mut self, k: usize, id: &str, ch: &Json) -> (found: bool)
        requires
            old(self).wf(),
            json::ok(ch@),
            k < 7,
        ensures
            final(self).wf(),
            ({
                let v = model_json::list_at(old(self)@.d, list_key(k as int));
                let i = find_item(v, id@, 0);
                &&& found == (i < v.len())
                &&& !found ==> final(self)@ == old(self)@
                &&& found ==> final(self)@ == (match ch@ {
                    JsonV::Obj(c) => EditV {
                        d: order_map::put(
                            old(self)@.d,
                            list_key(k as int),
                            JsonV::Arr(
                                v.update(
                                    i,
                                    JsonV::Obj(changed(json::entries_of(v[i]), c, c.len() as int)),
                                ),
                            ),
                        ),
                        ..old(self)@
                    },
                    _ => EditV {
                        d: order_map::put(old(self)@.d, list_key(k as int), JsonV::Arr(v)),
                        errors: old(self)@.errors.push(no_object(id@)),
                    },
                })
            }),
    {
        let ghost e0 = self@;
        let mut v = list_of(&self.d, key_name(k));
        let ghost vv = json::values_v(v@);
        let i: usize = seek_item(&v, id);
        if i >= v.len() {
            return false;
        }
        match ch.as_object() {
            Some(c) => {
                assert(vv[i as int] == v@[i as int]@);
                assert(json::ok(vv[i as int]));
                let mut o = object_of(&v[i]);
                change(&mut o, c);
                let x = Fields { v: o }.done();
                let ghost xv = x@;
                v[i] = x;
                assert(json::values_v(v@) =~= vv.update(i as int, xv));
                put_list(&mut self.d, key_name(k), v);
            },
            None => {
                let t = Line::of("update: '").add(id).add(
                    "' needs an object of fields to change",
                ).done();
                put_list(&mut self.d, key_name(k), v);
                self.complain(t);
            },
        }
        true
    }

    fn update_one(&mut self, gone: &Vec<String>, id: &str, ch: &Json)
        requires
            old(self).wf(),
            json::ok(ch@),
        ensures
            final(self).wf(),
            final(self)@ == updated_one(old(self)@, text::views(gone@), id@, ch@),
    {
        let ghost e0 = self@;
        if has_name(gone, id) {
            let t = Line::of("update: '").add(id).add("' is also removed").done();
            self.complain(t);
            return ;
        }
        let mut k: usize = 0;
        while k < 7
            invariant
                k <= 7,
                self.wf(),
                self@ == e0,
                json::ok(ch@),
                !text::views(gone@).contains(id@),
                e0 == old(self)@,
                find_list(e0.d, id@, 0) == find_list(e0.d, id@, k as int),
            decreases 7 - k,
        {
            if self.update_at(k, id, ch) {
                return ;
            }
            k += 1;
        }
        let t = Line::of("update: unknown id '").add(id).add("'").done();
        self.complain(t);
    }

    fn update_all(&mut self, gone: &Vec<String>, ups: &Vec<(String, Json)>)
        requires
            old(self).wf(),
            json::fields_ok(json::entries_v(ups@)),
        ensures
            final(self).wf(),
            final(self)@ == updated(
                old(self)@,
                text::views(gone@),
                json::entries_v(ups@),
                ups@.len() as int,
            ),
    {
        let ghost e0 = self@;
        let ghost uv = json::entries_v(ups@);
        let ghost gv = text::views(gone@);
        let mut i: usize = 0;
        while i < ups.len()
            invariant
                i <= ups@.len(),
                uv == json::entries_v(ups@),
                gv == text::views(gone@),
                json::fields_ok(uv),
                self.wf(),
                self@ == updated(e0, gv, uv, i as int),
            decreases ups@.len() - i,
        {
            assert(uv[i as int] == (ups@[i as int].0@, ups@[i as int].1@));
            assert(json::ok(uv[i as int].1));
            self.update_one(gone, ups[i].0.as_str(), &ups[i].1);
            i += 1;
        }
    }

    fn push_item(&mut self, k: usize, it: Json)
        requires
            old(self).wf(),
            json::ok(it@),
        ensures
            final(self).wf(),
            final(self)@ == (EditV { d: pushed(old(self)@.d, k as int, it@), ..old(self)@ }),
    {
        let ghost e0 = self@;
        let mut v = list_of(&self.d, key_name(k));
        let ghost vv = json::values_v(v@);
        let ghost iv = it@;
        v.push(it);
        assert(json::values_v(v@) =~= vv.push(iv));
        put_list(&mut self.d, key_name(k), v);
        assert(self@ =~= EditV { d: pushed(e0.d, k as int, iv), ..e0 });
    }

    fn add_one(&mut self, k: usize, count: u128, raw: &Json)
        requires
            old(self).wf(),
            json::ok(raw@),
            k < 7,
            (k == 1 || k == 3 || k == 5 || k == 6) ==> raw@ is Obj,
        ensures
            final(self).wf(),
            final(self)@ == added_one(old(self)@, k as int, count as int, raw@),
    {
        let it = wrap(k, raw);
        if k == 0 {
            let parts = list_of(&self.d, "parts");
            if is_clash(&parts, &it) {
                let id = match it.get("id") {
                    Some(v) => match v.as_str() {
                        Some(s) => s.clone(),
                        None => String::new(),
                    },
                    None => String::new(),
                };
                assert(id@ =~= (match id_value(it@) {
                    JsonV::Str(s) => s,
                    _ => Seq::empty(),
                }));
                let t = Line::of("add: part id '").add(id.as_str()).add(
                    "' already exists (use update or a new id)",
                ).done();
                self.complain(t);
            } else {
                self.push_item(k, it);
            }
        } else {
            let o = object_of(&it);
            let id = Line::of(key_letter(k)).count(count).done();
            let mut f = Fields::new().text("id", id.as_str());
            assert(f@ =~= seq![
                ("id"@, JsonV::Str(list_letter(k as int) + text::digits(count as nat))),
            ]);
            change(&mut f.v, &o);
            self.push_item(k, f.done());
        }
    }

    fn add_list(&mut self, k: usize, start: usize, v: &Vec<Json>)
        requires
            old(self).wf(),
            k < 7,
            json::all_ok(json::values_v(v@)),
            (k == 1 || k == 3 || k == 5 || k == 6) ==> forall|i: int|
                0 <= i < v@.len() ==> #[trigger] json::values_v(v@)[i] is Obj,
        ensures
            final(self).wf(),
            final(self)@ == added_items(
                old(self)@,
                k as int,
                start as int,
                json::values_v(v@),
                v@.len() as int,
            ),
    {
        let ghost e0 = self@;
        let ghost vv = json::values_v(v@);
        let mut i: usize = 0;
        while i < v.len()
            invariant
                i <= v@.len(),
                k < 7,
                    vv == json::values_v(v@),
                json::all_ok(vv),
                (k == 1 || k == 3 || k == 5 || k == 6) ==> forall|i: int|
                    0 <= i < v@.len() ==> #[trigger] vv[i] is Obj,
                self.wf(),
                self@ == added_items(e0, k as int, start as int, vv, i as int),
            decreases v@.len() - i,
        {
            assert(vv[i as int] == v@[i as int]@);
            assert(json::ok(vv[i as int]));
            self.add_one(k, start as u128 + i as u128 + 1, &v[i]);
            i += 1;
        }
    }

    fn add_all(&mut self, add: &Vec<(String, Json)>, counts: &Vec<usize>)
        requires
            old(self).wf(),
            json::fields_ok(json::entries_v(add@)),
            addable(json::entries_v(add@)),
            counts@.len() == 7,
            forall|k: int|
                0 <= k < 7 ==> #[trigger] counts@[k] == model_json::list_at(
                    old(self)@.d,
                    list_key(k),
                ).len(),
        ensures
            final(self).wf(),
            final(self)@ == added(old(self)@, old(self)@.d, json::entries_v(add@), 7),
    {
        let ghost e0 = self@;
        let ghost av = json::entries_v(add@);
        let mut k: usize = 0;
        while k < 7
            invariant
                k <= 7,
                av == json::entries_v(add@),
                json::fields_ok(av),
                addable(av),
                counts@.len() == 7,
                forall|k: int|
                    0 <= k < 7 ==> #[trigger] counts@[k] == model_json::list_at(
                        e0.d,
                        list_key(k),
                    ).len(),
                self.wf(),
                self@ == added(e0, e0.d, av, k as int),
            decreases 7 - k,
        {
            let v = list_of(add, key_name(k));
            let ghost vv = model_json::list_at(av, list_key(k as int));
            assert(json::values_v(v@) == vv);
            assert(v@.len() == vv.len());
            assert forall|i: int| (k == 1 || k == 3 || k == 5 || k == 6) && 0 <= i < v@.len() implies
                #[trigger] json::values_v(v@)[i] is Obj by {
                assert(model_json::list_at(av, list_key(k as int))[i] is Obj);
            }
            self.add_list(k, counts[k], &v);
            k += 1;
        }
    }

    fn restate(&mut self, patch: &Vec<(String, Json)>, k: &str)
        requires
            old(self).wf(),
            json::fields_ok(json::entries_v(patch@)),
        ensures
            final(self).wf(),
            final(self)@ == (EditV {
                d: restated(old(self)@.d, json::entries_v(patch@), k@),
                ..old(self)@
            }),
    {
        match entry(patch, k) {
            Some(v) => {
                proof {
                    json::lemma_put_ok(json::entries_v(self.d@), k@, v@);
                }
                put_entry(&mut self.d, k, v.dup());
            },
            None => {},
        }
        assert(self@ =~= EditV {
            d: restated(old(self)@.d, json::entries_v(patch@), k@),
            ..old(self)@
        });
    }
}

fn wrap(k: usize, it: &Json) -> (r: Json)
    requires
        json::ok(it@),
    ensures
        r@ == wrapped(k as int, it@),
        json::ok(r@),
{
    match it {
        Json::Obj(_) => {
            let r = it.dup();
            assert(it@ is Obj);
            r
        },
        _ => {
            assert(!(it@ is Obj));
            if k == 2 {
                let f = Fields::new().add("pts", it.dup());
                assert(f@ =~= seq![("pts"@, it@)]);
                f.done()
            } else if k == 4 {
                let f = Fields::new().add("at", it.dup());
                assert(f@ =~= seq![("at"@, it@)]);
                f.done()
            } else {
                it.dup()
            }
        },
    }
}

fn unit_in(p: &Json) -> (r: i64)
    ensures
        r == unit_of(p@),
{
    match p.get("unit") {
        Some(v) => match v {
            Json::Int(u) => *u,
            _ => 1,
        },
        None => 1,
    }
}

fn id_matches(p: &Json, id: &Json) -> (r: bool)
    ensures
        r == has_id(p@, id@),
{
    match p.get("id") {
        Some(v) => v.is_alike(id),
        None => false,
    }
}

fn is_clash(parts: &Vec<Json>, it: &Json) -> (r: bool)
    ensures
        r == clashes(json::values_v(parts@), it@),
{
    let ghost pv = json::values_v(parts@);
    let id = match it.get("id") {
        Some(v) => v.dup(),
        None => Json::Null,
    };
    assert(id@ == id_value(it@));
    let mut dup = false;
    let mut multi = false;
    let mut i: usize = 0;
    while i < parts.len()
        invariant
            i <= parts@.len(),
            pv == json::values_v(parts@),
            id@ == id_value(it@),
            dup == exists|j: int| 0 <= j < i && has_id(#[trigger] pv[j], id@),
            multi == exists|j: int|
                0 <= j < i && has_id(#[trigger] pv[j], id@) && unit_of(pv[j]) != 1,
        decreases parts@.len() - i,
    {
        assert(pv[i as int] == parts@[i as int]@);
        let ghost dup0 = dup;
        let ghost multi0 = multi;
        if id_matches(&parts[i], &id) {
            assert(has_id(pv[i as int], id@));
            dup = true;
            if unit_in(&parts[i]) != 1 {
                multi = true;
            }
        }
        i += 1;
    }
    dup && unit_in(it) == 1 && !multi
}

fn list_counts(d: &Vec<(String, Json)>) -> (r: Vec<usize>)
    ensures
        r@.len() == 7,
        forall|k: int|
            0 <= k < 7 ==> #[trigger] r@[k] == model_json::list_at(
                json::entries_v(d@),
                list_key(k),
            ).len(),
{
    let mut r: Vec<usize> = Vec::new();
    let mut k: usize = 0;
    while k < 7
        invariant
            k <= 7,
            r@.len() == k,
            forall|j: int|
                0 <= j < k ==> #[trigger] r@[j] == model_json::list_at(
                    json::entries_v(d@),
                    list_key(j),
                ).len(),
        decreases 7 - k,
    {
        let v = list_of(d, key_name(k));
        assert(json::values_v(v@).len() == v@.len());
        r.push(v.len());
        k += 1;
    }
    r
}

fn inner_object(o: &Vec<(String, Json)>, k: &str) -> (r: Vec<(String, Json)>)
    requires
        json::fields_ok(json::entries_v(o@)),
    ensures
        json::entries_v(r@) == object_at(json::entries_v(o@), k@),
        json::fields_ok(json::entries_v(r@)),
{
    let r: Vec<(String, Json)> = match entry(o, k) {
        Some(v) => object_of(v),
        None => Vec::new(),
    };
    assert(json::entries_v(r@) =~= object_at(json::entries_v(o@), k@));
    r
}

/// Applies an edit to a design in tagged form; gives the edited design and what is wrong with the
/// edit.
pub fn apply_patch(base_json: &Json, patch: &Json) -> (r: (Json, Vec<String>))
    requires
        json::ok(base_json@),
        json::ok(patch@),
        addable(object_at(json::entries_of(patch@), "add"@)),
    ensures
        r.0@ == JsonV::Obj(patched(base_json@, patch@).d),
        text::views(r.1@) == patched(base_json@, patch@).errors,
        json::ok(r.0@),
{
    let mut d = object_of(base_json);
    let p = object_of(patch);
    let known = collect_ids(&d);
    let gone = removal_set(&p);
    let errors = note_unknown(&gone, &known);
    remove_items(&mut d, &gone);
    let mut e = Edit { d, errors };
    let ups = inner_object(&p, "update");
    e.update_all(&gone, &ups);
    let add = inner_object(&p, "add");
    let counts = list_counts(&e.d);
    e.add_all(&add, &counts);
    e.restate(&p, "title");
    e.restate(&p, "rev");
    e.restate(&p, "date");
    e.restate(&p, "company");
    e.restate(&p, "comments");
    e.restate(&p, "paper");
    assert(e@ =~= patched(base_json@, patch@));
    (Fields { v: e.d }.done(), e.errors)
}

// ---------------------------------------------------------------- laws of tagged designs
/// Whether a design holds each of the lists that an edit reaches.
pub open spec fn has_lists(d: Seq<(Seq<char>, JsonV)>) -> bool {
    forall|k: int|
        0 <= k < 7 ==> (#[trigger] order_map::look(d, list_key(k))) is Some && order_map::look(
            d,
            list_key(k),
        )->0 is Arr
}

proof fn lemma_all_kept(v: Seq<JsonV>, n: int)
    requires
        0 <= n <= v.len(),
    ensures
        kept_items(v, Seq::empty(), n) == v.take(n),
    decreases n,
{
    if n > 0 {
        lemma_all_kept(v, n - 1);
        assert(v.take(n) =~= v.take(n - 1).push(v[n - 1]));
    } else {
        assert(v.take(0) =~= Seq::empty());
    }
}

proof fn lemma_none_removed(d: Seq<(Seq<char>, JsonV)>, n: int)
    requires
        has_lists(d),
        0 <= n <= 7,
    ensures
        removed(d, Seq::empty(), n) == d,
    decreases n,
{
    if n > 0 {
        lemma_none_removed(d, n - 1);
        let k = list_key(n - 1);
        assert(order_map::look(d, k) is Some);
        let v = model_json::list_at(d, k);
        lemma_all_kept(v, v.len() as int);
        assert(v.take(v.len() as int) =~= v);
        order_map::lemma_seek(d, k, 0);
        let i = order_map::seek(d, k, 0);
        assert(d[i] == (k, JsonV::Arr(v)));
        assert(d.update(i, (k, JsonV::Arr(v))) =~= d);
    }
}

proof fn lemma_none_added(e: EditV, d0: Seq<(Seq<char>, JsonV)>, n: int)
    requires
        0 <= n <= 7,
    ensures
        added(e, d0, Seq::empty(), n) == e,
    decreases n,
{
    if n > 0 {
        lemma_none_added(e, d0, n - 1);
        assert(model_json::list_at(Seq::empty(), list_key(n - 1)).len() == 0);
    }
}

/// An edit that says nothing changes nothing and finds nothing wrong.
pub proof fn empty_patch_changes_nothing(d: Seq<(Seq<char>, JsonV)>)
    requires
        has_lists(d),
    ensures
        patched(JsonV::Obj(d), JsonV::Obj(Seq::empty())).d == d,
        patched(JsonV::Obj(d), JsonV::Obj(Seq::empty())).errors.len() == 0,
{
    let p: Seq<(Seq<char>, JsonV)> = Seq::empty();
    assert(strings(model_json::list_at(p, "remove"@), 0) =~= Seq::empty());
    assert(removals(p) =~= Seq::empty());
    lemma_none_removed(d, 7);
    let e0 = EditV { d, errors: Seq::empty() };
    assert(object_at(p, "update"@).len() == 0);
    assert(object_at(p, "add"@) =~= Seq::empty());
    lemma_none_added(e0, d, 7);
}

/// Entries, the seven lists, and entries behind them.
pub open spec fn deck(
    head: Seq<(Seq<char>, JsonV)>,
    lists: Seq<Seq<JsonV>>,
    tail: Seq<(Seq<char>, JsonV)>,
) -> Seq<(Seq<char>, JsonV)> {
    head + Seq::new(7, |k: int| (list_key(k), JsonV::Arr(lists[k]))) + tail
}

/// The lists of a design.
pub open spec fn lists_of(d: model::DesignV, ids: bool) -> Seq<Seq<JsonV>> {
    seq![
        model_json::part_list(d),
        model_json::power_list(d, ids),
        model_json::wire_list(d, ids),
        model_json::label_list(d, ids),
        model_json::nc_list(d, ids),
        model_json::note_list(d, ids),
        model_json::rect_list(d, ids),
    ]
}

pub proof fn lemma_list_keys(i: int, j: int)
    requires
        0 <= i < j < 7,
    ensures
        list_key(i) != list_key(j),
{
    reveal_strlit("parts");
    reveal_strlit("power");
    reveal_strlit("wires");
    reveal_strlit("labels");
    reveal_strlit("nc");
    reveal_strlit("texts");
    reveal_strlit("rects");
    assert(list_key(i)[0] != list_key(j)[0] || list_key(i)[1] != list_key(j)[1]);
}

/// A key that no entry before the lists may have.
pub open spec fn plain_key(k: Seq<char>) -> bool {
    forall|j: int| 0 <= j < 7 ==> k != #[trigger] list_key(j)
}

pub proof fn lemma_head_keys(d: model::DesignV)
    ensures
        forall|i: int|
            0 <= i < model_json::design_head(d).len() ==> plain_key(
                (#[trigger] model_json::design_head(d)[i]).0,
            ),
{
    reveal_strlit("parts");
    reveal_strlit("power");
    reveal_strlit("wires");
    reveal_strlit("labels");
    reveal_strlit("nc");
    reveal_strlit("texts");
    reveal_strlit("rects");
    reveal_strlit("title");
    reveal_strlit("paper");
    reveal_strlit("rev");
    reveal_strlit("company");
    reveal_strlit("date");
    reveal_strlit("comments");
    assert("title"@[0] == 't' && "title"@[1] == 'i');
    assert("paper"@[0] == 'p' && "paper"@[1] == 'a' && "paper"@[2] == 'p');
    assert("rev"@.len() == 3 && "company"@.len() == 7 && "date"@.len() == 4 && "comments"@.len()
        == 8);
    assert("parts"@[2] == 'r' && "power"@[1] == 'o' && "texts"@[1] == 'e');
    assert(plain_key("title"@));
    assert(plain_key("paper"@));
    assert(plain_key("rev"@));
    assert(plain_key("company"@));
    assert(plain_key("date"@));
    assert(plain_key("comments"@));
}

proof fn lemma_design_is_deck(d: model::DesignV, ids: bool)
    ensures
        json::entries_of(model_json::design_json(d, ids)) == deck(
            model_json::design_head(d),
            lists_of(d, ids),
            model_json::design_tail(d),
        ),
{
    let l = lists_of(d, ids);
    assert(Seq::new(7, |k: int| (list_key(k), JsonV::Arr(l[k]))) =~= seq![
        ("parts"@, JsonV::Arr(model_json::part_list(d))),
        ("power"@, JsonV::Arr(model_json::power_list(d, ids))),
        ("wires"@, JsonV::Arr(model_json::wire_list(d, ids))),
        ("labels"@, JsonV::Arr(model_json::label_list(d, ids))),
        ("nc"@, JsonV::Arr(model_json::nc_list(d, ids))),
        ("texts"@, JsonV::Arr(model_json::note_list(d, ids))),
        ("rects"@, JsonV::Arr(model_json::rect_list(d, ids))),
    ]);
}

/// The lists of a deck are found, and replacing one leaves the rest.
pub proof fn lemma_deck(
    head: Seq<(Seq<char>, JsonV)>,
    lists: Seq<Seq<JsonV>>,
    tail: Seq<(Seq<char>, JsonV)>,
    k: int,
    v: Seq<JsonV>,
)
    requires
        lists.len() == 7,
        0 <= k < 7,
        forall|i: int| 0 <= i < head.len() ==> plain_key((#[trigger] head[i]).0),
    ensures
        order_map::look(deck(head, lists, tail), list_key(k)) == Some(JsonV::Arr(lists[k])),
        model_json::list_at(deck(head, lists, tail), list_key(k)) == lists[k],
        order_map::put(deck(head, lists, tail), list_key(k), JsonV::Arr(v)) == deck(
            head,
            lists.update(k, v),
            tail,
        ),
{
    let m = deck(head, lists, tail);
    let key = list_key(k);
    let at = head.len() + k;
    assert(m[at] == (key, JsonV::Arr(lists[k])));
    assert forall|i: int| 0 <= i < at implies (#[trigger] m[i]).0 != key by {
        if i < head.len() {
            assert(m[i] == head[i]);
            assert(plain_key(head[i].0));
        } else {
            assert(m[i].0 == list_key(i - head.len()));
            lemma_list_keys(i - head.len(), k);
        }
    }
    order_map::lemma_seek(m, key, 0);
    assert(order_map::seek(m, key, 0) == at);
    assert(m.update(at, (key, JsonV::Arr(v))) =~= deck(head, lists.update(k, v), tail));
}

/// An edit that says nothing leaves a tagged design as it is.
pub proof fn empty_patch_keeps_a_design(d: model::DesignV)
    ensures
        patched(model_json::design_json(d, true), JsonV::Obj(Seq::empty())).d == json::entries_of(
            model_json::design_json(d, true),
        ),
        patched(model_json::design_json(d, true), JsonV::Obj(Seq::empty())).errors.len() == 0,
{
    let m = json::entries_of(model_json::design_json(d, true));
    lemma_design_is_deck(d, true);
    lemma_head_keys(d);
    assert forall|k: int| 0 <= k < 7 implies (#[trigger] order_map::look(m, list_key(k))) is Some
        && order_map::look(m, list_key(k))->0 is Arr by {
        lemma_deck(
            model_json::design_head(d),
            lists_of(d, true),
            model_json::design_tail(d),
            k,
            Seq::empty(),
        );
    }
    empty_patch_changes_nothing(m);
}

/// Whether two values are the same, the order of an object's entries aside.
pub open spec fn same_entries(a: JsonV, b: JsonV) -> bool {
    ||| a == b
    ||| a is Obj && b is Obj && json::entries_of(a).len() == json::entries_of(b).len() && forall|
        k: Seq<char>,
    | #[trigger]
        json::field(a, k) == json::field(b, k)
}

/// Whether two lists hold the same values in the same order, the order of entries aside.
pub open spec fn same_items(a: Seq<JsonV>, b: Seq<JsonV>) -> bool {
    a.len() == b.len() && forall|i: int| 0 <= i < a.len() ==> same_entries(#[trigger] a[i], b[i])
}

/// No entry of an item has the key of an identifier.
pub open spec fn no_id(v: JsonV) -> bool {
    v is Obj && forall|i: int|
        0 <= i < json::entries_of(v).len() ==> (#[trigger] json::entries_of(v)[i]).0 != "id"@
}

pub open spec fn no_id_twice(m: Seq<(Seq<char>, JsonV)>) -> bool {
    forall|i: int, j: int| 0 <= i < j < m.len() ==> (#[trigger] m[i]).0 != (#[trigger] m[j]).0
}

proof fn lemma_look_at(m: Seq<(Seq<char>, JsonV)>, k: Seq<char>, i: int)
    requires
        no_id_twice(m),
        0 <= i < m.len(),
        m[i].0 == k,
    ensures
        order_map::look(m, k) == Some(m[i].1),
{
    order_map::lemma_seek(m, k, 0);
    let s = order_map::seek(m, k, 0);
    if s < i {
        assert(m[s].0 != m[i].0);
    }
}

/// Tagging an object and taking the tag away gives its entries back.
proof fn lemma_untagging(v: JsonV, letter: Seq<char>, i: int)
    requires
        no_id(v),
        no_id_twice(json::entries_of(v)),
    ensures
        same_entries(model_json::bare(model_json::labelled(true, letter, i, v), false), v),
        model_json::bare(model_json::labelled(false, letter, i, v), false) == v,
{
    let o = json::entries_of(v);
    order_map::lemma_seek(o, "id"@, 0);
    let id = ("id"@, JsonV::Str(model_json::tag_of(letter, i)));
    let m = seq![id] + o;
    assert(m[0].0 == "id"@);
    order_map::lemma_seek(m, "id"@, 0);
    assert(order_map::seek(m, "id"@, 0) == 0);
    let t = json::taken_out(m, "id"@);
    assert(t == m.update(0, m.last()).drop_last());
    assert(t.len() == o.len());
    if o.len() > 0 {
        let n = o.len() as int;
        assert(m.last() == o[n - 1]);
        assert(t[0] == o[n - 1]);
        assert(forall|j: int| 1 <= j < n ==> #[trigger] t[j] == o[j - 1]);
        let b = model_json::bare(model_json::labelled(true, letter, i, v), false);
        assert(json::entries_of(b) == t);
        assert forall|k: Seq<char>| #[trigger] json::field(b, k) == json::field(v, k) by {
            order_map::lemma_seek(o, k, 0);
            let s = order_map::seek(o, k, 0);
            assert forall|x: int, y: int| 0 <= x < y < t.len() implies (#[trigger] t[x]).0 != (
            #[trigger] t[y]).0 by {
                assert(t[y] == o[y - 1]);
                if x > 0 {
                    assert(t[x] == o[x - 1]);
                }
            }
            if s < o.len() {
                let q = if s == n - 1 { 0 } else { s + 1 };
                assert(t[q] == o[s]);
                lemma_look_at(t, k, q);
            } else {
                order_map::lemma_seek(t, k, 0);
                let z = order_map::seek(t, k, 0);
                if z < t.len() {
                    if z > 0 {
                        assert(t[z] == o[z - 1]);
                    }
                    assert(t[z].0 == k);
                }
            }
        }
    } else {
        assert(t =~= o);
    }
}

/// A key told from the other keys of items: its length and its first two letters.
spec fn key_code(k: Seq<char>) -> (nat, char, char) {
    (k.len(), k[0], k[1])
}

proof fn lemma_item_keys()
    ensures
        key_code("id"@) == (2nat, 'i', 'd'),
        key_code("at"@) == (2nat, 'a', 't'),
        key_code("net"@) == (3nat, 'n', 'e'),
        key_code("rot"@) == (3nat, 'r', 'o'),
        key_code("lib"@) == (3nat, 'l', 'i'),
        key_code("end"@) == (3nat, 'e', 'n'),
        key_code("mirror"@) == (6nat, 'm', 'i'),
        key_code("text"@) == (4nat, 't', 'e'),
        key_code("type"@) == (4nat, 't', 'y'),
        key_code("size"@) == (4nat, 's', 'i'),
        key_code("bold"@) == (4nat, 'b', 'o'),
        key_code("shape"@) == (5nat, 's', 'h'),
        key_code("start"@) == (5nat, 's', 't'),
        key_code("justify"@) == (7nat, 'j', 'u'),
        key_code("pts"@) == (3nat, 'p', 't'),
{
    reveal_strlit("id");
    reveal_strlit("at");
    reveal_strlit("net");
    reveal_strlit("rot");
    reveal_strlit("lib");
    reveal_strlit("end");
    reveal_strlit("mirror");
    reveal_strlit("text");
    reveal_strlit("type");
    reveal_strlit("size");
    reveal_strlit("bold");
    reveal_strlit("shape");
    reveal_strlit("start");
    reveal_strlit("justify");
    reveal_strlit("pts");
}

proof fn lemma_power_keys(v: model::PowerV)
    ensures
        no_id(model_json::power_json(v)),
        no_id_twice(json::entries_of(model_json::power_json(v))),
        model_json::power_json(v) is Obj,
{
    lemma_item_keys();
    let m = json::entries_of(model_json::power_json(v));
    assert(m.len() <= 5);
}

proof fn lemma_label_keys(v: model::LabelV)
    ensures
        no_id(model_json::label_json(v)),
        no_id_twice(json::entries_of(model_json::label_json(v))),
        model_json::label_json(v) is Obj,
{
    lemma_item_keys();
    let m = json::entries_of(model_json::label_json(v));
    assert(m.len() <= 5);
}

proof fn lemma_text_keys(v: model::TextV)
    ensures
        no_id(model_json::text_json(v)),
        no_id_twice(json::entries_of(model_json::text_json(v))),
        model_json::text_json(v) is Obj,
{
    lemma_item_keys();
    let m = json::entries_of(model_json::text_json(v));
    assert(m.len() <= 6);
}

proof fn lemma_rect_keys(v: model::RectV)
    ensures
        no_id(model_json::rect_json(v)),
        no_id_twice(json::entries_of(model_json::rect_json(v))),
        model_json::rect_json(v) is Obj,
{
    lemma_item_keys();
    let m = json::entries_of(model_json::rect_json(v));
    assert(m.len() <= 2);
}

/// Unboxing what was boxed gives it back.
proof fn lemma_unboxing(ids: bool, letter: Seq<char>, i: int, k: Seq<char>, v: JsonV)
    requires
        k != "id"@,
        v is Arr,
    ensures
        model_json::unboxed(model_json::boxed(ids, letter, i, k, v), k) == v,
{
    if ids {
        let m = seq![("id"@, JsonV::Str(model_json::tag_of(letter, i))), (k, v)];
        order_map::lemma_seek(m, k, 0);
        assert(m[0].0 == "id"@ && m[1] == (k, v));
        assert(order_map::seek(m, k, 0) == 1);
    }
}

/// The lists of a tagged design after its tags were taken away.
pub open spec fn stripped(d: model::DesignV, ids: bool) -> Seq<Seq<JsonV>> {
    let l = lists_of(d, ids);
    Seq::new(
        7,
        |k: int|
            if k == 2 || k == 4 {
                Seq::new(
                    l[k].len(),
                    |i: int|
                        model_json::unboxed(
                            l[k][i],
                            if k == 2 {
                                "pts"@
                            } else {
                                "at"@
                            },
                        ),
                )
            } else {
                Seq::new(l[k].len(), |i: int| model_json::bare(l[k][i], k == 0))
            },
    )
}

pub proof fn lemma_normalized(d: model::DesignV, ids: bool)
    ensures
        model_json::normalized(model_json::design_json(d, ids)) == deck(
            model_json::design_head(d),
            stripped(d, ids),
            model_json::design_tail(d),
        ),
{
    lemma_design_is_deck(d, ids);
    lemma_head_keys(d);
    let h = model_json::design_head(d);
    let t = model_json::design_tail(d);
    let s = stripped(d, ids);
    let l0 = lists_of(d, ids);
    lemma_list_keys(0, 1);
    lemma_list_keys(0, 3);
    lemma_list_keys(0, 5);
    lemma_list_keys(0, 6);
    lemma_deck(h, l0, t, 2, s[2]);
    let l1 = l0.update(2, s[2]);
    lemma_deck(h, l1, t, 4, s[4]);
    let l2 = l1.update(4, s[4]);
    lemma_deck(h, l2, t, 3, s[3]);
    let l3 = l2.update(3, s[3]);
    lemma_deck(h, l3, t, 1, s[1]);
    let l4 = l3.update(1, s[1]);
    lemma_deck(h, l4, t, 5, s[5]);
    let l5 = l4.update(5, s[5]);
    lemma_deck(h, l5, t, 6, s[6]);
    let l6 = l5.update(6, s[6]);
    lemma_deck(h, l6, t, 0, s[0]);
    let l7 = l6.update(0, s[0]);
    assert(l7 =~= s);
    let d0 = deck(h, l0, t);
    assert(model_json::unboxed_all(l0[2], "pts"@) == JsonV::Arr(s[2]));
    assert(model_json::unboxed_all(l1[4], "at"@) == JsonV::Arr(s[4]));
    assert(model_json::bare_all(l2[3], false) == JsonV::Arr(s[3]));
    assert(model_json::bare_all(l3[1], false) == JsonV::Arr(s[1]));
    assert(model_json::bare_all(l4[5], false) == JsonV::Arr(s[5]));
    assert(model_json::bare_all(l5[6], false) == JsonV::Arr(s[6]));
    assert(model_json::bare_all(l6[0], true) == JsonV::Arr(s[0]));
}

#[verifier::spinoff_prover]
proof fn lemma_stripped_item(d: model::DesignV, k: int, i: int)
    requires
        0 <= k < 7,
        0 <= i < lists_of(d, false)[k].len(),
    ensures
        same_entries(stripped(d, true)[k][i], lists_of(d, false)[k][i]),
        stripped(d, false)[k][i] == lists_of(d, false)[k][i],
{
    lemma_item_keys();
    if k == 1 {
        lemma_power_keys(d.power[i]);
        lemma_untagging(model_json::power_json(d.power[i]), "p"@, i);
    } else if k == 2 {
        lemma_unboxing(true, "w"@, i, "pts"@, model_json::path_json(d.wires[i]));
    } else if k == 3 {
        lemma_label_keys(d.labels[i]);
        lemma_untagging(model_json::label_json(d.labels[i]), "l"@, i);
    } else if k == 4 {
        lemma_unboxing(true, "n"@, i, "at"@, model_json::point_json(d.nc[i]));
    } else if k == 5 {
        lemma_text_keys(d.texts[i]);
        lemma_untagging(model_json::text_json(d.texts[i]), "t"@, i);
    } else if k == 6 {
        lemma_rect_keys(d.rects[i]);
        lemma_untagging(model_json::rect_json(d.rects[i]), "r"@, i);
    }
}

/// The lists of a design without their tags are those of the plain design.
pub proof fn lemma_stripped(d: model::DesignV, k: int)
    requires
        0 <= k < 7,
    ensures
        same_items(stripped(d, true)[k], lists_of(d, false)[k]),
        stripped(d, false)[k] == lists_of(d, false)[k],
{
    let a = stripped(d, true)[k];
    let b = lists_of(d, false)[k];
    let c = stripped(d, false)[k];
    assert(a.len() == b.len());
    assert(c.len() == b.len());
    assert forall|i: int| 0 <= i < a.len() implies same_entries(#[trigger] a[i], b[i]) by {
        lemma_stripped_item(d, k, i);
    }
    assert forall|i: int| 0 <= i < c.len() implies #[trigger] c[i] == b[i] by {
        lemma_stripped_item(d, k, i);
    }
    assert(c =~= b);
}

/// Taking the tags of a tagged design away gives the plain design: the same entries in the same
/// order, their lists item by item the same.
pub proof fn normalizing_a_tagged_design_gives_the_plain_one(d: model::DesignV)
    ensures
        ({
            let a = model_json::normalized(model_json::design_json(d, true));
            let b = json::entries_of(model_json::design_json(d, false));
            a.len() == b.len() && forall|i: int|
                0 <= i < a.len() ==> (#[trigger] a[i]).0 == b[i].0 && (a[i].1 == b[i].1 || (a[i].1
                    is Arr && b[i].1 is Arr && same_items(
                    json::items_of(a[i].1),
                    json::items_of(b[i].1),
                )))
        }),
{
    let a = model_json::normalized(model_json::design_json(d, true));
    let b = json::entries_of(model_json::design_json(d, false));
    lemma_normalized(d, true);
    lemma_design_is_deck(d, false);
    let h = model_json::design_head(d);
    assert forall|i: int| 0 <= i < a.len() implies (#[trigger] a[i]).0 == b[i].0 && (a[i].1
        == b[i].1 || (a[i].1 is Arr && b[i].1 is Arr && same_items(
        json::items_of(a[i].1),
        json::items_of(b[i].1),
    ))) by {
        let k = i - h.len();
        if 0 <= k < 7 {
            lemma_stripped(d, k);
        }
    }
}

/// A plain design is normal already.
pub proof fn a_plain_design_is_normal(d: model::DesignV)
    ensures
        JsonV::Obj(model_json::normalized(model_json::design_json(d, false)))
            == model_json::design_json(d, false),
{
    lemma_normalized(d, false);
    lemma_design_is_deck(d, false);
    let s = stripped(d, false);
    assert forall|k: int| 0 <= k < 7 implies #[trigger] s[k] == lists_of(d, false)[k] by {
        lemma_stripped(d, k);
    }
    assert(s =~= lists_of(d, false));
}

} // verus!
