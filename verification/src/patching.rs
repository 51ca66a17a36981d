//! What an edit does to a design, list by list and field by field.
use crate::edit;
use crate::edit::{list_key, EditV};
use crate::json;
use crate::json::JsonV;
use crate::model_json::list_at;
use crate::names;
use crate::order_map;
use crate::order_map::look;
use crate::text;
use vstd::prelude::*;

verus! {

pub type Entries = Seq<(Seq<char>, JsonV)>;

/// Whether the last value that entries state for a field is this one.
pub open spec fn last_stated(c: Entries, f: Seq<char>, v: JsonV) -> bool {
    exists|i: int| #[trigger]
        entry_is(c, i, f, v) && forall|j: int| i < j < c.len() ==> (#[trigger] c[j]).0 != f
}

pub open spec fn entry_is(c: Entries, i: int, f: Seq<char>, v: JsonV) -> bool {
    0 <= i < c.len() && c[i] == (f, v)
}

/// Whether entries say nothing of a field.
pub open spec fn unstated(c: Entries, f: Seq<char>) -> bool {
    forall|i: int| 0 <= i < c.len() ==> (#[trigger] c[i]).0 != f
}

/// Whether an item is another with changes made: each field but the identifier has the last value
/// that the changes state for it, and the others are as they were.
pub open spec fn takes(x: JsonV, c: Entries, y: JsonV) -> bool {
    &&& y is Obj
    &&& forall|f: Seq<char>, v: JsonV|
        f != "id"@ && #[trigger] last_stated(c, f, v) ==> json::field(y, f) == Some(v)
    &&& forall|f: Seq<char>|
        f == "id"@ || unstated(c, f) ==> #[trigger] json::field(y, f) == json::field(x, f)
}

proof fn lemma_stated(c: Entries, n: int, f: Seq<char>, v: JsonV)
    requires
        0 < n <= c.len(),
    ensures
        last_stated(c.take(n), f, v) <==> (if c[n - 1].0 == f {
            c[n - 1].1 == v
        } else {
            last_stated(c.take(n - 1), f, v)
        }),
        unstated(c.take(n), f) <==> c[n - 1].0 != f && unstated(c.take(n - 1), f),
{
    let a = c.take(n);
    let b = c.take(n - 1);
    assert(a[n - 1] == c[n - 1]);
    if last_stated(a, f, v) {
        let i = choose|i: int| #[trigger]
            entry_is(a, i, f, v) && forall|j: int| i < j < a.len() ==> (#[trigger] a[j]).0 != f;
        if i < n - 1 {
            assert(entry_is(b, i, f, v));
            assert forall|j: int| i < j < b.len() implies (#[trigger] b[j]).0 != f by {
                assert(a[j].0 != f);
            }
        }
    }
    if c[n - 1].0 == f && c[n - 1].1 == v {
        assert(entry_is(a, n - 1, f, v));
    }
    if c[n - 1].0 != f && last_stated(b, f, v) {
        let i = choose|i: int| #[trigger]
            entry_is(b, i, f, v) && forall|j: int| i < j < b.len() ==> (#[trigger] b[j]).0 != f;
        assert(entry_is(a, i, f, v));
        assert forall|j: int| i < j < a.len() implies (#[trigger] a[j]).0 != f by {
            if j < n - 1 {
                assert(b[j].0 != f);
            }
        }
    }
    if unstated(a, f) {
        assert forall|i: int| 0 <= i < b.len() implies (#[trigger] b[i]).0 != f by {
            assert(a[i].0 != f);
        }
    }
    if c[n - 1].0 != f && unstated(b, f) {
        assert forall|i: int| 0 <= i < a.len() implies (#[trigger] a[i]).0 != f by {
            if i < n - 1 {
                assert(b[i].0 != f);
            }
        }
    }
}

proof fn lemma_changed(o: Entries, c: Entries, n: int)
    requires
        0 <= n <= c.len(),
    ensures
        takes(JsonV::Obj(o), c.take(n), JsonV::Obj(edit::changed(o, c, n))),
    decreases n,
{
    let x = JsonV::Obj(o);
    let y = JsonV::Obj(edit::changed(o, c, n));
    if n > 0 {
        lemma_changed(o, c, n - 1);
        let z = edit::changed(o, c, n - 1);
        let (k, w) = c[n - 1];
        order_map::put_then_look(z, k, w);
        assert forall|f: Seq<char>, v: JsonV|
            f != "id"@ && #[trigger] last_stated(c.take(n), f, v) implies json::field(y, f)
            == Some(v) by {
            lemma_stated(c, n, f, v);
            if k != f {
                assert(json::field(JsonV::Obj(z), f) == Some(v));
            }
        }
        assert forall|f: Seq<char>|
            f == "id"@ || unstated(c.take(n), f) implies #[trigger] json::field(y, f)
            == json::field(x, f) by {
            lemma_stated(c, n, f, w);
            assert(json::field(JsonV::Obj(z), f) == json::field(x, f));
        }
    } else {
        assert forall|f: Seq<char>, v: JsonV|
            f != "id"@ && #[trigger] last_stated(c.take(0), f, v) implies json::field(y, f)
            == Some(v) by {
            let i = choose|i: int| #[trigger]
                entry_is(c.take(0), i, f, v) && forall|j: int|
                    i < j < c.take(0).len() ==> (#[trigger] c.take(0)[j]).0 != f;
        }
    }
}

// ---------------------------------------------------------------- what stays
/// Whether an edit removes an identifier.
pub open spec fn removes(p: Entries, id: Seq<char>) -> bool {
    exists|i: int|
        0 <= i < list_at(p, "remove"@).len() && #[trigger] list_at(p, "remove"@)[i] == JsonV::Str(
            id,
        )
}

/// Whether an item goes by an identifier.
pub open spec fn goes_by(it: JsonV, id: Seq<char>) -> bool {
    json::field(it, "id"@) == Some(JsonV::Str(id))
}

/// Whether an edit leaves an item in its list.
pub open spec fn left_in(p: Entries, it: JsonV) -> bool {
    forall|id: Seq<char>| #[trigger] goes_by(it, id) ==> !removes(p, id)
}

/// The items of a list that an edit leaves there.
pub open spec fn left(d: Entries, p: Entries, k: int) -> Seq<JsonV> {
    list_at(d, list_key(k)).filter(|it: JsonV| left_in(p, it))
}

proof fn lemma_strings(v: Seq<JsonV>, n: int, id: Seq<char>)
    requires
        0 <= n <= v.len(),
    ensures
        edit::strings(v, n).contains(id) <==> exists|i: int|
            0 <= i < n && #[trigger] v[i] == JsonV::Str(id),
    decreases n,
{
    if n > 0 {
        lemma_strings(v, n - 1, id);
        let s = edit::strings(v, n - 1);
        let t = edit::strings(v, n);
        if t.contains(id) && !s.contains(id) {
            let j = choose|j: int| 0 <= j < t.len() && t[j] == id;
            if j < s.len() {
                assert(s[j] == id);
            }
            assert(v[n - 1] == JsonV::Str(id));
        }
        if s.contains(id) {
            let j = choose|j: int| 0 <= j < s.len() && s[j] == id;
            assert(t[j] == id);
            let i = choose|i: int| 0 <= i < n - 1 && #[trigger] v[i] == JsonV::Str(id);
            assert(0 <= i < n && v[i] == JsonV::Str(id));
        } else if v[n - 1] == JsonV::Str(id) {
            assert(t == s.push(id));
            assert(t[s.len() as int] == id);
        }
    }
}

proof fn lemma_removals(p: Entries, id: Seq<char>)
    ensures
        edit::removals(p).contains(id) <==> removes(p, id),
{
    let l = list_at(p, "remove"@);
    let v = edit::strings(l, l.len() as int);
    names::distinct_holds_each_once(v, v.len() as int);
    assert(v.take(v.len() as int) =~= v);
    lemma_strings(l, l.len() as int, id);
    assert(edit::removals(p).contains(id) <==> v.contains(id));
}

proof fn lemma_gone(p: Entries, it: JsonV)
    ensures
        edit::is_gone(it, edit::removals(p)) <==> !left_in(p, it),
{
    match edit::ident_of(it) {
        Some(s) => {
            lemma_removals(p, s);
            assert(goes_by(it, s));
        },
        None => {
            assert forall|id: Seq<char>| #[trigger] goes_by(it, id) implies !removes(p, id) by {
                assert(edit::ident_of(it) == Some(id));
            }
        },
    }
}

proof fn lemma_kept(v: Seq<JsonV>, p: Entries, n: int)
    requires
        0 <= n <= v.len(),
    ensures
        edit::kept_items(v, edit::removals(p), n) == v.take(n).filter(|it: JsonV| left_in(p, it)),
    decreases n,
{
    reveal(Seq::filter);
    if n > 0 {
        lemma_kept(v, p, n - 1);
        lemma_gone(p, v[n - 1]);
        assert(v.take(n).drop_last() =~= v.take(n - 1));
        assert(v.take(n).last() == v[n - 1]);
    } else {
        assert(v.take(0).len() == 0);
    }
}

proof fn lemma_removed(d: Entries, p: Entries, n: int)
    requires
        0 <= n <= 7,
    ensures
        forall|k: int|
            0 <= k < n ==> list_at(edit::removed(d, edit::removals(p), n), #[trigger] list_key(k))
                == left(d, p, k),
        forall|q: Seq<char>|
            (forall|k: int| 0 <= k < n ==> q != #[trigger] list_key(k)) ==> #[trigger] look(
                edit::removed(d, edit::removals(p), n),
                q,
            ) == look(d, q),
    decreases n,
{
    if n > 0 {
        lemma_removed(d, p, n - 1);
        let gone = edit::removals(p);
        let e = edit::removed(d, gone, n - 1);
        let r = edit::removed(d, gone, n);
        let q = list_key(n - 1);
        assert forall|k: int| 0 <= k < n - 1 implies q != #[trigger] list_key(k) by {
            edit::lemma_list_keys(k, n - 1);
        }
        assert(look(e, q) == look(d, q));
        let v = list_at(e, q);
        assert(v == list_at(d, q));
        lemma_kept(v, p, v.len() as int);
        assert(v.take(v.len() as int) =~= v);
        order_map::put_then_look(e, q, JsonV::Arr(edit::kept_items(v, gone, v.len() as int)));
        assert forall|k: int| 0 <= k < n implies list_at(r, #[trigger] list_key(k)) == left(
            d,
            p,
            k,
        ) by {
            if k < n - 1 {
                assert(look(r, list_key(k)) == look(e, list_key(k)));
            }
        }
        assert forall|o: Seq<char>|
            (forall|k: int| 0 <= k < n ==> o != #[trigger] list_key(k)) implies #[trigger] look(
            r,
            o,
        ) == look(d, o) by {
            assert(o != list_key(n - 1));
            assert(look(r, o) == look(e, o));
        }
    }
}

// ---------------------------------------------------------------- what is updated
/// Whether item `i` of what is left in list `k` is the first that goes by an identifier, list
/// after list.
pub open spec fn first_with(d: Entries, p: Entries, id: Seq<char>, k: int, i: int) -> bool {
    &&& 0 <= k < 7
    &&& 0 <= i < left(d, p, k).len()
    &&& goes_by(left(d, p, k)[i], id)
    &&& forall|j: int| 0 <= j < i ==> !goes_by(#[trigger] left(d, p, k)[j], id)
    &&& forall|q: int, j: int|
        0 <= q < k && 0 <= j < left(d, p, q).len() ==> !goes_by(#[trigger] left(d, p, q)[j], id)
}

/// Whether the first `n` updates state changes for an identifier.
pub open spec fn updates(ups: Entries, n: int, id: Seq<char>, c: Entries) -> bool {
    exists|m: int| 0 <= m < n && #[trigger] ups[m] == (id, JsonV::Obj(c))
}

/// Whether an item is what the first `n` updates make of item `i` of what is left in list `k`.
pub open spec fn revised(
    d: Entries,
    p: Entries,
    ups: Entries,
    n: int,
    k: int,
    i: int,
    y: JsonV,
) -> bool {
    &&& forall|id: Seq<char>, c: Entries|
        first_with(d, p, id, k, i) && #[trigger] updates(ups, n, id, c) ==> takes(
            left(d, p, k)[i],
            c,
            y,
        )
    &&& (forall|id: Seq<char>, c: Entries|
        first_with(d, p, id, k, i) ==> !#[trigger] updates(ups, n, id, c)) ==> y == left(d, p, k)[i]
}

/// The lists of a design after the first `n` updates.
spec fn all_revised(d: Entries, p: Entries, ups: Entries, n: int, e: Entries) -> bool {
    &&& forall|k: int|
        0 <= k < 7 ==> list_at(e, #[trigger] list_key(k)).len() == left(d, p, k).len()
    &&& forall|k: int, i: int|
        0 <= k < 7 && 0 <= i < left(d, p, k).len() ==> #[trigger] revised(
            d,
            p,
            ups,
            n,
            k,
            i,
            list_at(e, list_key(k))[i],
        )
    &&& forall|q: Seq<char>|
        (forall|k: int| 0 <= k < 7 ==> q != #[trigger] list_key(k)) ==> #[trigger] look(e, q)
            == look(d, q)
}

proof fn lemma_same_id(
    d: Entries,
    p: Entries,
    ups: Entries,
    n: int,
    k: int,
    i: int,
    y: JsonV,
    id: Seq<char>,
)
    requires
        revised(d, p, ups, n, k, i, y),
    ensures
        goes_by(y, id) <==> goes_by(left(d, p, k)[i], id),
{
    if exists|o: Seq<char>, c: Entries|
        first_with(d, p, o, k, i) && #[trigger] updates(ups, n, o, c) {
        let (o, c) = choose|o: Seq<char>, c: Entries|
            first_with(d, p, o, k, i) && #[trigger] updates(ups, n, o, c);
        assert(takes(left(d, p, k)[i], c, y));
        assert(json::field(y, "id"@) == json::field(left(d, p, k)[i], "id"@));
    }
}

proof fn lemma_find_item(v: Seq<JsonV>, id: Seq<char>, i: int)
    requires
        0 <= i <= v.len(),
    ensures
        i <= edit::find_item(v, id, i) <= v.len(),
        edit::find_item(v, id, i) < v.len() ==> goes_by(v[edit::find_item(v, id, i)], id),
        forall|j: int| i <= j < edit::find_item(v, id, i) ==> !goes_by(#[trigger] v[j], id),
    decreases v.len() - i,
{
    if i < v.len() {
        assert(edit::ident_of(v[i]) == Some(id) <==> goes_by(v[i], id));
        if edit::ident_of(v[i]) != Some(id) {
            lemma_find_item(v, id, i + 1);
        }
    }
}

proof fn lemma_find_list(d: Entries, id: Seq<char>, k: int)
    requires
        0 <= k <= 7,
    ensures
        ({
            let r = edit::find_list(d, id, k);
            &&& k <= r <= 7
            &&& r < 7 ==> edit::find_item(list_at(d, list_key(r)), id, 0) < list_at(
                d,
                list_key(r),
            ).len()
            &&& forall|q: int, j: int|
                k <= q < r && 0 <= j < list_at(d, list_key(q)).len() ==> !goes_by(
                    #[trigger] list_at(d, list_key(q))[j],
                    id,
                )
        }),
    decreases 7 - k,
{
    if k < 7 {
        let v = list_at(d, list_key(k));
        lemma_find_item(v, id, 0);
        if edit::find_item(v, id, 0) >= v.len() {
            lemma_find_list(d, id, k + 1);
        }
    }
}

/// The item that an update finds is the first that goes by its identifier.
proof fn lemma_found(d: Entries, p: Entries, ups: Entries, n: int, e: Entries, id: Seq<char>)
    requires
        all_revised(d, p, ups, n, e),
    ensures
        ({
            let k = edit::find_list(e, id, 0);
            &&& 0 <= k <= 7
            &&& k < 7 ==> first_with(d, p, id, k, edit::find_item(list_at(e, list_key(k)), id, 0))
            &&& k == 7 ==> forall|q: int, j: int|
                0 <= q < 7 && 0 <= j < left(d, p, q).len() ==> !goes_by(
                    #[trigger] left(d, p, q)[j],
                    id,
                )
        }),
{
    lemma_find_list(e, id, 0);
    let k = edit::find_list(e, id, 0);
    assert forall|q: int, j: int| 0 <= q < k && 0 <= j < left(d, p, q).len() implies !goes_by(
        #[trigger] left(d, p, q)[j],
        id,
    ) by {
        let v = list_at(e, list_key(q));
        assert(!goes_by(v[j], id));
        assert(revised(d, p, ups, n, q, j, v[j]));
        lemma_same_id(d, p, ups, n, q, j, v[j], id);
    }
    if k < 7 {
        let v = list_at(e, list_key(k));
        lemma_find_item(v, id, 0);
        let i = edit::find_item(v, id, 0);
        assert(revised(d, p, ups, n, k, i, v[i]));
        lemma_same_id(d, p, ups, n, k, i, v[i], id);
        assert forall|j: int| 0 <= j < i implies !goes_by(#[trigger] left(d, p, k)[j], id) by {
            assert(!goes_by(v[j], id));
            assert(revised(d, p, ups, n, k, j, v[j]));
            lemma_same_id(d, p, ups, n, k, j, v[j], id);
        }
    }
}

/// The identifier that an item goes by is one.
proof fn lemma_one_id(it: JsonV, a: Seq<char>, b: Seq<char>)
    requires
        goes_by(it, a),
        goes_by(it, b),
    ensures
        a == b,
{
}

proof fn lemma_other_update(ups: Entries, n: int, id: Seq<char>, c: Entries)
    requires
        0 < n <= ups.len(),
    ensures
        updates(ups, n, id, c) <==> updates(ups, n - 1, id, c) || ups[n - 1] == (
            id,
            JsonV::Obj(c),
        ),
{
    if updates(ups, n, id, c) {
        let m = choose|m: int| 0 <= m < n && #[trigger] ups[m] == (id, JsonV::Obj(c));
        assert(m < n - 1 ==> updates(ups, n - 1, id, c));
    }
    if updates(ups, n - 1, id, c) {
        let m = choose|m: int| 0 <= m < n - 1 && #[trigger] ups[m] == (id, JsonV::Obj(c));
        assert(0 <= m < n && ups[m] == (id, JsonV::Obj(c)));
    }
    if ups[n - 1] == (id, JsonV::Obj(c)) {
        assert(0 <= n - 1 < n && ups[n - 1] == (id, JsonV::Obj(c)));
    }
}

/// An update that reaches no item but the one it is of leaves the others as the updates before it.
proof fn lemma_passed_by(
    d: Entries,
    p: Entries,
    ups: Entries,
    n: int,
    k: int,
    i: int,
    y: JsonV,
)
    requires
        0 < n <= ups.len(),
        revised(d, p, ups, n - 1, k, i, y),
        !first_with(d, p, ups[n - 1].0, k, i) || !(ups[n - 1].1 is Obj),
    ensures
        revised(d, p, ups, n, k, i, y),
{
    assert forall|id: Seq<char>, c: Entries|
        first_with(d, p, id, k, i) && #[trigger] updates(ups, n, id, c) implies takes(
        left(d, p, k)[i],
        c,
        y,
    ) by {
        lemma_other_update(ups, n, id, c);
        assert(updates(ups, n - 1, id, c));
    }
    if forall|id: Seq<char>, c: Entries|
        first_with(d, p, id, k, i) ==> !#[trigger] updates(ups, n, id, c) {
        assert forall|id: Seq<char>, c: Entries|
            first_with(d, p, id, k, i) implies !#[trigger] updates(ups, n - 1, id, c) by {
            lemma_other_update(ups, n, id, c);
            assert(!updates(ups, n, id, c));
        }
    }
}

#[verifier::spinoff_prover]
#[verifier::rlimit(40)]
proof fn lemma_update_step(d: Entries, p: Entries, ups: Entries, n: int, e: EditV)
    requires
        0 < n <= ups.len(),
        order_map::keys_once(ups),
        all_revised(d, p, ups, n - 1, e.d),
    ensures
        all_revised(
            d,
            p,
            ups,
            n,
            edit::updated_one(e, edit::removals(p), ups[n - 1].0, ups[n - 1].1).d,
        ),
{
    let gone = edit::removals(p);
    let (id, ch) = ups[n - 1];
    let r = edit::updated_one(e, gone, id, ch).d;
    let k = edit::find_list(e.d, id, 0);
    lemma_found(d, p, ups, n - 1, e.d, id);
    lemma_removals(p, id);
    if gone.contains(id) || k >= 7 {
        assert(r == e.d);
        assert forall|q: int, j: int| 0 <= q < 7 && 0 <= j < left(d, p, q).len() implies #[trigger] revised(
            d,
            p,
            ups,
            n,
            q,
            j,
            list_at(r, list_key(q))[j],
        ) by {
            assert(revised(d, p, ups, n - 1, q, j, list_at(e.d, list_key(q))[j]));
            if first_with(d, p, id, q, j) {
                lemma_left(d, p, q, j);
                assert(false);
            }
            lemma_passed_by(d, p, ups, n, q, j, list_at(r, list_key(q))[j]);
        }
    } else {
        let v = list_at(e.d, list_key(k));
        let i = edit::find_item(v, id, 0);
        let w = match ch {
            JsonV::Obj(c) => v.update(
                i,
                JsonV::Obj(edit::changed(json::entries_of(v[i]), c, c.len() as int)),
            ),
            _ => v,
        };
        assert(r == order_map::put(e.d, list_key(k), JsonV::Arr(w)));
        order_map::put_then_look(e.d, list_key(k), JsonV::Arr(w));
        assert forall|q: int| 0 <= q < 7 implies list_at(r, #[trigger] list_key(q)) == (if q == k {
            w
        } else {
            list_at(e.d, list_key(q))
        }) by {
            if q < k {
                edit::lemma_list_keys(q, k);
            } else if q > k {
                edit::lemma_list_keys(k, q);
            }
        }
        assert forall|q: int, j: int| 0 <= q < 7 && 0 <= j < left(d, p, q).len() implies #[trigger] revised(
            d,
            p,
            ups,
            n,
            q,
            j,
            list_at(r, list_key(q))[j],
        ) by {
            assert(revised(d, p, ups, n - 1, q, j, list_at(e.d, list_key(q))[j]));
            if q == k && j == i && ch is Obj {
                let c = ch->Obj_0;
                lemma_made(d, p, ups, n, k, i, v[i], c);
            } else {
                lemma_first_once(d, p, id, k, i, q, j);
                lemma_passed_by(d, p, ups, n, q, j, list_at(r, list_key(q))[j]);
            }
        }
        assert forall|q: Seq<char>|
            (forall|m: int| 0 <= m < 7 ==> q != #[trigger] list_key(m)) implies #[trigger] look(r, q)
            == look(d, q) by {
            assert(q != list_key(k));
            assert(look(r, q) == look(e.d, q));
        }
    }
}

/// What is left goes by no identifier that is removed.
proof fn lemma_left(d: Entries, p: Entries, k: int, i: int)
    requires
        0 <= i < left(d, p, k).len(),
    ensures
        left_in(p, left(d, p, k)[i]),
{
    let pred = |it: JsonV| left_in(p, it);
    let v = list_at(d, list_key(k));
    v.lemma_filter_pred(pred, i);
    assert(pred(v.filter(pred)[i]));
}

proof fn lemma_first_once(
    d: Entries,
    p: Entries,
    id: Seq<char>,
    k: int,
    i: int,
    q: int,
    j: int,
)
    requires
        first_with(d, p, id, k, i),
    ensures
        first_with(d, p, id, q, j) ==> q == k && j == i,
{
    if first_with(d, p, id, q, j) {
        assert(goes_by(left(d, p, q)[j], id));
        assert(goes_by(left(d, p, k)[i], id));
    }
}

/// The item that an update is of takes its changes.
proof fn lemma_made(
    d: Entries,
    p: Entries,
    ups: Entries,
    n: int,
    k: int,
    i: int,
    x: JsonV,
    c: Entries,
)
    requires
        0 < n <= ups.len(),
        order_map::keys_once(ups),
        ups[n - 1].1 == JsonV::Obj(c),
        first_with(d, p, ups[n - 1].0, k, i),
        revised(d, p, ups, n - 1, k, i, x),
    ensures
        revised(
            d,
            p,
            ups,
            n,
            k,
            i,
            JsonV::Obj(edit::changed(json::entries_of(x), c, c.len() as int)),
        ),
{
    let it = left(d, p, k)[i];
    let me = ups[n - 1].0;
    let y = JsonV::Obj(edit::changed(json::entries_of(x), c, c.len() as int));
    assert forall|id: Seq<char>, o: Entries| first_with(d, p, id, k, i) implies !#[trigger] updates(
        ups,
        n - 1,
        id,
        o,
    ) by {
        lemma_one_id(it, id, me);
        if updates(ups, n - 1, id, o) {
            let m = choose|m: int| 0 <= m < n - 1 && #[trigger] ups[m] == (id, JsonV::Obj(o));
            assert(ups[m].0 != ups[n - 1].0);
        }
    }
    assert(x == it);
    lemma_changed(json::entries_of(x), c, c.len() as int);
    assert(c.take(c.len() as int) =~= c);
    assert(takes(JsonV::Obj(json::entries_of(x)), c, y));
    assert(takes(it, c, y)) by {
        assert forall|f: Seq<char>|
            f == "id"@ || unstated(c, f) implies #[trigger] json::field(y, f) == json::field(
            it,
            f,
        ) by {
            assert(json::field(y, f) == json::field(JsonV::Obj(json::entries_of(x)), f));
        }
    }
    assert forall|id: Seq<char>, o: Entries|
        first_with(d, p, id, k, i) && #[trigger] updates(ups, n, id, o) implies takes(it, o, y) by {
        lemma_other_update(ups, n, id, o);
        assert(!updates(ups, n - 1, id, o));
        assert(o == c);
    }
    lemma_other_update(ups, n, me, c);
    assert(updates(ups, n, me, c));
}

proof fn lemma_updated(d: Entries, p: Entries, ups: Entries, n: int, e: EditV)
    requires
        0 <= n <= ups.len(),
        order_map::keys_once(ups),
        e.d == edit::removed(d, edit::removals(p), 7),
    ensures
        all_revised(d, p, ups, n, edit::updated(e, edit::removals(p), ups, n).d),
    decreases n,
{
    if n > 0 {
        lemma_updated(d, p, ups, n - 1, e);
        lemma_update_step(d, p, ups, n, edit::updated(e, edit::removals(p), ups, n - 1));
    } else {
        lemma_removed(d, p, 7);
        assert forall|k: int, i: int| 0 <= k < 7 && 0 <= i < left(d, p, k).len() implies #[trigger] revised(
            d,
            p,
            ups,
            0,
            k,
            i,
            list_at(e.d, list_key(k))[i],
        ) by {}
    }
}

// ---------------------------------------------------------------- what is added
/// What is said of a new item: a bare wire is its points, a bare mark its place.
pub open spec fn offered(k: int, raw: JsonV) -> Entries {
    match raw {
        JsonV::Obj(o) => o,
        _ => if k == 2 {
            seq![("pts"@, raw)]
        } else if k == 4 {
            seq![("at"@, raw)]
        } else {
            Seq::empty()
        },
    }
}

/// Whether an item is a new one of list `k`: it goes by the letter of the list and a number,
/// and has the fields that were stated for it and no others.
pub open spec fn made_new(k: int, number: int, raw: JsonV, y: JsonV) -> bool {
    takes(
        JsonV::Obj(seq![("id"@, JsonV::Str(edit::list_letter(k) + text::digits(number as nat)))]),
        offered(k, raw),
        y,
    )
}

/// Whether a part with the same reference stands among parts.
pub open spec fn in_use(parts: Seq<JsonV>, it: JsonV) -> bool {
    exists|i: int| 0 <= i < parts.len() && edit::has_id(#[trigger] parts[i], edit::id_value(it))
}

proof fn lemma_new(k: int, count: int, raw: JsonV)
    requires
        1 <= k < 7,
    ensures
        made_new(k, count, raw, edit::tagged_item(k, count, edit::wrapped(k, raw))),
{
    let c = json::entries_of(edit::wrapped(k, raw));
    assert(c =~= offered(k, raw));
    let o = seq![("id"@, JsonV::Str(edit::list_letter(k) + text::digits(count as nat)))];
    lemma_changed(o, c, c.len() as int);
    assert(c.take(c.len() as int) =~= c);
}

proof fn lemma_pushed(d: Entries, k: int, it: JsonV)
    ensures
        list_at(edit::pushed(d, k, it), list_key(k)) == list_at(d, list_key(k)).push(it),
        forall|q: Seq<char>|
            q != list_key(k) ==> #[trigger] look(edit::pushed(d, k, it), q) == look(d, q),
{
    order_map::put_then_look(d, list_key(k), JsonV::Arr(list_at(d, list_key(k)).push(it)));
}

/// One list after additions to it.
spec fn extended(k: int, start: int, v: Seq<JsonV>, n: int, a: Seq<JsonV>, b: Seq<JsonV>) -> bool {
    &&& b.len() >= a.len()
    &&& forall|i: int| 0 <= i < a.len() ==> #[trigger] b[i] == a[i]
    &&& k >= 1 ==> b.len() == a.len() + n && forall|j: int|
        0 <= j < n ==> made_new(k, start + j + 1, #[trigger] v[j], b[a.len() + j])
    &&& k == 0 ==> forall|i: int|
        a.len() <= i < b.len() ==> v.take(n).contains(#[trigger] b[i])
    &&& k == 0 ==> forall|j: int|
        0 <= j < n && !in_use(a, #[trigger] v[j]) && !in_use(v.take(j), v[j]) ==> b.skip(
            a.len() as int,
        ).contains(v[j])
}

/// What was said stays said.
spec fn said(a: Seq<Seq<char>>, b: Seq<Seq<char>>) -> bool {
    a.len() <= b.len() && forall|i: int| 0 <= i < a.len() ==> b[i] == #[trigger] a[i]
}

proof fn lemma_said(a: Seq<Seq<char>>, b: Seq<Seq<char>>, c: Seq<Seq<char>>)
    requires
        said(a, b),
        said(b, c),
    ensures
        said(a, c),
{
    assert forall|i: int| 0 <= i < a.len() implies c[i] == #[trigger] a[i] by {
        assert(b[i] == a[i]);
    }
}

/// Whether a note stands for each stated part that takes a reference of parts of one unit.
spec fn refused(
    v: Seq<JsonV>,
    n: int,
    a: Seq<JsonV>,
    b: Seq<JsonV>,
    errors: Seq<Seq<char>>,
) -> bool {
    forall|j: int|
        0 <= j < n && taken(a, b, #[trigger] v[j]) ==> errors.contains(edit::clash_note(v[j]))
}

/// Parts after one more addition.
#[verifier::spinoff_prover]
#[verifier::rlimit(40)]
proof fn lemma_add_part(
    v: Seq<JsonV>,
    n: int,
    a: Seq<JsonV>,
    m: Seq<JsonV>,
    b: Seq<JsonV>,
    e: Seq<Seq<char>>,
    r: Seq<Seq<char>>,
)
    requires
        0 < n <= v.len(),
        extended(0, a.len() as int, v, n - 1, a, m),
        refused(v, n - 1, a, m, e),
        edit::clashes(m, v[n - 1]) ==> b == m && r == e.push(edit::clash_note(v[n - 1])),
        !edit::clashes(m, v[n - 1]) ==> b == m.push(v[n - 1]) && r == e,
    ensures
        extended(0, a.len() as int, v, n, a, b),
        refused(v, n, a, b, r),
{
    let raw = v[n - 1];
    let hit = edit::clashes(m, raw);
    let w = v.take(n - 1);
    assert forall|i: int| a.len() <= i < b.len() implies v.take(n).contains(#[trigger] b[i]) by {
        if i < m.len() {
            assert(w.contains(m[i]));
            let j = choose|j: int| 0 <= j < w.len() && w[j] == m[i];
            assert(v.take(n)[j] == b[i]);
        } else {
            assert(v.take(n)[n - 1] == b[i]);
        }
    }
    assert forall|j: int|
        0 <= j < n && !in_use(a, #[trigger] v[j]) && !in_use(v.take(j), v[j]) implies b.skip(
        a.len() as int,
    ).contains(v[j]) by {
        let t = b.skip(a.len() as int);
        if j < n - 1 {
            let o = m.skip(a.len() as int);
            assert(o.contains(v[j]));
            let i = choose|i: int| 0 <= i < o.len() && o[i] == v[j];
            assert(t[i] == v[j]);
        } else {
            if hit {
                let i = choose|i: int|
                    0 <= i < m.len() && edit::has_id(#[trigger] m[i], edit::id_value(raw));
                if i < a.len() {
                    assert(a[i] == m[i]);
                } else {
                    assert(w.contains(m[i]));
                    let g = choose|g: int| 0 <= g < w.len() && w[g] == m[i];
                    assert(edit::has_id(v.take(j)[g], edit::id_value(raw)));
                }
                assert(false);
            }
            assert(t[m.len() - a.len()] == v[j]);
        }
    }
    assert forall|j: int| 0 <= j < n && taken(a, b, #[trigger] v[j]) implies r.contains(
        edit::clash_note(v[j]),
    ) by {
        assert(taken(a, m, v[j])) by {
            assert forall|i: int|
                0 <= i < m.len() && edit::has_id(
                    #[trigger] m[i],
                    edit::id_value(v[j]),
                ) implies edit::unit_of(m[i]) == 1 by {
                assert(b[i] == m[i]);
            }
        }
        if j < n - 1 {
            let i = choose|i: int| 0 <= i < e.len() && e[i] == edit::clash_note(v[j]);
            assert(r[i] == edit::clash_note(v[j]));
        } else {
            let i = choose|i: int|
                0 <= i < a.len() && edit::has_id(#[trigger] a[i], edit::id_value(raw));
            assert(m[i] == a[i]);
            assert(hit);
            assert(r[e.len() as int] == edit::clash_note(v[j]));
        }
    }
}

proof fn lemma_add_item(
    k: int,
    start: int,
    v: Seq<JsonV>,
    n: int,
    a: Seq<JsonV>,
    m: Seq<JsonV>,
    b: Seq<JsonV>,
)
    requires
        1 <= k < 7,
        0 < n <= v.len(),
        extended(k, start, v, n - 1, a, m),
        b == m.push(edit::tagged_item(k, start + n, edit::wrapped(k, v[n - 1]))),
    ensures
        extended(k, start, v, n, a, b),
{
    lemma_new(k, start + n, v[n - 1]);
    assert forall|j: int| 0 <= j < n implies made_new(
        k,
        start + j + 1,
        #[trigger] v[j],
        b[a.len() + j],
    ) by {
        if j < n - 1 {
            assert(b[a.len() + j] == m[a.len() + j]);
        }
    }
}

proof fn lemma_added_items(e: EditV, k: int, v: Seq<JsonV>, n: int)
    requires
        0 <= k < 7,
        0 <= n <= v.len(),
    ensures
        ({
            let a = list_at(e.d, list_key(k));
            let r = edit::added_items(e, k, a.len() as int, v, n);
            let b = list_at(r.d, list_key(k));
            &&& extended(k, a.len() as int, v, n, a, b)
            &&& forall|q: Seq<char>|
                q != list_key(k) ==> #[trigger] look(r.d, q) == look(e.d, q)
            &&& said(e.errors, r.errors)
            &&& k == 0 ==> refused(v, n, a, b, r.errors)
        }),
    decreases n,
{
    if n > 0 {
        lemma_added_items(e, k, v, n - 1);
        let a = list_at(e.d, list_key(k));
        let start = a.len() as int;
        let s = edit::added_items(e, k, start, v, n - 1);
        let r = edit::added_items(e, k, start, v, n);
        assert(r == edit::added_one(s, k, start + n, v[n - 1]));
        let m = list_at(s.d, list_key(k));
        let b = list_at(r.d, list_key(k));
        if k == 0 {
            lemma_pushed(s.d, k, v[n - 1]);
            assert(list_key(0) == "parts"@);
            lemma_add_part(v, n, a, m, b, s.errors, r.errors);
        } else {
            lemma_pushed(s.d, k, edit::tagged_item(k, start + n, edit::wrapped(k, v[n - 1])));
            lemma_add_item(k, start, v, n, a, m, b);
        }
        assert(said(s.errors, r.errors));
        lemma_said(e.errors, s.errors, r.errors);
    }
}

spec fn all_added(e: EditV, add: Entries, n: int, r: EditV) -> bool {
    &&& forall|k: int| #![trigger list_key(k)]
        0 <= k < n ==> ({
            let a = list_at(e.d, list_key(k));
            let v = list_at(add, list_key(k));
            extended(k, a.len() as int, v, v.len() as int, a, list_at(r.d, list_key(k)))
        })
    &&& forall|q: Seq<char>|
        (forall|k: int| 0 <= k < n ==> q != #[trigger] list_key(k)) ==> #[trigger] look(r.d, q)
            == look(e.d, q)
    &&& said(e.errors, r.errors)
}

/// Whether a stated part takes a reference in use, of which the parts hold unit 1 alone.
pub open spec fn taken(before: Seq<JsonV>, after: Seq<JsonV>, it: JsonV) -> bool {
    &&& in_use(before, it)
    &&& edit::unit_of(it) == 1
    &&& forall|i: int|
        0 <= i < after.len() && edit::has_id(#[trigger] after[i], edit::id_value(it))
            ==> edit::unit_of(after[i]) == 1
}

#[verifier::spinoff_prover]
#[verifier::rlimit(40)]
proof fn lemma_added(e: EditV, add: Entries, n: int)
    requires
        0 <= n <= 7,
    ensures
        all_added(e, add, n, edit::added(e, e.d, add, n)),
        n > 0 ==> forall|j: int|
            0 <= j < list_at(add, "parts"@).len() && taken(
                list_at(e.d, "parts"@),
                list_at(edit::added(e, e.d, add, n).d, "parts"@),
                #[trigger] list_at(add, "parts"@)[j],
            ) ==> edit::added(e, e.d, add, n).errors.contains(
                edit::clash_note(list_at(add, "parts"@)[j]),
            ),
    decreases n,
{
    if n > 0 {
        lemma_added(e, add, n - 1);
        let s = edit::added(e, e.d, add, n - 1);
        let r = edit::added(e, e.d, add, n);
        let q = list_key(n - 1);
        let v = list_at(add, q);
        assert forall|k: int| 0 <= k < n - 1 implies q != #[trigger] list_key(k) by {
            edit::lemma_list_keys(k, n - 1);
        }
        assert(look(s.d, q) == look(e.d, q));
        let start = list_at(e.d, q).len() as int;
        lemma_added_items(s, n - 1, v, v.len() as int);
        lemma_said(e.errors, s.errors, r.errors);
        assert(r == edit::added_items(s, n - 1, start, v, v.len() as int));
        assert forall|k: int| #![trigger list_key(k)] 0 <= k < n implies ({
            let a = list_at(e.d, list_key(k));
            let w = list_at(add, list_key(k));
            extended(k, a.len() as int, w, w.len() as int, a, list_at(r.d, list_key(k)))
        }) by {
            if k < n - 1 {
                assert(look(r.d, list_key(k)) == look(s.d, list_key(k)));
            }
        }
        assert forall|o: Seq<char>|
            (forall|k: int| 0 <= k < n ==> o != #[trigger] list_key(k)) implies #[trigger] look(
            r.d,
            o,
        ) == look(e.d, o) by {
            assert(o != list_key(n - 1));
            assert(look(r.d, o) == look(s.d, o));
        }
        assert(list_key(0) == "parts"@);
        assert forall|j: int|
            0 <= j < list_at(add, "parts"@).len() && taken(
                list_at(e.d, "parts"@),
                list_at(r.d, "parts"@),
                #[trigger] list_at(add, "parts"@)[j],
            ) implies r.errors.contains(edit::clash_note(list_at(add, "parts"@)[j])) by {
            if n > 1 {
                edit::lemma_list_keys(0, n - 1);
                assert(look(r.d, list_key(0)) == look(s.d, list_key(0)));
                let t = edit::clash_note(list_at(add, "parts"@)[j]);
                assert(s.errors.contains(t));
                let i = choose|i: int| 0 <= i < s.errors.len() && s.errors[i] == t;
                assert(r.errors[i] == t);
            }
        }
    }
}

// ---------------------------------------------------------------- the title block
/// The entries of a design that an edit may restate.
pub open spec fn title_key(i: int) -> Seq<char> {
    if i == 0 {
        "title"@
    } else if i == 1 {
        "rev"@
    } else if i == 2 {
        "date"@
    } else if i == 3 {
        "company"@
    } else if i == 4 {
        "comments"@
    } else {
        "paper"@
    }
}

#[verifier::spinoff_prover]
#[verifier::rlimit(40)]
pub proof fn lemma_title_keys()
    ensures
        forall|i: int, j: int|
            0 <= i < j < 6 ==> #[trigger] title_key(i) != #[trigger] title_key(j),
        forall|i: int, k: int|
            0 <= i < 6 && 0 <= k < 7 ==> #[trigger] title_key(i) != #[trigger] list_key(k),
{
    reveal_strlit("title");
    reveal_strlit("rev");
    reveal_strlit("date");
    reveal_strlit("company");
    reveal_strlit("comments");
    reveal_strlit("paper");
    reveal_strlit("parts");
    reveal_strlit("power");
    reveal_strlit("wires");
    reveal_strlit("labels");
    reveal_strlit("nc");
    reveal_strlit("texts");
    reveal_strlit("rects");
    assert forall|i: int, j: int| 0 <= i < j < 6 implies #[trigger] title_key(i)
        != #[trigger] title_key(j) by {
        assert(title_key(i).len() != title_key(j).len() || title_key(i)[0] != title_key(j)[0]);
    }
    assert forall|i: int, k: int| 0 <= i < 6 && 0 <= k < 7 implies #[trigger] title_key(i)
        != #[trigger] list_key(k) by {
        assert(title_key(i).len() != list_key(k).len() || title_key(i)[0] != list_key(k)[0]
            || title_key(i)[2] != list_key(k)[2]);
    }
}

proof fn lemma_restated(d: Entries, p: Entries, k: Seq<char>)
    ensures
        look(edit::restated(d, p, k), k) == (if look(p, k) is Some {
            look(p, k)
        } else {
            look(d, k)
        }),
        forall|q: Seq<char>|
            q != k ==> #[trigger] look(edit::restated(d, p, k), q) == look(d, q),
{
    if look(p, k) is Some {
        order_map::put_then_look(d, k, look(p, k)->0);
    }
}

#[verifier::spinoff_prover]
#[verifier::rlimit(40)]
proof fn lemma_retitled(d: Entries, p: Entries)
    ensures
        forall|i: int|
            0 <= i < 6 ==> look(edit::retitled(d, p), #[trigger] title_key(i)) == (if look(
                p,
                title_key(i),
            ) is Some {
                look(p, title_key(i))
            } else {
                look(d, title_key(i))
            }),
        forall|q: Seq<char>|
            (forall|i: int| 0 <= i < 6 ==> q != #[trigger] title_key(i)) ==> #[trigger] look(
                edit::retitled(d, p),
                q,
            ) == look(d, q),
{
    lemma_title_keys();
    let d1 = edit::restated(d, p, title_key(0));
    let d2 = edit::restated(d1, p, title_key(1));
    let d3 = edit::restated(d2, p, title_key(2));
    let d4 = edit::restated(d3, p, title_key(3));
    let d5 = edit::restated(d4, p, title_key(4));
    let d6 = edit::restated(d5, p, title_key(5));
    assert(d6 == edit::retitled(d, p));
    lemma_restated(d, p, title_key(0));
    lemma_restated(d1, p, title_key(1));
    lemma_restated(d2, p, title_key(2));
    lemma_restated(d3, p, title_key(3));
    lemma_restated(d4, p, title_key(4));
    lemma_restated(d5, p, title_key(5));
    assert forall|i: int| 0 <= i < 6 implies look(d6, #[trigger] title_key(i)) == (if look(
        p,
        title_key(i),
    ) is Some {
        look(p, title_key(i))
    } else {
        look(d, title_key(i))
    }) by {
        let q = title_key(i);
        assert(forall|j: int| 0 <= j < 6 && j != i ==> q != #[trigger] title_key(j)) by {
            assert forall|j: int| 0 <= j < 6 && j != i implies q != #[trigger] title_key(j) by {
                if j < i {
                    assert(title_key(j) != title_key(i));
                } else {
                    assert(title_key(i) != title_key(j));
                }
            }
        }
    }
    assert forall|q: Seq<char>|
        (forall|i: int| 0 <= i < 6 ==> q != #[trigger] title_key(i)) implies #[trigger] look(d6, q)
        == look(d, q) by {
        assert(q != title_key(0) && q != title_key(1) && q != title_key(2) && q != title_key(3)
            && q != title_key(4) && q != title_key(5));
    }
}

// ---------------------------------------------------------------- an edit
/// What an edit is made of.
pub open spec fn updates_of(p: Entries) -> Entries {
    edit::object_at(p, "update"@)
}

pub open spec fn additions_of(p: Entries, k: int) -> Seq<JsonV> {
    list_at(edit::object_at(p, "add"@), list_key(k))
}

/// A list of the design after an edit.
pub open spec fn after(d: Entries, p: Entries, k: int) -> Seq<JsonV> {
    list_at(edit::patched(JsonV::Obj(d), JsonV::Obj(p)).d, list_key(k))
}

/// The design after removals and updates.
spec fn midway(d: Entries, p: Entries) -> EditV {
    let gone = edit::removals(p);
    let e0 = EditV {
        d: edit::removed(d, gone, 7),
        errors: edit::removal_notes(gone, edit::known_ids(d, 7), gone.len() as int),
    };
    edit::updated(e0, gone, updates_of(p), updates_of(p).len() as int)
}

spec fn late(d: Entries, p: Entries) -> EditV {
    let e = midway(d, p);
    edit::added(e, e.d, edit::object_at(p, "add"@), 7)
}

proof fn lemma_late(d: Entries, p: Entries)
    ensures
        edit::patched(JsonV::Obj(d), JsonV::Obj(p)) == (EditV {
            d: edit::retitled(late(d, p).d, p),
            errors: late(d, p).errors,
        }),
        forall|k: int| #![trigger list_key(k)]
            0 <= k < 7 ==> after(d, p, k) == list_at(late(d, p).d, list_key(k)),
{
    lemma_retitled(late(d, p).d, p);
    lemma_title_keys();
    assert forall|k: int| #![trigger list_key(k)] 0 <= k < 7 implies after(d, p, k) == list_at(
        late(d, p).d,
        list_key(k),
    ) by {
        assert forall|i: int| 0 <= i < 6 implies list_key(k) != #[trigger] title_key(i) by {
            assert(title_key(i) != list_key(k));
        }
    }
}

proof fn lemma_lists(d: Entries, p: Entries, k: int)
    requires
        order_map::keys_once(updates_of(p)),
        0 <= k < 7,
    ensures
        all_revised(d, p, updates_of(p), updates_of(p).len() as int, midway(d, p).d),
        list_at(midway(d, p).d, list_key(k)).len() == left(d, p, k).len(),
        extended(
            k,
            left(d, p, k).len() as int,
            additions_of(p, k),
            additions_of(p, k).len() as int,
            list_at(midway(d, p).d, list_key(k)),
            after(d, p, k),
        ),
{
    let gone = edit::removals(p);
    let e0 = EditV {
        d: edit::removed(d, gone, 7),
        errors: edit::removal_notes(gone, edit::known_ids(d, 7), gone.len() as int),
    };
    let ups = updates_of(p);
    lemma_updated(d, p, ups, ups.len() as int, e0);
    lemma_added(midway(d, p), edit::object_at(p, "add"@), 7);
    lemma_late(d, p);
    assert(all_added(midway(d, p), edit::object_at(p, "add"@), 7, late(d, p)));
}

/// After an edit each list begins with the items that the edit does not remove, in their order.
/// Of these the first that goes by an identifier with an update has, for each field but its
/// identifier, the last value that the update states, and its other fields as before; every other
/// item is as it was.
pub proof fn an_edit_revises_what_it_leaves(d: Entries, p: Entries, k: int, i: int)
    requires
        order_map::keys_once(updates_of(p)),
        0 <= k < 7,
        0 <= i < left(d, p, k).len(),
    ensures
        after(d, p, k).len() >= left(d, p, k).len(),
        forall|id: Seq<char>, c: Entries|
            first_with(d, p, id, k, i) && #[trigger] updates(
                updates_of(p),
                updates_of(p).len() as int,
                id,
                c,
            ) ==> takes(left(d, p, k)[i], c, after(d, p, k)[i]),
        (forall|id: Seq<char>, c: Entries|
            first_with(d, p, id, k, i) ==> !#[trigger] updates(
                updates_of(p),
                updates_of(p).len() as int,
                id,
                c,
            )) ==> after(d, p, k)[i] == left(d, p, k)[i],
{
    lemma_lists(d, p, k);
    let m = list_at(midway(d, p).d, list_key(k));
    assert(revised(d, p, updates_of(p), updates_of(p).len() as int, k, i, m[i]));
    assert(after(d, p, k)[i] == m[i]);
}

/// After an edit that adds nothing under it, no item goes by an identifier that the edit removes.
pub proof fn what_is_removed_is_gone(d: Entries, p: Entries, id: Seq<char>, k: int, i: int)
    requires
        order_map::keys_once(updates_of(p)),
        removes(p, id),
        0 <= k < 7,
        0 <= i < left(d, p, k).len(),
    ensures
        i < after(d, p, k).len(),
        !goes_by(after(d, p, k)[i], id),
{
    lemma_lists(d, p, k);
    lemma_left(d, p, k, i);
    let m = list_at(midway(d, p).d, list_key(k));
    let ups = updates_of(p);
    assert(revised(d, p, ups, ups.len() as int, k, i, m[i]));
    assert(after(d, p, k)[i] == m[i]);
    lemma_same_id(d, p, ups, ups.len() as int, k, i, m[i], id);
}

/// New items follow those that a list had, in the order in which the edit states them; each goes
/// by the letter of its list and its place there, and has the stated fields.
pub proof fn an_edit_adds_what_it_states(d: Entries, p: Entries, k: int)
    requires
        order_map::keys_once(updates_of(p)),
        1 <= k < 7,
    ensures
        after(d, p, k).len() == left(d, p, k).len() + additions_of(p, k).len(),
        forall|j: int|
            0 <= j < additions_of(p, k).len() ==> made_new(
                k,
                left(d, p, k).len() + j + 1,
                #[trigger] additions_of(p, k)[j],
                after(d, p, k)[left(d, p, k).len() + j],
            ),
{
    lemma_lists(d, p, k);
}

/// New parts follow those that stayed: each is one that the edit states, and each that the edit
/// states under a reference not in use is among them. A part that takes a reference of a part of
/// one unit is refused with a note.
#[verifier::spinoff_prover]
#[verifier::rlimit(40)]
pub proof fn an_edit_adds_parts_under_free_references(d: Entries, p: Entries)
    requires
        order_map::keys_once(updates_of(p)),
    ensures
        forall|i: int|
            left(d, p, 0).len() <= i < after(d, p, 0).len() ==> additions_of(p, 0).contains(
                #[trigger] after(d, p, 0)[i],
            ),
        forall|j: int|
            0 <= j < additions_of(p, 0).len() && !in_use(
                left(d, p, 0),
                #[trigger] additions_of(p, 0)[j],
            ) && !in_use(additions_of(p, 0).take(j), additions_of(p, 0)[j]) ==> after(
                d,
                p,
                0,
            ).skip(left(d, p, 0).len() as int).contains(additions_of(p, 0)[j]),
        forall|j: int|
            0 <= j < additions_of(p, 0).len() && taken(
                left(d, p, 0),
                after(d, p, 0),
                #[trigger] additions_of(p, 0)[j],
            ) ==> edit::patched(JsonV::Obj(d), JsonV::Obj(p)).errors.contains(
                edit::clash_note(additions_of(p, 0)[j]),
            ),
{
    lemma_lists(d, p, 0);
    lemma_late(d, p);
    let v = additions_of(p, 0);
    let a = left(d, p, 0);
    let m = list_at(midway(d, p).d, list_key(0));
    let b = after(d, p, 0);
    assert(list_key(0) == "parts"@);
    assert(v.take(v.len() as int) =~= v);
    assert forall|j: int| 0 <= j < v.len() implies in_use(a, #[trigger] v[j]) == in_use(
        m,
        v[j],
    ) by {
        lemma_in_use(d, p, v[j]);
    }
    lemma_added(midway(d, p), edit::object_at(p, "add"@), 7);
    assert forall|j: int| 0 <= j < v.len() && taken(a, b, #[trigger] v[j]) implies edit::patched(
        JsonV::Obj(d),
        JsonV::Obj(p),
    ).errors.contains(edit::clash_note(v[j])) by {
        assert(taken(m, b, list_at(edit::object_at(p, "add"@), "parts"@)[j]));
    }
}

proof fn lemma_in_use(d: Entries, p: Entries, it: JsonV)
    requires
        order_map::keys_once(updates_of(p)),
    ensures
        in_use(left(d, p, 0), it) == in_use(list_at(midway(d, p).d, list_key(0)), it),
{
    lemma_lists(d, p, 0);
    let a = left(d, p, 0);
    let m = list_at(midway(d, p).d, list_key(0));
    let ups = updates_of(p);
    assert forall|i: int| 0 <= i < a.len() implies edit::has_id(
        #[trigger] a[i],
        edit::id_value(it),
    ) == edit::has_id(m[i], edit::id_value(it)) by {
        assert(revised(d, p, ups, ups.len() as int, 0, i, m[i]));
        assert(json::field(m[i], "id"@) == json::field(a[i], "id"@)) by {
            if exists|o: Seq<char>, c: Entries|
                first_with(d, p, o, 0, i) && #[trigger] updates(ups, ups.len() as int, o, c) {
                let (o, c) = choose|o: Seq<char>, c: Entries|
                    first_with(d, p, o, 0, i) && #[trigger] updates(ups, ups.len() as int, o, c);
                assert(takes(a[i], c, m[i]));
            }
        }
    }
    if in_use(a, it) {
        let i = choose|i: int|
            0 <= i < a.len() && edit::has_id(#[trigger] a[i], edit::id_value(it));
        assert(edit::has_id(m[i], edit::id_value(it)));
    }
    if in_use(m, it) {
        let i = choose|i: int|
            0 <= i < m.len() && edit::has_id(#[trigger] m[i], edit::id_value(it));
        assert(edit::has_id(a[i], edit::id_value(it)));
    }
}

/// The title block of a design after an edit is what the edit states of it, and as before where it
/// states nothing; entries that are neither lists nor of the title block do not change.
pub proof fn an_edit_restates_the_title_block(d: Entries, p: Entries)
    requires
        order_map::keys_once(updates_of(p)),
    ensures
        forall|i: int|
            0 <= i < 6 ==> look(
                edit::patched(JsonV::Obj(d), JsonV::Obj(p)).d,
                #[trigger] title_key(i),
            ) == (if look(p, title_key(i)) is Some {
                look(p, title_key(i))
            } else {
                look(d, title_key(i))
            }),
        forall|q: Seq<char>|
            (forall|i: int| 0 <= i < 6 ==> q != #[trigger] title_key(i)) && (forall|k: int|
                0 <= k < 7 ==> q != #[trigger] list_key(k)) ==> #[trigger] look(
                edit::patched(JsonV::Obj(d), JsonV::Obj(p)).d,
                q,
            ) == look(d, q),
{
    lemma_lists(d, p, 0);
    lemma_late(d, p);
    lemma_title_keys();
    let e = late(d, p);
    lemma_added(midway(d, p), edit::object_at(p, "add"@), 7);
    lemma_retitled(e.d, p);
    let r = edit::patched(JsonV::Obj(d), JsonV::Obj(p)).d;
    assert forall|q: Seq<char>|
        (forall|k: int| 0 <= k < 7 ==> q != #[trigger] list_key(k)) implies #[trigger] look(e.d, q)
        == look(d, q) by {
        assert(look(e.d, q) == look(midway(d, p).d, q));
    }
    assert forall|i: int| 0 <= i < 6 implies look(r, #[trigger] title_key(i)) == (if look(
        p,
        title_key(i),
    ) is Some {
        look(p, title_key(i))
    } else {
        look(d, title_key(i))
    }) by {
        assert(look(e.d, title_key(i)) == look(d, title_key(i)));
    }
}

// ---------------------------------------------------------------- what an edit is told
proof fn lemma_updates_say(e: EditV, gone: Seq<Seq<char>>, ups: Entries, n: int, m: int)
    requires
        0 <= m < n <= ups.len(),
    ensures
        said(
            edit::updated(e, gone, ups, m + 1).errors,
            edit::updated(e, gone, ups, n).errors,
        ),
    decreases n,
{
    if n > m + 1 {
        lemma_updates_say(e, gone, ups, n - 1, m);
        let a = edit::updated(e, gone, ups, m + 1).errors;
        let b = edit::updated(e, gone, ups, n - 1);
        let c = edit::updated(e, gone, ups, n);
        assert(c == edit::updated_one(b, gone, ups[n - 1].0, ups[n - 1].1));
        assert(said(b.errors, c.errors));
        lemma_said(a, b.errors, c.errors);
    }
}

/// An edit that updates an identifier that it also removes, one that no item goes by, or one
/// without an object of fields, says so.
#[verifier::spinoff_prover]
#[verifier::rlimit(40)]
pub proof fn an_update_that_cannot_be_made_is_reported(d: Entries, p: Entries, m: int)
    requires
        order_map::keys_once(updates_of(p)),
        0 <= m < updates_of(p).len(),
    ensures
        ({
            let (id, ch) = updates_of(p)[m];
            let errors = edit::patched(JsonV::Obj(d), JsonV::Obj(p)).errors;
            &&& removes(p, id) ==> errors.contains("update: '"@ + id + "' is also removed"@)
            &&& !removes(p, id) && (forall|k: int, i: int|
                0 <= k < 7 && 0 <= i < left(d, p, k).len() ==> !goes_by(
                    #[trigger] left(d, p, k)[i],
                    id,
                )) ==> errors.contains("update: unknown id '"@ + id + "'"@)
            &&& !removes(p, id) && !(ch is Obj) && (exists|k: int, i: int|
                0 <= k < 7 && 0 <= i < left(d, p, k).len() && goes_by(
                    #[trigger] left(d, p, k)[i],
                    id,
                )) ==> errors.contains(
                "update: '"@ + id + "' needs an object of fields to change"@,
            )
        }),
{
    let gone = edit::removals(p);
    let e0 = EditV {
        d: edit::removed(d, gone, 7),
        errors: edit::removal_notes(gone, edit::known_ids(d, 7), gone.len() as int),
    };
    let ups = updates_of(p);
    let n = ups.len() as int;
    let (id, ch) = ups[m];
    let e = edit::updated(e0, gone, ups, m);
    let r = edit::updated(e0, gone, ups, m + 1);
    assert(r == edit::updated_one(e, gone, id, ch));
    lemma_removals(p, id);
    lemma_updated(d, p, ups, m, e0);
    lemma_found(d, p, ups, m, e.d, id);
    lemma_updates_say(e0, gone, ups, n, m);
    lemma_late(d, p);
    lemma_added(midway(d, p), edit::object_at(p, "add"@), 7);
    let k = edit::find_list(e.d, id, 0);
    let errors = late(d, p).errors;
    let last = e.errors.len() as int;
    let hit = r.errors.len() > last;
    if hit {
        assert(midway(d, p).errors[last] == r.errors[last]);
        assert(errors[last] == r.errors[last]);
        assert(errors.contains(r.errors[last]));
    }
    if k < 7 {
        let i = edit::find_item(list_at(e.d, list_key(k)), id, 0);
        assert(goes_by(left(d, p, k)[i], id));
    }
}

// ---------------------------------------------------------------- edits without faults
/// Whether an item of a design goes by an identifier.
pub open spec fn known(d: Entries, id: Seq<char>) -> bool {
    exists|k: int, i: int|
        0 <= k < 7 && 0 <= i < list_at(d, list_key(k)).len() && goes_by(
            #[trigger] list_at(d, list_key(k))[i],
            id,
        )
}

proof fn lemma_idents(v: Seq<JsonV>, n: int, id: Seq<char>)
    requires
        0 <= n <= v.len(),
    ensures
        edit::idents(v, n).contains(id) <==> exists|i: int|
            0 <= i < n && goes_by(#[trigger] v[i], id),
    decreases n,
{
    if n > 0 {
        lemma_idents(v, n - 1, id);
        let a = edit::idents(v, n - 1);
        let b = edit::idents(v, n);
        assert(edit::ident_of(v[n - 1]) == Some(id) <==> goes_by(v[n - 1], id));
        if a.contains(id) {
            let j = choose|j: int| 0 <= j < a.len() && a[j] == id;
            assert(b[j] == id);
            let i = choose|i: int| 0 <= i < n - 1 && goes_by(#[trigger] v[i], id);
            assert(0 <= i < n && goes_by(v[i], id));
        }
        if b.contains(id) && !a.contains(id) {
            let j = choose|j: int| 0 <= j < b.len() && b[j] == id;
            if j < a.len() {
                assert(a[j] == id);
            }
            assert(goes_by(v[n - 1], id));
        }
        if goes_by(v[n - 1], id) {
            assert(b == a.push(id));
            assert(b[a.len() as int] == id);
        }
    }
}

proof fn lemma_known(d: Entries, n: int, id: Seq<char>)
    requires
        0 <= n <= 7,
    ensures
        edit::known_ids(d, n).contains(id) <==> exists|k: int, i: int|
            0 <= k < n && 0 <= i < list_at(d, list_key(k)).len() && goes_by(
                #[trigger] list_at(d, list_key(k))[i],
                id,
            ),
    decreases n,
{
    if n > 0 {
        lemma_known(d, n - 1, id);
        let v = list_at(d, list_key(n - 1));
        lemma_idents(v, v.len() as int, id);
        let a = edit::known_ids(d, n - 1);
        let b = edit::idents(v, v.len() as int);
        let r = edit::known_ids(d, n);
        assert(r == a + b);
        if a.contains(id) {
            let j = choose|j: int| 0 <= j < a.len() && a[j] == id;
            assert(r[j] == id);
        }
        if b.contains(id) {
            let j = choose|j: int| 0 <= j < b.len() && b[j] == id;
            assert(r[a.len() + j] == id);
            let i = choose|i: int| 0 <= i < v.len() && goes_by(#[trigger] v[i], id);
            assert(goes_by(list_at(d, list_key(n - 1))[i], id));
        }
        if r.contains(id) {
            let j = choose|j: int| 0 <= j < r.len() && r[j] == id;
            if j < a.len() {
                assert(a[j] == id);
            } else {
                assert(b[j - a.len()] == id);
            }
        }
    }
}

proof fn lemma_notes(gone: Seq<Seq<char>>, all: Seq<Seq<char>>, n: int)
    requires
        0 <= n <= gone.len(),
    ensures
        forall|i: int|
            0 <= i < n && !all.contains(#[trigger] gone[i]) ==> edit::removal_notes(
                gone,
                all,
                n,
            ).contains(edit::unknown_note(gone[i])),
        (forall|i: int| 0 <= i < n ==> all.contains(#[trigger] gone[i])) ==> edit::removal_notes(
            gone,
            all,
            n,
        ).len() == 0,
    decreases n,
{
    if n > 0 {
        lemma_notes(gone, all, n - 1);
        let a = edit::removal_notes(gone, all, n - 1);
        let b = edit::removal_notes(gone, all, n);
        assert forall|i: int| 0 <= i < n && !all.contains(#[trigger] gone[i]) implies b.contains(
            edit::unknown_note(gone[i]),
        ) by {
            let t = edit::unknown_note(gone[i]);
            if i < n - 1 {
                let j = choose|j: int| 0 <= j < a.len() && a[j] == t;
                assert(b[j] == t);
            } else {
                assert(b[a.len() as int] == t);
            }
        }
    }
}

proof fn lemma_still_said(a: Seq<Seq<char>>, b: Seq<Seq<char>>, t: Seq<char>)
    requires
        said(a, b),
        a.contains(t),
    ensures
        b.contains(t),
{
    let i = choose|i: int| 0 <= i < a.len() && a[i] == t;
    assert(b[i] == t);
}

/// An edit that removes an identifier that no item goes by says so.
pub proof fn a_removal_of_nothing_is_reported(d: Entries, p: Entries, id: Seq<char>)
    requires
        removes(p, id),
        !known(d, id),
    ensures
        edit::patched(JsonV::Obj(d), JsonV::Obj(p)).errors.contains(
            "note: remove: id '"@ + id
                + "' does not exist in the original design (patches are always relative to the ORIGINAL; ids you added in an earlier patch do not exist) - ignored"@,
        ),
{
    let gone = edit::removals(p);
    let all = edit::known_ids(d, 7);
    lemma_removals(p, id);
    lemma_known(d, 7, id);
    lemma_notes(gone, all, gone.len() as int);
    let i = choose|i: int| 0 <= i < gone.len() && gone[i] == id;
    assert(!all.contains(gone[i]));
    let e0 = EditV {
        d: edit::removed(d, gone, 7),
        errors: edit::removal_notes(gone, all, gone.len() as int),
    };
    let ups = updates_of(p);
    let t = edit::unknown_note(id);
    assert(e0.errors.contains(t));
    if ups.len() > 0 {
        let e1 = edit::updated(e0, gone, ups, 1);
        assert(e1 == edit::updated_one(edit::updated(e0, gone, ups, 0), gone, ups[0].0, ups[0].1));
        assert(said(e0.errors, e1.errors));
        lemma_updates_say(e0, gone, ups, ups.len() as int, 0);
        lemma_said(e0.errors, e1.errors, midway(d, p).errors);
    }
    lemma_added(midway(d, p), edit::object_at(p, "add"@), 7);
    lemma_late(d, p);
    assert(midway(d, p).errors.contains(t)) by {
        if ups.len() > 0 {
            lemma_still_said(e0.errors, midway(d, p).errors, t);
        }
    }
    lemma_still_said(midway(d, p).errors, late(d, p).errors, t);
}

proof fn lemma_quiet_updates(d: Entries, p: Entries, ups: Entries, n: int, e: EditV)
    requires
        0 <= n <= ups.len(),
        order_map::keys_once(ups),
        e.d == edit::removed(d, edit::removals(p), 7),
        forall|m: int| 0 <= m < ups.len() ==> #[trigger] good_update(d, p, ups, m),
    ensures
        edit::updated(e, edit::removals(p), ups, n).errors == e.errors,
    decreases n,
{
    if n > 0 {
        lemma_quiet_updates(d, p, ups, n - 1, e);
        lemma_updated(d, p, ups, n - 1, e);
        let s = edit::updated(e, edit::removals(p), ups, n - 1);
        let (id, ch) = ups[n - 1];
        assert(good_update(d, p, ups, n - 1));
        lemma_removals(p, id);
        lemma_found(d, p, ups, n - 1, s.d, id);
        let (k, i) = choose|k: int, i: int|
            0 <= k < 7 && 0 <= i < left(d, p, k).len() && goes_by(#[trigger] left(d, p, k)[i], id);
        assert(goes_by(left(d, p, k)[i], id));
        assert(edit::find_list(s.d, id, 0) < 7);
    }
}

/// Whether an update can be made: it states an object for an identifier that an item goes by and
/// that is not removed.
pub open spec fn good_update(d: Entries, p: Entries, ups: Entries, m: int) -> bool {
    &&& !removes(p, ups[m].0)
    &&& ups[m].1 is Obj
    &&& exists|k: int, i: int|
        0 <= k < 7 && 0 <= i < left(d, p, k).len() && goes_by(
            #[trigger] left(d, p, k)[i],
            ups[m].0,
        )
}

proof fn lemma_quiet_parts(e: EditV, v: Seq<JsonV>, n: int)
    requires
        0 <= n <= v.len(),
        forall|j: int|
            0 <= j < v.len() ==> !in_use(list_at(e.d, list_key(0)), #[trigger] v[j]) && !in_use(
                v.take(j),
                v[j],
            ),
    ensures
        edit::added_items(e, 0, list_at(e.d, list_key(0)).len() as int, v, n).errors == e.errors,
    decreases n,
{
    if n > 0 {
        lemma_quiet_parts(e, v, n - 1);
        lemma_added_items(e, 0, v, n - 1);
        let a = list_at(e.d, list_key(0));
        let s = edit::added_items(e, 0, a.len() as int, v, n - 1);
        let m = list_at(s.d, list_key(0));
        assert(list_key(0) == "parts"@);
        assert(extended(0, a.len() as int, v, n - 1, a, m));
        if edit::clashes(m, v[n - 1]) {
            let id = edit::id_value(v[n - 1]);
            let i = choose|i: int| 0 <= i < m.len() && edit::has_id(#[trigger] m[i], id);
            if i < a.len() {
                assert(m[i] == a[i]);
                assert(in_use(a, v[n - 1]));
            } else {
                let w = v.take(n - 1);
                assert(w.contains(m[i]));
                let j = choose|j: int| 0 <= j < w.len() && w[j] == m[i];
                assert(edit::has_id(w[j], id));
                assert(in_use(v.take(n - 1), v[n - 1]));
            }
            assert(!in_use(a, v[n - 1]) && !in_use(v.take(n - 1), v[n - 1]));
        }
    }
}

proof fn lemma_quiet_items(e: EditV, k: int, start: int, v: Seq<JsonV>, n: int)
    requires
        1 <= k < 7,
        0 <= n <= v.len(),
    ensures
        edit::added_items(e, k, start, v, n).errors == e.errors,
    decreases n,
{
    if n > 0 {
        lemma_quiet_items(e, k, start, v, n - 1);
    }
}

proof fn lemma_quiet_added(e: EditV, add: Entries, n: int)
    requires
        1 <= n <= 7,
        ({
            let v = list_at(add, list_key(0));
            forall|j: int|
                0 <= j < v.len() ==> !in_use(list_at(e.d, list_key(0)), #[trigger] v[j]) && !in_use(
                    v.take(j),
                    v[j],
                )
        }),
    ensures
        edit::added(e, e.d, add, n).errors == e.errors,
    decreases n,
{
    let s = edit::added(e, e.d, add, n - 1);
    let v = list_at(add, list_key(n - 1));
    if n == 1 {
        assert(s == e);
        lemma_quiet_parts(e, v, v.len() as int);
    } else {
        lemma_quiet_added(e, add, n - 1);
        lemma_quiet_items(
            s,
            n - 1,
            list_at(e.d, list_key(n - 1)).len() as int,
            v,
            v.len() as int,
        );
    }
}

/// An edit finds nothing wrong that removes identifiers that items go by, updates others that
/// items go by with objects, and adds parts under references that are not in use.
pub proof fn an_edit_without_faults_is_not_blamed(d: Entries, p: Entries)
    requires
        order_map::keys_once(updates_of(p)),
        forall|id: Seq<char>| #[trigger] removes(p, id) ==> known(d, id),
        forall|m: int|
            0 <= m < updates_of(p).len() ==> #[trigger] good_update(d, p, updates_of(p), m),
        forall|j: int|
            0 <= j < additions_of(p, 0).len() ==> !in_use(
                left(d, p, 0),
                #[trigger] additions_of(p, 0)[j],
            ) && !in_use(additions_of(p, 0).take(j), additions_of(p, 0)[j]),
    ensures
        edit::patched(JsonV::Obj(d), JsonV::Obj(p)).errors.len() == 0,
{
    let gone = edit::removals(p);
    let all = edit::known_ids(d, 7);
    let e0 = EditV {
        d: edit::removed(d, gone, 7),
        errors: edit::removal_notes(gone, all, gone.len() as int),
    };
    assert forall|i: int| 0 <= i < gone.len() implies all.contains(#[trigger] gone[i]) by {
        assert(gone.contains(gone[i]));
        lemma_removals(p, gone[i]);
        lemma_known(d, 7, gone[i]);
    }
    lemma_notes(gone, all, gone.len() as int);
    let ups = updates_of(p);
    lemma_quiet_updates(d, p, ups, ups.len() as int, e0);
    let v = additions_of(p, 0);
    assert forall|j: int| 0 <= j < v.len() implies !in_use(
        list_at(midway(d, p).d, list_key(0)),
        #[trigger] v[j],
    ) && !in_use(v.take(j), v[j]) by {
        lemma_in_use(d, p, v[j]);
    }
    lemma_quiet_added(midway(d, p), edit::object_at(p, "add"@), 7);
    lemma_late(d, p);
}

} // verus!
