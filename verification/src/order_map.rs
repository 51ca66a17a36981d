//! An insertion-ordered map with string keys.
use crate::text;
use vstd::prelude::*;

verus! {

/// The first position from `i` on at which `k` stands, or the length where it does not.
pub open spec fn first_from(keys: Seq<Seq<char>>, k: Seq<char>, i: int) -> int
    decreases keys.len() - i,
{
    if i < 0 || i >= keys.len() {
        keys.len() as int
    } else if keys[i] == k {
        i
    } else {
        first_from(keys, k, i + 1)
    }
}

/// The first position at which `k` stands, or the length where it does not.
pub open spec fn first_of(keys: Seq<Seq<char>>, k: Seq<char>) -> int {
    first_from(keys, k, 0)
}

pub proof fn lemma_first_from(keys: Seq<Seq<char>>, k: Seq<char>, i: int)
    requires
        0 <= i <= keys.len(),
    ensures
        i <= first_from(keys, k, i) <= keys.len(),
        first_from(keys, k, i) < keys.len() ==> keys[first_from(keys, k, i)] == k,
        forall|j: int| i <= j < first_from(keys, k, i) ==> keys[j] != k,
    decreases keys.len() - i,
{
    if i < keys.len() && keys[i] != k {
        lemma_first_from(keys, k, i + 1);
    }
}

/// `first_of` finds a key exactly where it occurs.
pub proof fn lemma_first_of(keys: Seq<Seq<char>>, k: Seq<char>)
    ensures
        0 <= first_of(keys, k) <= keys.len(),
        first_of(keys, k) < keys.len() <==> keys.contains(k),
        first_of(keys, k) < keys.len() ==> keys[first_of(keys, k)] == k,
        forall|j: int| 0 <= j < first_of(keys, k) ==> keys[j] != k,
{
    lemma_first_from(keys, k, 0);
    if keys.contains(k) {
        let j = choose|j: int| 0 <= j < keys.len() && keys[j] == k;
        assert(keys[j] == k);
    }
}

/// A new key at the end leaves the position of every other key alone.
pub proof fn lemma_first_of_push(keys: Seq<Seq<char>>, n: Seq<char>, k: Seq<char>)
    ensures
        keys.contains(k) ==> first_of(keys.push(n), k) == first_of(keys, k),
        !keys.contains(k) && n == k ==> first_of(keys.push(n), k) == keys.len(),
        !keys.contains(k) && n != k ==> first_of(keys.push(n), k) == keys.len() + 1,
{
    lemma_first_of(keys, k);
    lemma_first_of(keys.push(n), k);
    let f = first_of(keys, k);
    let g = first_of(keys.push(n), k);
    if keys.contains(k) {
        assert(keys.push(n)[f] == k);
        if g < f {
            assert(keys.push(n)[g] == keys[g]);
        }
    } else {
        assert(keys.push(n)[keys.len() as int] == n);
        if g < keys.len() {
            assert(keys.push(n)[g] == keys[g]);
        }
    }
}

/// Keys in the order of their first insertion, each with its value.
#[derive(Clone, Debug)]
pub struct OrderMap<V> {
    pub keys: Vec<String>,
    pub vals: Vec<V>,
}

impl<V> OrderMap<V> {
    /// The keys, first insertion first.
    pub open spec fn names(&self) -> Seq<Seq<char>> {
        text::views(self.keys@)
    }

    /// One value per key, and no key twice.
    pub open spec fn wf(&self) -> bool {
        self.keys@.len() == self.vals@.len() && self.names().no_duplicates()
    }

    pub open spec fn has(&self, k: Seq<char>) -> bool {
        self.names().contains(k)
    }

    /// Position of a key.
    pub open spec fn at(&self, k: Seq<char>) -> int {
        first_of(self.names(), k)
    }

    pub open spec fn value(&self, k: Seq<char>) -> V {
        self.vals@[self.at(k)]
    }

    /// What the map holds for `k`.
    pub open spec fn found(&self, k: Seq<char>) -> Option<V> {
        if self.has(k) {
            Some(self.value(k))
        } else {
            None
        }
    }

    /// The names after `k` has been inserted.
    pub open spec fn names_with(&self, k: Seq<char>) -> Seq<Seq<char>> {
        if self.has(k) {
            self.names()
        } else {
            self.names().push(k)
        }
    }

    /// The values after `k` has been given the value `v`.
    pub open spec fn vals_with(&self, k: Seq<char>, v: V) -> Seq<V> {
        if self.has(k) {
            self.vals@.update(self.at(k), v)
        } else {
            self.vals@.push(v)
        }
    }

    /// An empty map.
    pub fn new() -> (r: Self)
        ensures
            r.wf(),
            r.names() == Seq::<Seq<char>>::empty(),
            r.vals@ == Seq::<V>::empty(),
    {
        let r = OrderMap { keys: Vec::new(), vals: Vec::new() };
        assert(r.names() =~= Seq::<Seq<char>>::empty());
        r
    }

    fn position(&self, k: &str) -> (r: Option<usize>)
        requires
            self.wf(),
        ensures
            match r {
                Some(i) => self.has(k@) && i == self.at(k@) && i < self.vals@.len(),
                None => !self.has(k@),
            },
    {
        let key = k.to_owned();
        proof {
            lemma_first_of(self.names(), k@);
        }
        let mut i: usize = 0;
        while i < self.keys.len()
            invariant
                i <= self.keys@.len(),
                key@ == k@,
                self.wf(),
                self.at(k@) == first_from(self.names(), k@, i as int),
                self.has(k@) <==> self.at(k@) < self.names().len(),
            decreases self.keys@.len() - i,
        {
            if self.keys[i] == key {
                return Some(i);
            }
            i += 1;
        }
        None
    }

    /// The value of a key.
    pub fn get(&self, k: &str) -> (r: Option<&V>)
        requires
            self.wf(),
        ensures
            match r {
                Some(v) => self.has(k@) && *v == self.value(k@),
                None => !self.has(k@),
            },
    {
        match self.position(k) {
            Some(i) => Some(&self.vals[i]),
            None => None,
        }
    }

    /// The value of a key, to be changed in place.
    pub fn get_mut(&mut self, k: &str) -> (r: Option<&mut V>)
        requires
            old(self).wf(),
        ensures
            final(self).wf(),
            final(self).keys@ == old(self).keys@,
            match r {
                Some(v) => old(self).has(k@) && *v == old(self).value(k@) && final(self).vals@
                    == old(self).vals@.update(old(self).at(k@), *final(v)),
                None => !old(self).has(k@) && final(self).vals@ == old(self).vals@,
            },
    {
        match self.position(k) {
            Some(i) => Some(&mut self.vals[i]),
            None => None,
        }
    }

    pub fn contains_key(&self, k: &str) -> (r: bool)
        requires
            self.wf(),
        ensures
            r == self.has(k@),
    {
        self.position(k).is_some()
    }

    /// Gives `k` the value `v`: in place where the key is known, at the end where it is new.
    pub fn insert(&mut self, k: &str, v: V)
        requires
            old(self).wf(),
        ensures
            final(self).wf(),
            final(self).names() == old(self).names_with(k@),
            final(self).vals@ == old(self).vals_with(k@, v),
    {
        match self.position(k) {
            Some(i) => {
                self.vals.set(i, v);
            },
            None => {
                let ghost n0 = self.names();
                self.keys.push(k.to_owned());
                self.vals.push(v);
                proof {
                    assert(self.names() =~= n0.push(k@));
                    assert forall|a: int, b: int|
                        0 <= a < b < self.names().len() implies self.names()[a]
                        != self.names()[b] by {
                        if b == n0.len() {
                            assert(n0.contains(n0[a]));
                        }
                    }
                }
            },
        }
    }

    /// The value of `k`, after giving it `default` where the key is new.
    pub fn entry_or(&mut self, k: &str, default: V) -> (r: &mut V)
        requires
            old(self).wf(),
        ensures
            final(self).wf(),
            final(self).names() == old(self).names_with(k@),
            old(self).has(k@) ==> *r == old(self).value(k@),
            !old(self).has(k@) ==> *r == default,
            final(self).vals@ == old(self).vals_with(k@, *final(r)),
    {
        let at: usize = match self.position(k) {
            Some(i) => i,
            None => {
                let n: usize = self.keys.len();
                self.insert(k, default);
                n
            },
        };
        &mut self.vals[at]
    }

    pub fn len(&self) -> (n: usize)
        requires
            self.wf(),
        ensures
            n == self.names().len(),
    {
        self.keys.len()
    }

    pub fn is_empty(&self) -> (r: bool)
        requires
            self.wf(),
        ensures
            r == (self.names().len() == 0),
    {
        self.keys.len() == 0
    }

    /// The keys, first insertion first.
    pub fn keys(&self) -> (r: &Vec<String>)
        ensures
            text::views(r@) == self.names(),
    {
        &self.keys
    }

    /// The values, in the order of their keys.
    pub fn values(&self) -> (r: &Vec<V>)
        ensures
            r@ == self.vals@,
    {
        &self.vals
    }

    /// The `i`-th key with its value.
    pub fn entry_at(&self, i: usize) -> (r: (&String, &V))
        requires
            self.wf(),
            i < self.names().len(),
        ensures
            r.0@ == self.names()[i as int],
            *r.1 == self.vals@[i as int],
            self.found(r.0@) == Some(*r.1),
    {
        proof {
            lemma_first_of(self.names(), self.names()[i as int]);
            assert(self.names().contains(self.names()[i as int]));
        }
        (&self.keys[i], &self.vals[i])
    }
}

/// After an insertion the key has the new value; every other key keeps what it had.
pub proof fn insert_then_get<V>(before: OrderMap<V>, after: OrderMap<V>, k: Seq<char>, v: V)
    requires
        before.wf(),
        after.wf(),
        after.names() == before.names_with(k),
        after.vals@ == before.vals_with(k, v),
    ensures
        after.found(k) == Some(v),
        forall|q: Seq<char>| q != k ==> #[trigger] after.found(q) == before.found(q),
{
    lemma_first_of(before.names(), k);
    lemma_first_of(after.names(), k);
    if !before.has(k) {
        assert(after.names()[before.names().len() as int] == k);
    }
    assert forall|q: Seq<char>| q != k implies #[trigger] after.found(q) == before.found(q) by {
        lemma_first_of(before.names(), q);
        lemma_first_of(after.names(), q);
        if !before.has(k) {
            lemma_first_of_push(before.names(), k, q);
        }
    }
}

/// An insertion never moves a key: the earlier keys keep their places.
pub proof fn insert_keeps_order<V>(before: OrderMap<V>, after: OrderMap<V>, k: Seq<char>, v: V)
    requires
        before.wf(),
        after.names() == before.names_with(k),
        after.vals@ == before.vals_with(k, v),
    ensures
        forall|i: int| 0 <= i < before.names().len() ==> after.names()[i] == before.names()[i],
{
}

/// The first position from `i` on of an entry with key `k`, or the length.
pub open spec fn seek<V>(m: Seq<(Seq<char>, V)>, k: Seq<char>, i: int) -> int
    decreases m.len() - i,
{
    if i < 0 || i >= m.len() {
        m.len() as int
    } else if m[i].0 == k {
        i
    } else {
        seek(m, k, i + 1)
    }
}

/// What a list of entries holds for `k`: the first entry with that key.
pub open spec fn look<V>(m: Seq<(Seq<char>, V)>, k: Seq<char>) -> Option<V> {
    let i = seek(m, k, 0);
    if i < m.len() {
        Some(m[i].1)
    } else {
        None
    }
}

/// The entries after `k` has been given the value `v`: in place where the key is known, at the end
/// where it is new.
pub open spec fn put<V>(m: Seq<(Seq<char>, V)>, k: Seq<char>, v: V) -> Seq<(Seq<char>, V)> {
    let i = seek(m, k, 0);
    if i < m.len() {
        m.update(i, (k, v))
    } else {
        m.push((k, v))
    }
}

pub proof fn lemma_seek<V>(m: Seq<(Seq<char>, V)>, k: Seq<char>, i: int)
    requires
        0 <= i <= m.len(),
    ensures
        i <= seek(m, k, i) <= m.len(),
        seek(m, k, i) < m.len() ==> m[seek(m, k, i)].0 == k,
        forall|j: int| i <= j < seek(m, k, i) ==> (#[trigger] m[j]).0 != k,
    decreases m.len() - i,
{
    if i < m.len() && m[i].0 != k {
        lemma_seek(m, k, i + 1);
    }
}

/// Whether no key has two entries.
pub open spec fn keys_once<V>(m: Seq<(Seq<char>, V)>) -> bool {
    forall|i: int, j: int| 0 <= i < j < m.len() ==> (#[trigger] m[i]).0 != (#[trigger] m[j]).0
}

/// Giving a key a value leaves each key with one entry.
pub proof fn putting_keeps_keys_once<V>(m: Seq<(Seq<char>, V)>, k: Seq<char>, v: V)
    requires
        keys_once(m),
    ensures
        keys_once(put(m, k, v)),
{
    lemma_seek(m, k, 0);
    let r = put(m, k, v);
    let s = seek(m, k, 0);
    assert forall|i: int, j: int| 0 <= i < j < r.len() implies (#[trigger] r[i]).0 != (
    #[trigger] r[j]).0 by {
        if s < m.len() {
            assert(r[i].0 == m[i].0 && r[j].0 == m[j].0);
        } else if j < m.len() {
            assert(r[i] == m[i] && r[j] == m[j]);
        } else {
            assert(r[i] == m[i]);
        }
    }
}

/// After `put` the key has the new value; every other key keeps what it had.
pub proof fn put_then_look<V>(m: Seq<(Seq<char>, V)>, k: Seq<char>, v: V)
    ensures
        look(put(m, k, v), k) == Some(v),
        forall|q: Seq<char>| q != k ==> #[trigger] look(put(m, k, v), q) == look(m, q),
{
    let n = put(m, k, v);
    lemma_seek(m, k, 0);
    lemma_seek(n, k, 0);
    let a = seek(m, k, 0);
    let b = seek(n, k, 0);
    assert(n[a] == (k, v));
    if b < a {
        assert(m[b].0 != k);
    }
    assert forall|q: Seq<char>| q != k implies #[trigger] look(n, q) == look(m, q) by {
        lemma_seek(m, q, 0);
        lemma_seek(n, q, 0);
        let c = seek(m, q, 0);
        let d = seek(n, q, 0);
        if c < m.len() {
            assert(n[c] == m[c]);
            if d < c {
                assert(m[d].0 != q);
                assert(n[d].0 == q);
            }
            assert(d <= c);
        } else if d < n.len() {
            assert(n[d].0 == q);
            if d < m.len() {
                assert(m[d].0 != q);
            }
        }
    }
}

proof fn lemma_seek_first<V>(m: Seq<(Seq<char>, V)>, names: Seq<Seq<char>>, k: Seq<char>, i: int)
    requires
        names == Seq::new(m.len(), |j: int| m[j].0),
        0 <= i <= m.len(),
    ensures
        seek(m, k, i) == first_from(names, k, i),
    decreases m.len() - i,
{
    if i < m.len() && m[i].0 != k {
        lemma_seek_first(m, names, k, i + 1);
    }
}

/// The entries of a map from texts to texts.
pub open spec fn text_pairs(m: OrderMap<String>) -> Seq<(Seq<char>, Seq<char>)> {
    Seq::new(m.vals@.len(), |i: int| (m.names()[i], m.vals@[i]@))
}

/// The entries of a map to plain values.
pub open spec fn plain_pairs<V>(m: OrderMap<V>) -> Seq<(Seq<char>, V)> {
    Seq::new(m.vals@.len(), |i: int| (m.names()[i], m.vals@[i]))
}

/// The entries of a map to lists.
pub open spec fn list_pairs<T>(m: OrderMap<Vec<T>>) -> Seq<(Seq<char>, Seq<T>)> {
    Seq::new(m.vals@.len(), |i: int| (m.names()[i], m.vals@[i]@))
}

pub proof fn lemma_plain_found<V>(m: OrderMap<V>, k: Seq<char>)
    requires
        m.wf(),
    ensures
        m.found(k) == look(plain_pairs(m), k),
{
    lemma_first_of(m.names(), k);
    assert(m.names() =~= Seq::new(plain_pairs(m).len(), |j: int| plain_pairs(m)[j].0));
    lemma_seek_first(plain_pairs(m), m.names(), k, 0);
}

pub proof fn lemma_list_found<T>(m: OrderMap<Vec<T>>, k: Seq<char>)
    requires
        m.wf(),
    ensures
        m.has(k) == (look(list_pairs(m), k) is Some),
        m.has(k) ==> look(list_pairs(m), k) == Some(m.value(k)@),
        m.has(k) ==> 0 <= m.at(k) < m.vals@.len(),
{
    lemma_first_of(m.names(), k);
    assert(m.names() =~= Seq::new(list_pairs(m).len(), |j: int| list_pairs(m)[j].0));
    lemma_seek_first(list_pairs(m), m.names(), k, 0);
}

/// Inserting into a map of texts is `put` on its entries.
pub proof fn lemma_text_put(before: OrderMap<String>, after: OrderMap<String>, k: Seq<char>, v: String)
    requires
        before.wf(),
        after.wf(),
        after.names() == before.names_with(k),
        after.vals@ == before.vals_with(k, v),
    ensures
        text_pairs(after) == put(text_pairs(before), k, v@),
{
    lemma_first_of(before.names(), k);
    assert(before.names() =~= Seq::new(text_pairs(before).len(), |j: int| text_pairs(before)[j].0));
    lemma_seek_first(text_pairs(before), before.names(), k, 0);
    assert(text_pairs(after) =~= put(text_pairs(before), k, v@));
}

pub proof fn lemma_plain_put<V>(before: OrderMap<V>, after: OrderMap<V>, k: Seq<char>, v: V)
    requires
        before.wf(),
        after.wf(),
        after.names() == before.names_with(k),
        after.vals@ == before.vals_with(k, v),
    ensures
        plain_pairs(after) == put(plain_pairs(before), k, v),
{
    lemma_first_of(before.names(), k);
    assert(before.names() =~= Seq::new(
        plain_pairs(before).len(),
        |j: int| plain_pairs(before)[j].0,
    ));
    lemma_seek_first(plain_pairs(before), before.names(), k, 0);
    assert(plain_pairs(after) =~= put(plain_pairs(before), k, v));
}

pub proof fn lemma_list_put<T>(before: OrderMap<Vec<T>>, after: OrderMap<Vec<T>>, k: Seq<char>, v: Vec<T>)
    requires
        before.wf(),
        after.wf(),
        after.names() == before.names_with(k),
        after.vals@ == before.vals_with(k, v),
    ensures
        list_pairs(after) == put(list_pairs(before), k, v@),
{
    lemma_first_of(before.names(), k);
    assert(before.names() =~= Seq::new(list_pairs(before).len(), |j: int| list_pairs(before)[j].0));
    lemma_seek_first(list_pairs(before), before.names(), k, 0);
    assert(list_pairs(after) =~= put(list_pairs(before), k, v@));
}

/// The list of `k` (none counts as empty) with one item more.
pub open spec fn push_to<T>(m: Seq<(Seq<char>, Seq<T>)>, k: Seq<char>, x: T) -> Seq<
    (Seq<char>, Seq<T>),
> {
    put(
        m,
        k,
        match look(m, k) {
            Some(l) => l.push(x),
            None => seq![x],
        },
    )
}

/// Appends an item to the list of `k`, which starts empty where the key is new.
pub fn push_into<T>(m: &mut OrderMap<Vec<T>>, k: &str, x: T)
    requires
        old(m).wf(),
    ensures
        final(m).wf(),
        list_pairs(*final(m)) == push_to(list_pairs(*old(m)), k@, x),
{
    let ghost m0 = *m;
    proof {
        lemma_list_found(m0, k@);
    }
    let e: &mut Vec<T> = m.entry_or(k, Vec::new());
    let ghost e0 = e@;
    e.push(x);
    let ghost e1 = *e;
    proof {
        assert(m0.has(k@) ==> e0 == m0.value(k@)@);
        assert(!m0.has(k@) ==> e1@ =~= seq![x]);
        lemma_list_put(m0, *m, k@, e1);
    }
}

} // verus!
