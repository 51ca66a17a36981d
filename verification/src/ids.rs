//! Identifiers derived from content, never from chance.
use crate::text;
use crate::text::concat3;
use vstd::prelude::*;

verus! {

/// The namespace of all identifiers. Another value would change every identifier ever written.
pub const NAMESPACE: u128 = 0x6f6a_4e2c_8b1d_5a3f_9c0e_1d2b_3a4c_5d6e;

/// Whether four hyphens stand among hexadecimal digits in lower case.
#[verifier::opaque]
pub open spec fn hex_groups(s: Seq<char>) -> bool {
    forall|i: int|
        0 <= i < 36 ==> if i == 8 || i == 13 || i == 18 || i == 23 {
            #[trigger] s[i] == '-'
        } else {
            ('0' <= s[i] && s[i] <= '9') || ('a' <= s[i] && s[i] <= 'f')
        }
}

/// Whether a text has the form of an identifier: 36 characters, four hyphens among hexadecimal
/// digits in lower case.
pub open spec fn is_uuid(s: Seq<char>) -> bool {
    s.len() == 36 && hex_groups(s)
}

/// What `uuid::Uuid::new_v5` makes of a namespace and a name, in its hyphenated form.
pub uninterp spec fn name_uuid(namespace: u128, name: Seq<char>) -> Seq<char>;

/// `uuid::Uuid::new_v5` with `as_hyphenated`: the identifier of a name in a namespace is a function
/// of the two alone, and is written in lower case with four hyphens.
#[verifier::external_body]
fn uuid_of_name(namespace: u128, name: &str) -> (r: String)
    ensures
        r@ == name_uuid(namespace, name@),
        is_uuid(r@),
{
    uuid::Uuid::new_v5(&uuid::Uuid::from_u128(namespace), name.as_bytes())
        .as_hyphenated()
        .to_string()
}

/// A character of a kind inside a name: a colon and a backslash stand behind a backslash.
pub open spec fn kept_apart(c: char) -> Seq<char> {
    if c == ':' || c == '\\' {
        seq!['\\', c]
    } else {
        seq![c]
    }
}

/// A kind inside a name, so that it holds no bare colon.
pub open spec fn guarded(kind: Seq<char>) -> Seq<char>
    decreases kind.len(),
{
    if kind.len() == 0 {
        Seq::empty()
    } else {
        kept_apart(kind[0]) + guarded(kind.skip(1))
    }
}

/// The name of an entity: its kind and its key with the first bare colon between them.
pub open spec fn name_of(kind: Seq<char>, key: Seq<char>) -> Seq<char> {
    guarded(kind) + ":"@ + key
}

/// The identifier of an entity of a kind under a key.
pub open spec fn stable(kind: Seq<char>, key: Seq<char>) -> Seq<char> {
    name_uuid(NAMESPACE, name_of(kind, key))
}

fn guard(kind: &str) -> (r: String)
    ensures
        r@ == guarded(kind@),
{
    let v = text::chars_of(kind);
    let mut r = String::new();
    let mut i: usize = 0;
    assert(kind@.skip(0) =~= kind@);
    assert(r@ + guarded(kind@.skip(0)) =~= guarded(kind@));
    while i < v.len()
        invariant
            i <= v@.len(),
            v@ == kind@,
            r@ + guarded(kind@.skip(i as int)) == guarded(kind@),
        decreases v@.len() - i,
    {
        let c = v[i];
        let ghost r0 = r@;
        let ghost rest = kind@.skip(i as int);
        assert(rest[0] == c);
        assert(rest.skip(1) =~= kind@.skip(i + 1));
        if c == ':' || c == '\\' {
            r.push('\\');
        }
        r.push(c);
        assert(r@ =~= r0 + kept_apart(c));
        assert(r@ + guarded(kind@.skip(i + 1)) =~= r0 + (kept_apart(c) + guarded(
            kind@.skip(i + 1),
        )));
        i += 1;
    }
    assert(kind@.skip(i as int) =~= Seq::empty());
    assert(r@ + Seq::<char>::empty() =~= r@);
    r
}

/// The identifier of an entity of a kind under a key: the same for the same two, in every run.
/// Different kinds or keys have different names, so that only `uuid` decides whether two
/// identifiers can meet.
pub fn stable_uuid(kind: &str, key: &str) -> (r: String)
    ensures
        r@ == stable(kind@, key@),
        is_uuid(r@),
{
    let front = guard(kind);
    let name = concat3(front.as_str(), ":", key);
    uuid_of_name(NAMESPACE, name.as_str())
}

proof fn lemma_guarded_split(a: Seq<char>, b: Seq<char>, x: Seq<char>, y: Seq<char>)
    requires
        guarded(a) + seq![':'] + x == guarded(b) + seq![':'] + y,
    ensures
        a == b,
        x == y,
    decreases a.len(),
{
    let l = guarded(a) + seq![':'] + x;
    let r = guarded(b) + seq![':'] + y;
    if a.len() == 0 {
        assert(l[0] == ':');
        if b.len() > 0 {
            assert(r[0] == kept_apart(b[0])[0]);
        }
        assert(a =~= b);
        assert(x =~= l.skip(1));
        assert(y =~= r.skip(1));
    } else if b.len() == 0 {
        assert(r[0] == ':');
        assert(l[0] == kept_apart(a[0])[0]);
    } else {
        let (p, q) = (kept_apart(a[0]), kept_apart(b[0]));
        assert(l[0] == p[0] && r[0] == q[0]);
        if p.len() == 2 {
            assert(l[1] == p[1]);
        }
        if q.len() == 2 {
            assert(r[1] == q[1]);
        }
        assert(a[0] == b[0]);
        assert(l.skip(p.len() as int) =~= guarded(a.skip(1)) + seq![':'] + x);
        assert(r.skip(p.len() as int) =~= guarded(b.skip(1)) + seq![':'] + y);
        lemma_guarded_split(a.skip(1), b.skip(1), x, y);
        assert(a =~= seq![a[0]] + a.skip(1));
        assert(b =~= seq![b[0]] + b.skip(1));
    }
}

/// Kind and key can be told back from a name: two entities that differ in one of them have
/// different names.
pub proof fn names_tell_kind_and_key(a: Seq<char>, x: Seq<char>, b: Seq<char>, y: Seq<char>)
    requires
        name_of(a, x) == name_of(b, y),
    ensures
        a == b,
        x == y,
{
    reveal_strlit(":");
    assert(":"@ =~= seq![':']);
    lemma_guarded_split(a, b, x, y);
}

} // verus!
