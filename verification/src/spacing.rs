//! Words and the spaces between them.
use crate::geo;
use crate::readsym::spaced;
use crate::text;
use vstd::prelude::*;

verus! {

/// Whether a text is a word: not empty, and without white space.
pub open spec fn is_word(w: Seq<char>) -> bool {
    w.len() > 0 && forall|i: int| 0 <= i < w.len() ==> !text::is_blank(#[trigger] w[i])
}

pub open spec fn all_words(v: Seq<Seq<char>>) -> bool {
    forall|i: int| 0 <= i < v.len() ==> is_word(#[trigger] v[i])
}

/// What is cut at white space are words.
proof fn lemma_words(s: Seq<char>, i: int, cur: Seq<char>)
    requires
        0 <= i <= s.len(),
        cur.len() > 0 ==> is_word(cur),
    ensures
        all_words(geo::words_from(s, i, cur)),
        cur.len() > 0 ==> geo::words_from(s, i, cur).len() > 0,
    decreases s.len() - i,
{
    if i < s.len() {
        if text::is_blank(s[i]) {
            if cur.len() == 0 {
                lemma_words(s, i + 1, cur);
            } else {
                lemma_words(s, i + 1, Seq::empty());
            }
        } else {
            assert(is_word(cur.push(s[i])));
            lemma_words(s, i + 1, cur.push(s[i]));
        }
    }
}

/// Running over the rest of a word.
proof fn lemma_run(s: Seq<char>, i: int, j: int, cur: Seq<char>)
    requires
        0 <= i <= j <= s.len(),
        forall|k: int| i <= k < j ==> !text::is_blank(#[trigger] s[k]),
    ensures
        geo::words_from(s, i, cur) == geo::words_from(s, j, cur + s.subrange(i, j)),
    decreases j - i,
{
    if i < j {
        lemma_run(s, i + 1, j, cur.push(s[i]));
        assert(cur.push(s[i]) + s.subrange(i + 1, j) =~= cur + s.subrange(i, j));
    } else {
        assert(cur + s.subrange(i, j) =~= cur);
    }
}

/// Words before a space, and what comes behind it.
proof fn lemma_split(s: Seq<char>, i: int, j: int, cur: Seq<char>)
    requires
        0 <= i <= j < s.len(),
        text::is_blank(s[j]),
    ensures
        geo::words_from(s, i, cur) == geo::words_from(s.take(j), i, cur) + geo::words_from(
            s,
            j + 1,
            Seq::empty(),
        ),
    decreases j - i,
{
    let a = s.take(j);
    let rest = geo::words_from(s, j + 1, Seq::empty());
    if i < j {
        assert(a[i] == s[i]);
        if text::is_blank(s[i]) {
            if cur.len() == 0 {
                lemma_split(s, i + 1, j, cur);
            } else {
                lemma_split(s, i + 1, j, Seq::empty());
                assert(seq![cur] + (geo::words_from(a, i + 1, Seq::empty()) + rest) =~= (seq![cur]
                    + geo::words_from(a, i + 1, Seq::empty())) + rest);
            }
        } else {
            lemma_split(s, i + 1, j, cur.push(s[i]));
        }
    } else {
        let w = geo::words_from(a, i, cur);
        if cur.len() == 0 {
            assert(cur =~= Seq::empty());
            assert(w + rest =~= rest);
        } else {
            assert(w =~= seq![cur]);
        }
    }
}

/// Words that are joined by spaces are cut apart again.
proof fn lemma_joined(v: Seq<Seq<char>>)
    requires
        all_words(v),
    ensures
        geo::words_from(text::joined(v, " "@), 0, Seq::empty()) == v,
        v.len() > 0 ==> text::joined(v, " "@).len() > 0,
    decreases v.len(),
{
    reveal_strlit(" ");
    let s = text::joined(v, " "@);
    if v.len() == 0 {
        assert(geo::words_from(s, 0, Seq::empty()) =~= v);
    } else if v.len() == 1 {
        assert(is_word(v[0]));
        lemma_run(s, 0, s.len() as int, Seq::empty());
        assert(Seq::<char>::empty() + s.subrange(0, s.len() as int) =~= s);
        assert(geo::words_from(s, 0, Seq::empty()) =~= v);
    } else {
        let u = v.drop_last();
        assert forall|i: int| 0 <= i < u.len() implies is_word(#[trigger] u[i]) by {
            assert(u[i] == v[i]);
        }
        lemma_joined(u);
        let b = text::joined(u, " "@);
        let w = v.last();
        assert(is_word(w));
        let j = b.len() as int;
        assert(s == b + " "@ + w);
        assert(s[j] == ' ');
        assert(s.take(j) =~= b);
        lemma_split(s, 0, j, Seq::empty());
        assert forall|k: int| j + 1 <= k < s.len() implies !text::is_blank(#[trigger] s[k]) by {
            assert(s[k] == w[k - j - 1]);
        }
        lemma_run(s, j + 1, s.len() as int, Seq::empty());
        assert(Seq::<char>::empty() + s.subrange(j + 1, s.len() as int) =~= w);
        assert(geo::words_from(s, j + 1, Seq::empty()) =~= seq![w]);
        assert(u + seq![w] =~= v);
    }
}

/// Setting words one space apart twice is doing it once.
pub proof fn spacing_twice_is_spacing_once(j: Seq<char>)
    ensures
        spaced(spaced(j)) == spaced(j),
{
    lemma_words(j, 0, Seq::empty());
    lemma_joined(geo::words_from(j, 0, Seq::empty()));
}

/// A text that begins with a word has words.
pub proof fn lemma_has_words(j: Seq<char>)
    requires
        j.len() > 0,
        !text::is_blank(j[0]),
    ensures
        spaced(j).len() > 0,
{
    let c = Seq::<char>::empty().push(j[0]);
    assert(is_word(c));
    lemma_words(j, 1, c);
    lemma_joined(geo::words_from(j, 0, Seq::empty()));
}

/// The usual justification of a text is set as it should be.
pub proof fn lemma_usual()
    ensures
        spaced("left bottom"@) == "left bottom"@,
{
    reveal_strlit("left bottom");
    reveal_strlit(" ");
    let v: Seq<Seq<char>> = seq![seq!['l', 'e', 'f', 't'], seq!['b', 'o', 't', 't', 'o', 'm']];
    reveal_with_fuel(text::joined, 3);
    assert(v.drop_last() =~= seq![v[0]]);
    assert(text::joined(v, " "@) =~= "left bottom"@);
    assert(is_word(v[0]) && is_word(v[1]));
    lemma_joined(v);
}

} // verus!
