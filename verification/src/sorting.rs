//! Lexicographic ordering of character sequences and a verified sort for the
//! list points: the formatter orders stripped fragments alphabetically before
//! numbering them.

use vstd::prelude::*;
use crate::fragments::seq_views;

verus! {

/// Lexicographic order on character sequences, comparing by Unicode scalar
/// value: the order in which Rust's `str` values compare.
pub open spec fn lex_le(a: Seq<char>, b: Seq<char>) -> bool
    decreases a.len(),
{
    if a.len() == 0 {
        true
    } else if b.len() == 0 {
        false
    } else if a[0] != b[0] {
        a[0] < b[0]
    } else {
        lex_le(a.drop_first(), b.drop_first())
    }
}

pub proof fn lemma_lex_le_total(a: Seq<char>, b: Seq<char>)
    ensures
        lex_le(a, b) || lex_le(b, a),
    decreases a.len(),
{
    if a.len() > 0 && b.len() > 0 && a[0] == b[0] {
        lemma_lex_le_total(a.drop_first(), b.drop_first());
    }
}

pub proof fn lemma_lex_le_trans(a: Seq<char>, b: Seq<char>, c: Seq<char>)
    requires
        lex_le(a, b),
        lex_le(b, c),
    ensures
        lex_le(a, c),
    decreases a.len(),
{
    if a.len() > 0 {
        if a[0] == b[0] && b[0] == c[0] {
            lemma_lex_le_trans(a.drop_first(), b.drop_first(), c.drop_first());
        }
    }
}

pub proof fn lemma_lex_le_antisym(a: Seq<char>, b: Seq<char>)
    requires
        lex_le(a, b),
        lex_le(b, a),
    ensures
        a == b,
    decreases a.len(),
{
    if a.len() == 0 {
        assert(b.len() == 0);
        assert(a =~= b);
    } else {
        assert(b.len() > 0);
        assert(a[0] == b[0]);
        lemma_lex_le_antisym(a.drop_first(), b.drop_first());
        assert(a.len() == b.len());
        assert forall|i: int| 0 <= i < a.len() implies a[i] == b[i] by {
            if i > 0 {
                assert(a[i] == a.drop_first()[i - 1]);
                assert(b[i] == b.drop_first()[i - 1]);
            }
        }
        assert(a =~= b);
    }
}

/// `x` placed before the first element that is not `lex_le`-below it.
pub open spec fn insert_sorted(x: Seq<char>, s: Seq<Seq<char>>) -> Seq<Seq<char>>
    decreases s.len(),
{
    if s.len() == 0 {
        seq![x]
    } else if lex_le(s[0], x) {
        seq![s[0]] + insert_sorted(x, s.drop_first())
    } else {
        seq![x] + s
    }
}

/// Insertion sort of a fragment sequence under [`lex_le`].
pub open spec fn sort_frags(s: Seq<Seq<char>>) -> Seq<Seq<char>>
    decreases s.len(),
{
    if s.len() == 0 {
        s
    } else {
        insert_sorted(s[0], sort_frags(s.drop_first()))
    }
}

pub open spec fn sorted_lex(s: Seq<Seq<char>>) -> bool {
    forall|i: int, j: int| 0 <= i < j < s.len() ==> lex_le(s[i], s[j])
}

/// Where [`insert_sorted`] places its element.
pub open spec fn insert_pos(x: Seq<char>, s: Seq<Seq<char>>) -> int
    decreases s.len(),
{
    if s.len() == 0 {
        0
    } else if lex_le(s[0], x) {
        1 + insert_pos(x, s.drop_first())
    } else {
        0
    }
}

pub proof fn lemma_insert_sorted_is_insert(x: Seq<char>, s: Seq<Seq<char>>)
    ensures
        0 <= insert_pos(x, s) <= s.len(),
        insert_sorted(x, s) == s.insert(insert_pos(x, s), x),
    decreases s.len(),
{
    if s.len() == 0 {
        assert(insert_sorted(x, s) =~~= s.insert(0, x));
    } else if lex_le(s[0], x) {
        lemma_insert_sorted_is_insert(x, s.drop_first());
        assert(insert_sorted(x, s) =~~= s.insert(insert_pos(x, s), x));
    } else {
        assert(insert_sorted(x, s) =~~= s.insert(0, x));
    }
}

pub proof fn lemma_insert_sorted_multiset(x: Seq<char>, s: Seq<Seq<char>>)
    ensures
        insert_sorted(x, s).to_multiset() == s.to_multiset().insert(x),
{
    broadcast use vstd::seq_lib::to_multiset_insert;

    lemma_insert_sorted_is_insert(x, s);
    assert(s.insert(insert_pos(x, s), x).to_multiset() == s.to_multiset().insert(x));
}

pub proof fn lemma_insert_sorted_elems(x: Seq<char>, s: Seq<Seq<char>>)
    ensures
        forall|k: int|
            0 <= k < insert_sorted(x, s).len() ==> (#[trigger] insert_sorted(x, s)[k] == x
                || s.contains(insert_sorted(x, s)[k])),
        insert_sorted(x, s).len() == s.len() + 1,
    decreases s.len(),
{
    if s.len() == 0 {
    } else if lex_le(s[0], x) {
        lemma_insert_sorted_elems(x, s.drop_first());
        assert forall|k: int| 0 <= k < insert_sorted(x, s).len() implies (#[trigger] insert_sorted(
            x,
            s,
        )[k] == x || s.contains(insert_sorted(x, s)[k])) by {
            if k == 0 {
                assert(s.contains(s[0]));
            } else {
                let rest = insert_sorted(x, s.drop_first());
                assert(insert_sorted(x, s)[k] == rest[k - 1]);
                if rest[k - 1] != x {
                    let j = choose|j: int| 0 <= j < s.drop_first().len() && s.drop_first()[j]
                        == rest[k - 1];
                    assert(s[j + 1] == rest[k - 1]);
                }
            }
        }
    } else {
        assert forall|k: int| 0 <= k < insert_sorted(x, s).len() implies (#[trigger] insert_sorted(
            x,
            s,
        )[k] == x || s.contains(insert_sorted(x, s)[k])) by {
            if k > 0 {
                assert(insert_sorted(x, s)[k] == s[k - 1]);
            }
        }
    }
}

pub proof fn lemma_insert_sorted_sorted(x: Seq<char>, s: Seq<Seq<char>>)
    requires
        sorted_lex(s),
    ensures
        sorted_lex(insert_sorted(x, s)),
    decreases s.len(),
{
    if s.len() == 0 {
    } else if lex_le(s[0], x) {
        assert forall|i: int, j: int|
            0 <= i < j < s.drop_first().len() implies lex_le(s.drop_first()[i], s.drop_first()[j]) by {
            assert(s.drop_first()[i] == s[i + 1]);
            assert(s.drop_first()[j] == s[j + 1]);
        }
        lemma_insert_sorted_sorted(x, s.drop_first());
        lemma_insert_sorted_elems(x, s.drop_first());
        let r = insert_sorted(x, s);
        let rest = insert_sorted(x, s.drop_first());
        assert forall|i: int, j: int| 0 <= i < j < r.len() implies lex_le(r[i], r[j]) by {
            if i == 0 {
                assert(r[j] == rest[j - 1]);
                if rest[j - 1] == x {
                    assert(lex_le(s[0], x));
                } else {
                    let m = choose|m: int| 0 <= m < s.drop_first().len() && s.drop_first()[m]
                        == rest[j - 1];
                    assert(s[m + 1] == rest[j - 1]);
                    assert(lex_le(s[0], s[m + 1]));
                }
            } else {
                assert(r[i] == rest[i - 1]);
                assert(r[j] == rest[j - 1]);
            }
        }
    } else {
        lemma_lex_le_total(s[0], x);
        let r = insert_sorted(x, s);
        assert forall|i: int, j: int| 0 <= i < j < r.len() implies lex_le(r[i], r[j]) by {
            if i == 0 {
                assert(r[j] == s[j - 1]);
                if j == 1 {
                    assert(lex_le(x, s[0]));
                } else {
                    assert(lex_le(s[0], s[j - 1]));
                    lemma_lex_le_trans(x, s[0], s[j - 1]);
                }
            } else {
                assert(r[i] == s[i - 1]);
                assert(r[j] == s[j - 1]);
            }
        }
    }
}

/// The sort returns a `lex_le`-sorted rearrangement: same multiset of
/// fragments, ascending order.
pub proof fn lemma_sort_frags_ensures(s: Seq<Seq<char>>)
    ensures
        sorted_lex(sort_frags(s)),
        sort_frags(s).to_multiset() == s.to_multiset(),
    decreases s.len(),
{
    broadcast use vstd::seq_lib::to_multiset_insert;

    if s.len() == 0 {
    } else {
        lemma_sort_frags_ensures(s.drop_first());
        lemma_insert_sorted_sorted(s[0], sort_frags(s.drop_first()));
        lemma_insert_sorted_multiset(s[0], sort_frags(s.drop_first()));
        assert(s =~= s.drop_first().insert(0, s[0]));
        assert(s.drop_first().insert(0, s[0]).to_multiset() == s.drop_first().to_multiset().insert(
            s[0],
        ));
    }
}

proof fn lemma_insert_sorted_below_all(x: Seq<char>, s: Seq<Seq<char>>)
    requires
        forall|k: int| 0 <= k < s.len() ==> lex_le(x, #[trigger] s[k]),
    ensures
        insert_sorted(x, s) == seq![x] + s,
    decreases s.len(),
{
    if s.len() == 0 {
        assert(insert_sorted(x, s) =~~= seq![x] + s);
    } else if lex_le(s[0], x) {
        lemma_lex_le_antisym(s[0], x);
        assert forall|k: int| 0 <= k < s.drop_first().len() implies lex_le(
            x,
            #[trigger] s.drop_first()[k],
        ) by {
            assert(s.drop_first()[k] == s[k + 1]);
        }
        lemma_insert_sorted_below_all(x, s.drop_first());
        assert(insert_sorted(x, s) =~~= seq![x] + s);
    }
}

/// Sorting an already sorted sequence changes nothing.
pub proof fn lemma_sort_frags_of_sorted(s: Seq<Seq<char>>)
    requires
        sorted_lex(s),
    ensures
        sort_frags(s) == s,
    decreases s.len(),
{
    if s.len() > 0 {
        assert forall|i: int, j: int|
            0 <= i < j < s.drop_first().len() implies lex_le(
            s.drop_first()[i],
            s.drop_first()[j],
        ) by {
            assert(s.drop_first()[i] == s[i + 1]);
            assert(s.drop_first()[j] == s[j + 1]);
        }
        lemma_sort_frags_of_sorted(s.drop_first());
        assert forall|k: int| 0 <= k < s.drop_first().len() implies lex_le(
            s[0],
            #[trigger] s.drop_first()[k],
        ) by {
            assert(s.drop_first()[k] == s[k + 1]);
        }
        lemma_insert_sorted_below_all(s[0], s.drop_first());
        assert(sort_frags(s) =~~= s);
    }
}

pub proof fn lemma_insert_sorted_at(x: Seq<char>, s: Seq<Seq<char>>, j: int)
    requires
        0 <= j <= s.len(),
        forall|k: int| 0 <= k < j ==> lex_le(#[trigger] s[k], x),
        j < s.len() ==> !lex_le(s[j], x),
    ensures
        insert_sorted(x, s) == s.take(j) + seq![x] + s.skip(j),
    decreases j,
{
    if j == 0 {
        if s.len() == 0 {
            assert(insert_sorted(x, s) =~~= s.take(0) + seq![x] + s.skip(0));
        } else {
            assert(!lex_le(s[0], x));
            assert(insert_sorted(x, s) =~~= s.take(0) + seq![x] + s.skip(0));
        }
    } else {
        assert(lex_le(s[0], x));
        assert forall|k: int| 0 <= k < j - 1 implies lex_le(#[trigger] s.drop_first()[k], x) by {
            assert(s.drop_first()[k] == s[k + 1]);
        }
        assert(j - 1 < s.drop_first().len() ==> s.drop_first()[j - 1] == s[j]);
        lemma_insert_sorted_at(x, s.drop_first(), j - 1);
        assert(seq![s[0]] + s.drop_first().take(j - 1) =~~= s.take(j));
        assert(s.drop_first().skip(j - 1) =~~= s.skip(j));
        assert(insert_sorted(x, s) =~~= s.take(j) + seq![x] + s.skip(j));
    }
}

/// Lexicographic comparison of two strings, verified against [`lex_le`].
pub fn str_lex_le(a: &str, b: &str) -> (r: bool)
    ensures
        r == lex_le(a@, b@),
{
    let alen = a.unicode_len();
    let blen = b.unicode_len();
    let mut i: usize = 0;
    proof {
        assert(a@.skip(0) =~= a@);
        assert(b@.skip(0) =~= b@);
    }
    while i < alen && i < blen
        invariant
            i <= alen,
            i <= blen,
            alen == a@.len(),
            blen == b@.len(),
            lex_le(a@, b@) == lex_le(a@.skip(i as int), b@.skip(i as int)),
        decreases alen - i,
    {
        let ca = a.get_char(i);
        let cb = b.get_char(i);
        proof {
            assert(a@.skip(i as int)[0] == a@[i as int]);
            assert(b@.skip(i as int)[0] == b@[i as int]);
        }
        if ca != cb {
            return ca < cb;
        }
        proof {
            assert(a@.skip(i as int).drop_first() =~= a@.skip(i as int + 1));
            assert(b@.skip(i as int).drop_first() =~= b@.skip(i as int + 1));
        }
        i += 1;
    }
    proof {
        if i == alen {
            assert(a@.skip(i as int).len() == 0);
        } else {
            assert(b@.skip(i as int).len() == 0);
            assert(a@.skip(i as int).len() > 0);
        }
    }
    alen <= blen
}

/// Inserts `x` into an already processed prefix, keeping `lex_le` order.
fn insert_in_order(v: Vec<String>, x: String) -> (r: Vec<String>)
    ensures
        seq_views(r@) == insert_sorted(x@, seq_views(v@)),
{
    let mut v = v;
    let mut j: usize = 0;
    while j < v.len() && str_lex_le(v[j].as_str(), x.as_str())
        invariant
            j <= v@.len(),
            forall|k: int| 0 <= k < j ==> lex_le(#[trigger] seq_views(v@)[k], x@),
        decreases v@.len() - j,
    {
        proof {
            assert(seq_views(v@)[j as int] == v@[j as int]@);
        }
        j += 1;
    }
    proof {
        lemma_insert_sorted_at(x@, seq_views(v@), j as int);
    }
    let ghost old_views = seq_views(v@);
    let ghost xv = x@;
    v.insert(j, x);
    proof {
        assert(seq_views(v@) =~~= old_views.take(j as int) + seq![xv] + old_views.skip(j as int));
    }
    v
}

/// Sorts the fragments in ascending lexicographic order, verified against
/// [`sort_frags`].
pub fn sort_fragments(v: Vec<String>) -> (r: Vec<String>)
    ensures
        seq_views(r@) == sort_frags(seq_views(v@)),
{
    let ghost all = seq_views(v@);
    let mut src = v;
    let mut out: Vec<String> = Vec::new();
    proof {
        assert(all.skip(src@.len() as int) =~~= Seq::<Seq<char>>::empty());
        assert(seq_views(out@) =~~= Seq::<Seq<char>>::empty());
        assert(seq_views(src@) =~~= all.take(src@.len() as int));
    }
    while src.len() > 0
        invariant
            src@.len() <= all.len(),
            seq_views(src@) =~~= all.take(src@.len() as int),
            seq_views(out@) =~~= sort_frags(all.skip(src@.len() as int)),
        decreases src@.len(),
    {
        let ghost n = src@.len() as int;
        let ghost old_src = src@;
        let x = match src.pop() {
            Some(x) => x,
            None => {
                proof {
                    assert(false);
                }
                String::new()
            },
        };
        proof {
            assert(src@ =~= old_src.subrange(0, n - 1));
            assert(seq_views(old_src)[n - 1] == old_src[n - 1]@);
            assert(x@ == all[n - 1]);
            assert(seq_views(src@) =~~= all.take(n - 1));
        }
        out = insert_in_order(out, x);
        proof {
            let rest = all.skip(n);
            assert(all.skip(n - 1)[0] == all[n - 1]);
            assert(all.skip(n - 1).drop_first() =~= rest);
            assert(sort_frags(all.skip(n - 1)) == insert_sorted(all[n - 1], sort_frags(rest)));
            assert(seq_views(out@) =~~= sort_frags(all.skip(n - 1)));
        }
    }
    proof {
        assert(all.skip(0) =~= all);
        assert(seq_views(out@) =~~= sort_frags(all));
    }
    out
}

} // verus!
