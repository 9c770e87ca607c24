//! Cutting raw model output into fragments: the text is split on sentence
//! terminators (newline, period, exclamation mark), each piece is trimmed,
//! and empty pieces are discarded.

use vstd::prelude::*;
use crate::chars::{is_term_char, is_space_char, term_char, space_char};

verus! {

/// The views of a sequence of owned strings.
pub open spec fn seq_views(v: Seq<String>) -> Seq<Seq<char>> {
    v.map_values(|s: String| s@)
}

pub proof fn lemma_seq_views_push(v: Seq<String>, t: String)
    ensures
        seq_views(v.push(t)) == seq_views(v).push(t@),
{
    assert(seq_views(v.push(t)) =~= seq_views(v).push(t@));
}

/// Leading whitespace removed.
pub open spec fn trim_start_spec(s: Seq<char>) -> Seq<char>
    decreases s.len(),
{
    if s.len() > 0 && is_space_char(s[0]) {
        trim_start_spec(s.drop_first())
    } else {
        s
    }
}

/// Trailing whitespace removed.
pub open spec fn trim_end_spec(s: Seq<char>) -> Seq<char>
    decreases s.len(),
{
    if s.len() > 0 && is_space_char(s.last()) {
        trim_end_spec(s.drop_last())
    } else {
        s
    }
}

/// Surrounding whitespace removed, as `str::trim` does.
pub open spec fn trim_spec(s: Seq<char>) -> Seq<char> {
    trim_end_spec(trim_start_spec(s))
}

/// The pieces of `s` between terminator characters, in order, empty pieces
/// included: the same pieces that `str::split` yields on the terminator set.
pub open spec fn split_terms(s: Seq<char>) -> Seq<Seq<char>>
    decreases s.len(),
{
    if s.len() == 0 {
        seq![Seq::<char>::empty()]
    } else if is_term_char(s[0]) {
        seq![Seq::<char>::empty()] + split_terms(s.drop_first())
    } else {
        let rest = split_terms(s.drop_first());
        seq![seq![s[0]] + rest[0]] + rest.drop_first()
    }
}

/// What one raw piece contributes to the fragment sequence: its trimmed text
/// if that is non-empty, nothing otherwise.
pub open spec fn frag_of(piece: Seq<char>) -> Seq<Seq<char>> {
    if trim_spec(piece).len() > 0 {
        seq![trim_spec(piece)]
    } else {
        Seq::<Seq<char>>::empty()
    }
}

pub open spec fn fragments_of_pieces(ps: Seq<Seq<char>>) -> Seq<Seq<char>>
    decreases ps.len(),
{
    if ps.len() == 0 {
        Seq::<Seq<char>>::empty()
    } else {
        frag_of(ps[0]) + fragments_of_pieces(ps.drop_first())
    }
}

/// The fragment sequence of `s`: split on terminators, trim each piece,
/// drop the empty ones.
pub open spec fn fragments(s: Seq<char>) -> Seq<Seq<char>> {
    fragments_of_pieces(split_terms(s))
}

pub proof fn lemma_split_terms_no_term(p: Seq<char>)
    requires
        forall|i: int| 0 <= i < p.len() ==> !is_term_char(p[i]),
    ensures
        split_terms(p) == seq![p],
    decreases p.len(),
{
    if p.len() == 0 {
        assert(p =~= Seq::<char>::empty());
        assert(split_terms(p) =~~= seq![p]);
    } else {
        lemma_split_terms_no_term(p.drop_first());
        assert(seq![p[0]] + p.drop_first() =~= p);
        assert(split_terms(p) =~~= seq![p]);
    }
}

pub proof fn lemma_split_terms_head(p: Seq<char>, t: char, rest: Seq<char>)
    requires
        forall|i: int| 0 <= i < p.len() ==> !is_term_char(p[i]),
        is_term_char(t),
    ensures
        split_terms(p + seq![t] + rest) == seq![p] + split_terms(rest),
    decreases p.len(),
{
    let s = p + seq![t] + rest;
    if p.len() == 0 {
        assert(s[0] == t);
        assert(s.drop_first() =~= rest);
        assert(p =~= Seq::<char>::empty());
        assert(split_terms(s) =~~= seq![p] + split_terms(rest));
    } else {
        assert(s[0] == p[0]);
        assert(s.drop_first() =~= p.drop_first() + seq![t] + rest);
        lemma_split_terms_head(p.drop_first(), t, rest);
        let r = split_terms(s.drop_first());
        assert(r == seq![p.drop_first()] + split_terms(rest));
        assert(r[0] == p.drop_first());
        assert(seq![s[0]] + r[0] =~= p);
        assert(r.drop_first() =~= split_terms(rest));
        assert(split_terms(s) =~~= seq![p] + split_terms(rest));
    }
}

pub proof fn lemma_fragments_pieces_concat(a: Seq<Seq<char>>, b: Seq<Seq<char>>)
    ensures
        fragments_of_pieces(a + b) == fragments_of_pieces(a) + fragments_of_pieces(b),
    decreases a.len(),
{
    if a.len() == 0 {
        assert(a + b =~= b);
        assert(fragments_of_pieces(a) + fragments_of_pieces(b) =~~= fragments_of_pieces(b));
    } else {
        assert((a + b).drop_first() =~= a.drop_first() + b);
        assert((a + b)[0] == a[0]);
        lemma_fragments_pieces_concat(a.drop_first(), b);
        assert(fragments_of_pieces(a + b) =~~= fragments_of_pieces(a) + fragments_of_pieces(b));
    }
}

pub proof fn lemma_fragments_single_piece(p: Seq<char>)
    ensures
        fragments_of_pieces(seq![p]) == frag_of(p),
{
    let single = seq![p];
    assert(single[0] == p);
    assert(single.drop_first() =~~= Seq::<Seq<char>>::empty());
    assert(fragments_of_pieces(Seq::<Seq<char>>::empty()) == Seq::<Seq<char>>::empty());
    assert(fragments_of_pieces(single) == frag_of(p) + fragments_of_pieces(single.drop_first()));
    assert(frag_of(p) + Seq::<Seq<char>>::empty() =~~= frag_of(p));
}

/// One splitting step: a terminator-free prefix, a terminator, and the rest.
pub proof fn lemma_fragments_step(p: Seq<char>, t: char, rest: Seq<char>)
    requires
        forall|i: int| 0 <= i < p.len() ==> !is_term_char(p[i]),
        is_term_char(t),
    ensures
        fragments(p + seq![t] + rest) == frag_of(p) + fragments(rest),
{
    lemma_split_terms_head(p, t, rest);
    lemma_fragments_pieces_concat(seq![p], split_terms(rest));
    lemma_fragments_single_piece(p);
}

/// A terminator-free text is a single piece.
pub proof fn lemma_fragments_no_term(p: Seq<char>)
    requires
        forall|i: int| 0 <= i < p.len() ==> !is_term_char(p[i]),
    ensures
        fragments(p) == frag_of(p),
{
    lemma_split_terms_no_term(p);
    lemma_fragments_single_piece(p);
}

pub proof fn lemma_trim_start_at(s: Seq<char>, i: int)
    requires
        0 <= i <= s.len(),
        forall|k: int| 0 <= k < i ==> is_space_char(s[k]),
        i < s.len() ==> !is_space_char(s[i]),
    ensures
        trim_start_spec(s) == s.skip(i),
    decreases i,
{
    if i == 0 {
        if s.len() == 0 || !is_space_char(s[0]) {
            assert(s.skip(0) =~= s);
        }
    } else {
        assert(is_space_char(s[0]));
        lemma_trim_start_at(s.drop_first(), i - 1);
        assert(s.drop_first().skip(i - 1) =~= s.skip(i));
    }
}

pub proof fn lemma_trim_end_at(s: Seq<char>, j: int)
    requires
        0 <= j <= s.len(),
        forall|k: int| j <= k < s.len() ==> is_space_char(s[k]),
        j > 0 ==> !is_space_char(s[j - 1]),
    ensures
        trim_end_spec(s) == s.take(j),
    decreases s.len(),
{
    if j == s.len() {
        if s.len() == 0 || !is_space_char(s.last()) {
            assert(s.take(j) =~= s);
        } else {
            assert(false);
        }
    } else {
        assert(is_space_char(s.last()));
        lemma_trim_end_at(s.drop_last(), j);
        assert(s.drop_last().take(j) =~= s.take(j));
    }
}

/// Trimming, verified against the model above.
pub fn trim_str(s: &str) -> (r: String)
    ensures
        r@ == trim_spec(s@),
{
    let len = s.unicode_len();
    let mut a: usize = 0;
    while a < len && space_char(s.get_char(a))
        invariant
            a <= len,
            len == s@.len(),
            forall|k: int| 0 <= k < a ==> is_space_char(s@[k]),
        decreases len - a,
    {
        a += 1;
    }
    proof {
        lemma_trim_start_at(s@, a as int);
    }
    let mut b: usize = len;
    while b > a && space_char(s.get_char(b - 1))
        invariant
            a <= b <= len,
            len == s@.len(),
            forall|k: int| b <= k < len ==> is_space_char(s@[k]),
        decreases b,
    {
        b -= 1;
    }
    proof {
        let tail = s@.skip(a as int);
        assert forall|k: int| b - a <= k < tail.len() implies is_space_char(tail[k]) by {
            assert(tail[k] == s@[k + a]);
        }
        lemma_trim_end_at(tail, b as int - a as int);
        assert(tail.take(b as int - a as int) =~= s@.subrange(a as int, b as int));
    }
    let piece = s.substring_char(a, b);
    String::from_str(piece)
}

/// The fragment sequence of `s`, verified against [`fragments`].
pub fn split_fragments(s: &str) -> (v: Vec<String>)
    ensures
        seq_views(v@) == fragments(s@),
{
    let len = s.unicode_len();
    let mut out: Vec<String> = Vec::new();
    let mut start: usize = 0;
    proof {
        assert(s@.skip(0) =~= s@);
        assert(seq_views(out@) =~~= Seq::<Seq<char>>::empty());
    }
    while start < len
        invariant
            start <= len,
            len == s@.len(),
            fragments(s@) =~~= seq_views(out@) + fragments(s@.skip(start as int)),
        decreases len - start,
    {
        let mut k: usize = start;
        while k < len && !term_char(s.get_char(k))
            invariant
                start <= k <= len,
                len == s@.len(),
                forall|j: int| start <= j < k ==> !is_term_char(s@[j]),
            decreases len - k,
        {
            k += 1;
        }
        let piece = s.substring_char(start, k);
        let t = trim_str(piece);
        let ghost p = s@.subrange(start as int, k as int);
        let ghost old_views = seq_views(out@);
        let ghost old_out = out@;
        let ghost tv = t@;
        let keep = t.unicode_len() > 0;
        if keep {
            out.push(t);
        }
        proof {
            assert(trim_spec(p) == tv);
            if keep {
                assert(out@ =~= old_out.push(out@.last()));
                lemma_seq_views_push(old_out, out@.last());
                assert(frag_of(p) =~~= seq![tv]);
                assert(seq_views(out@) =~~= old_views + frag_of(p));
            } else {
                assert(frag_of(p) =~~= Seq::<Seq<char>>::empty());
                assert(seq_views(out@) =~~= old_views + frag_of(p));
            }
            if k < len {
                assert(s@.skip(start as int) =~= p + seq![s@[k as int]] + s@.skip(k as int + 1));
                lemma_fragments_step(p, s@[k as int], s@.skip(k as int + 1));
                assert(fragments(s@) =~~= seq_views(out@) + fragments(s@.skip(k as int + 1)));
            } else {
                assert(s@.skip(start as int) =~= p);
                lemma_fragments_no_term(p);
                lemma_fragments_empty();
                assert(s@.skip(len as int) =~= Seq::<char>::empty());
                assert(fragments(s@) =~~= seq_views(out@) + fragments(s@.skip(len as int)));
            }
        }
        if k < len {
            start = k + 1;
        } else {
            start = len;
        }
    }
    proof {
        assert(s@.skip(len as int) =~= Seq::<char>::empty());
        lemma_fragments_empty();
        assert(seq_views(out@) =~~= fragments(s@));
    }
    out
}

pub proof fn lemma_fragments_empty()
    ensures
        fragments(Seq::<char>::empty()) == Seq::<Seq<char>>::empty(),
{
    let e = Seq::<char>::empty();
    assert(split_terms(e) == seq![e]);
    assert(trim_spec(e).len() == 0);
    lemma_fragments_single_piece(e);
    assert(fragments(e) =~~= Seq::<Seq<char>>::empty());
}

} // verus!
