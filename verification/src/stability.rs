//! Stability of the formatter under reapplication. Formatting is not
//! idempotent syntax-for-syntax — a second pass strips the numbering the
//! first one added and sorts again — but the second pass recovers exactly
//! the points the first pass wrote, so the output is a fixed point. The one
//! family of exceptions: a point that opens with whitespace other than a
//! space (a tab, say) survives marker-stripping on the first pass but is
//! trimmed away on the second; such inputs are excluded here.

use vstd::prelude::*;
use crate::chars::{is_term_char, is_space_char, is_strip_char, is_marker_char};
use crate::fragments::{
    trim_start_spec, trim_end_spec, trim_spec, split_terms, frag_of, fragments_of_pieces,
    fragments, lemma_fragments_step, lemma_fragments_no_term, lemma_fragments_empty,
};
use crate::sorting::{sort_frags, lemma_sort_frags_ensures, lemma_sort_frags_of_sorted};
use crate::formatter::{
    strip_markers, point_of, list_points, looks_like_list, numbered_from, joined_fragments,
    format_spec,
};
use crate::numbers::{dec_digits, lemma_dec_digits_are_digits};

verus! {

/// A fragment as splitting produces it: non-empty, free of terminator
/// characters, and unchanged by trimming.
pub open spec fn wf_fragment(f: Seq<char>) -> bool {
    &&& f.len() > 0
    &&& forall|i: int| 0 <= i < f.len() ==> !is_term_char(#[trigger] f[i])
    &&& trim_spec(f) == f
}

/// A list point whose rendered line reads back unchanged: non-empty, free
/// of terminators, already stripped, and not opening or closing with
/// whitespace.
pub open spec fn wf_point(p: Seq<char>) -> bool {
    &&& p.len() > 0
    &&& forall|i: int| 0 <= i < p.len() ==> !is_term_char(#[trigger] p[i])
    &&& strip_markers(p) == p
    &&& !is_space_char(p[0])
    &&& !is_space_char(p.last())
}

proof fn lemma_trim_start_head(x: Seq<char>)
    ensures
        trim_start_spec(x).len() > 0 ==> !is_space_char(trim_start_spec(x)[0]),
    decreases x.len(),
{
    if x.len() > 0 && is_space_char(x[0]) {
        lemma_trim_start_head(x.drop_first());
    }
}

proof fn lemma_trim_start_no_term(x: Seq<char>)
    requires
        forall|i: int| 0 <= i < x.len() ==> !is_term_char(#[trigger] x[i]),
    ensures
        forall|i: int|
            0 <= i < trim_start_spec(x).len() ==> !is_term_char(#[trigger] trim_start_spec(x)[i]),
    decreases x.len(),
{
    if x.len() > 0 && is_space_char(x[0]) {
        assert forall|i: int| 0 <= i < x.drop_first().len() implies !is_term_char(
            #[trigger] x.drop_first()[i],
        ) by {
            assert(x.drop_first()[i] == x[i + 1]);
        }
        lemma_trim_start_no_term(x.drop_first());
        assert forall|i: int| 0 <= i < trim_start_spec(x).len() implies !is_term_char(
            #[trigger] trim_start_spec(x)[i],
        ) by {
            assert(trim_start_spec(x)[i] == trim_start_spec(x.drop_first())[i]);
        }
    } else {
        assert forall|i: int| 0 <= i < trim_start_spec(x).len() implies !is_term_char(
            #[trigger] trim_start_spec(x)[i],
        ) by {
            assert(trim_start_spec(x)[i] == x[i]);
        }
    }
}

proof fn lemma_trim_end_prefix(x: Seq<char>)
    ensures
        trim_end_spec(x) == x.take(trim_end_spec(x).len() as int),
        trim_end_spec(x).len() <= x.len(),
    decreases x.len(),
{
    if x.len() > 0 && is_space_char(x.last()) {
        lemma_trim_end_prefix(x.drop_last());
        assert(x.drop_last().take(trim_end_spec(x).len() as int) =~= x.take(
            trim_end_spec(x).len() as int,
        ));
    } else {
        assert(x.take(x.len() as int) =~= x);
    }
}

proof fn lemma_trim_end_last(x: Seq<char>)
    ensures
        trim_end_spec(x).len() > 0 ==> !is_space_char(trim_end_spec(x).last()),
    decreases x.len(),
{
    if x.len() > 0 && is_space_char(x.last()) {
        lemma_trim_end_last(x.drop_last());
    }
}

/// The trim of a terminator-free text is terminator-free, opens and closes
/// with non-whitespace (when non-empty), and is itself trim-fixed.
proof fn lemma_trim_props(x: Seq<char>)
    requires
        forall|i: int| 0 <= i < x.len() ==> !is_term_char(#[trigger] x[i]),
    ensures
        forall|i: int| 0 <= i < trim_spec(x).len() ==> !is_term_char(#[trigger] trim_spec(x)[i]),
        trim_spec(x).len() > 0 ==> !is_space_char(trim_spec(x)[0]),
        trim_spec(x).len() > 0 ==> !is_space_char(trim_spec(x).last()),
        trim_spec(trim_spec(x)) == trim_spec(x),
{
    let u = trim_start_spec(x);
    let t = trim_end_spec(u);
    lemma_trim_start_head(x);
    lemma_trim_start_no_term(x);
    lemma_trim_end_prefix(u);
    lemma_trim_end_last(u);
    assert forall|i: int| 0 <= i < t.len() implies !is_term_char(#[trigger] t[i]) by {
        assert(t[i] == u[i]);
    }
    if t.len() > 0 {
        assert(t[0] == u[0]);
    }
    assert(trim_start_spec(t) == t);
    assert(trim_end_spec(t) == t);
}

/// Stripping yields a suffix: it keeps the final character, is itself
/// strip-fixed, and preserves freedom from terminators.
proof fn lemma_strip_props(f: Seq<char>)
    ensures
        strip_markers(f).len() <= f.len(),
        strip_markers(f).len() > 0 ==> strip_markers(f).last() == f.last(),
        strip_markers(strip_markers(f)) == strip_markers(f),
    decreases f.len(),
{
    if f.len() > 0 && is_strip_char(f[0]) {
        lemma_strip_props(f.drop_first());
        if strip_markers(f).len() > 0 {
            assert(f.drop_first().last() == f.last());
        }
    }
}

proof fn lemma_strip_no_term(f: Seq<char>)
    requires
        forall|i: int| 0 <= i < f.len() ==> !is_term_char(#[trigger] f[i]),
    ensures
        forall|i: int|
            0 <= i < strip_markers(f).len() ==> !is_term_char(#[trigger] strip_markers(f)[i]),
    decreases f.len(),
{
    if f.len() > 0 && is_strip_char(f[0]) {
        assert forall|i: int| 0 <= i < f.drop_first().len() implies !is_term_char(
            #[trigger] f.drop_first()[i],
        ) by {
            assert(f.drop_first()[i] == f[i + 1]);
        }
        lemma_strip_no_term(f.drop_first());
        assert forall|i: int| 0 <= i < strip_markers(f).len() implies !is_term_char(
            #[trigger] strip_markers(f)[i],
        ) by {
            assert(strip_markers(f)[i] == strip_markers(f.drop_first())[i]);
        }
    } else {
        assert forall|i: int| 0 <= i < strip_markers(f).len() implies !is_term_char(
            #[trigger] strip_markers(f)[i],
        ) by {
            assert(strip_markers(f)[i] == f[i]);
        }
    }
}

proof fn lemma_strip_all_strip(d: Seq<char>)
    requires
        forall|i: int| 0 <= i < d.len() ==> is_strip_char(#[trigger] d[i]),
    ensures
        strip_markers(d).len() == 0,
    decreases d.len(),
{
    if d.len() > 0 {
        assert forall|i: int| 0 <= i < d.drop_first().len() implies is_strip_char(
            #[trigger] d.drop_first()[i],
        ) by {
            assert(d.drop_first()[i] == d[i + 1]);
        }
        lemma_strip_all_strip(d.drop_first());
    }
}

proof fn lemma_split_terms_nonempty(s: Seq<char>)
    ensures
        split_terms(s).len() >= 1,
    decreases s.len(),
{
    if s.len() > 0 {
        lemma_split_terms_nonempty(s.drop_first());
    }
}

/// Every piece that splitting yields is free of terminator characters.
proof fn lemma_split_pieces_term_free(s: Seq<char>)
    ensures
        forall|i: int, j: int|
            0 <= i < split_terms(s).len() && 0 <= j < split_terms(s)[i].len() ==> !is_term_char(
                #[trigger] split_terms(s)[i][j],
            ),
    decreases s.len(),
{
    if s.len() == 0 {
    } else if is_term_char(s[0]) {
        lemma_split_pieces_term_free(s.drop_first());
        let rest = split_terms(s.drop_first());
        assert forall|i: int, j: int|
            0 <= i < split_terms(s).len() && 0 <= j < split_terms(s)[i].len() implies !is_term_char(
            #[trigger] split_terms(s)[i][j],
        ) by {
            if i > 0 {
                assert(split_terms(s)[i] == rest[i - 1]);
            }
        }
    } else {
        lemma_split_pieces_term_free(s.drop_first());
        lemma_split_terms_nonempty(s.drop_first());
        let rest = split_terms(s.drop_first());
        assert forall|i: int, j: int|
            0 <= i < split_terms(s).len() && 0 <= j < split_terms(s)[i].len() implies !is_term_char(
            #[trigger] split_terms(s)[i][j],
        ) by {
            if i == 0 {
                assert(split_terms(s)[0] == seq![s[0]] + rest[0]);
                if j > 0 {
                    assert((seq![s[0]] + rest[0])[j] == rest[0][j - 1]);
                }
            } else {
                assert(split_terms(s)[i] == rest.drop_first()[i - 1]);
                assert(rest.drop_first()[i - 1] == rest[i]);
            }
        }
    }
}

proof fn lemma_fragments_of_pieces_wf(ps: Seq<Seq<char>>)
    requires
        forall|i: int, j: int|
            0 <= i < ps.len() && 0 <= j < ps[i].len() ==> !is_term_char(#[trigger] ps[i][j]),
    ensures
        forall|i: int|
            0 <= i < fragments_of_pieces(ps).len() ==> wf_fragment(
                #[trigger] fragments_of_pieces(ps)[i],
            ),
    decreases ps.len(),
{
    if ps.len() > 0 {
        assert forall|i: int, j: int|
            0 <= i < ps.drop_first().len() && 0 <= j < ps.drop_first()[i].len() implies !is_term_char(
            #[trigger] ps.drop_first()[i][j],
        ) by {
            assert(ps.drop_first()[i] == ps[i + 1]);
        }
        lemma_fragments_of_pieces_wf(ps.drop_first());
        assert forall|j: int| 0 <= j < ps[0].len() implies !is_term_char(#[trigger] ps[0][j]) by {}
        lemma_trim_props(ps[0]);
        let head = frag_of(ps[0]);
        let rest = fragments_of_pieces(ps.drop_first());
        assert forall|i: int| 0 <= i < fragments_of_pieces(ps).len() implies wf_fragment(
            #[trigger] fragments_of_pieces(ps)[i],
        ) by {
            if i < head.len() {
                assert(fragments_of_pieces(ps)[i] == trim_spec(ps[0]));
            } else {
                assert(fragments_of_pieces(ps)[i] == rest[i - head.len()]);
            }
        }
    }
}

/// Every fragment of any text is well formed.
pub proof fn lemma_fragments_wf(s: Seq<char>)
    ensures
        forall|i: int| 0 <= i < fragments(s).len() ==> wf_fragment(#[trigger] fragments(s)[i]),
{
    lemma_split_pieces_term_free(s);
    lemma_fragments_of_pieces_wf(split_terms(s));
}

proof fn lemma_list_points_concat(a: Seq<Seq<char>>, b: Seq<Seq<char>>)
    ensures
        list_points(a + b) == list_points(a) + list_points(b),
    decreases a.len(),
{
    if a.len() == 0 {
        assert(a + b =~= b);
        assert(list_points(a) + list_points(b) =~~= list_points(b));
    } else {
        assert((a + b).drop_first() =~= a.drop_first() + b);
        assert((a + b)[0] == a[0]);
        lemma_list_points_concat(a.drop_first(), b);
        assert(list_points(a + b) =~~= list_points(a) + list_points(b));
    }
}

proof fn lemma_list_points_single(f: Seq<char>)
    ensures
        list_points(seq![f]) == point_of(f),
{
    let single = seq![f];
    assert(single[0] == f);
    assert(single.drop_first() =~~= Seq::<Seq<char>>::empty());
    assert(list_points(Seq::<Seq<char>>::empty()) == Seq::<Seq<char>>::empty());
    assert(list_points(single) == point_of(f) + list_points(single.drop_first()));
    assert(point_of(f) + Seq::<Seq<char>>::empty() =~~= point_of(f));
}

/// The points of well-formed fragments are non-empty, terminator-free,
/// strip-fixed, and end with non-whitespace.
proof fn lemma_list_points_props(frs: Seq<Seq<char>>)
    requires
        forall|i: int| 0 <= i < frs.len() ==> wf_fragment(#[trigger] frs[i]),
    ensures
        forall|i: int|
            0 <= i < list_points(frs).len() ==> {
                let p = #[trigger] list_points(frs)[i];
                &&& p.len() > 0
                &&& (forall|j: int| 0 <= j < p.len() ==> !is_term_char(#[trigger] p[j]))
                &&& strip_markers(p) == p
                &&& !is_space_char(p.last())
            },
    decreases frs.len(),
{
    if frs.len() > 0 {
        assert forall|i: int| 0 <= i < frs.drop_first().len() implies wf_fragment(
            #[trigger] frs.drop_first()[i],
        ) by {
            assert(frs.drop_first()[i] == frs[i + 1]);
        }
        lemma_list_points_props(frs.drop_first());
        let f = frs[0];
        assert(wf_fragment(f));
        lemma_strip_props(f);
        lemma_strip_no_term(f);
        lemma_trim_props(f);
        let head = point_of(f);
        let rest = list_points(frs.drop_first());
        assert forall|i: int| 0 <= i < list_points(frs).len() implies {
            let p = #[trigger] list_points(frs)[i];
            &&& p.len() > 0
            &&& (forall|j: int| 0 <= j < p.len() ==> !is_term_char(#[trigger] p[j]))
            &&& strip_markers(p) == p
            &&& !is_space_char(p.last())
        } by {
            if i < head.len() {
                assert(list_points(frs)[i] == strip_markers(f));
            } else {
                assert(list_points(frs)[i] == rest[i - head.len()]);
            }
        }
    }
}

/// Reading the numbered rendering back: its fragments are the decimal
/// indices interleaved with the points, so its points are exactly `pts`.
proof fn lemma_numbered_roundtrip(pts: Seq<Seq<char>>, k: nat)
    requires
        pts.len() > 0,
        forall|i: int| 0 <= i < pts.len() ==> wf_point(#[trigger] pts[i]),
    ensures
        list_points(fragments(numbered_from(pts, k))) == pts,
        fragments(numbered_from(pts, k)).len() >= 1,
        fragments(numbered_from(pts, k))[0] == dec_digits(k),
    decreases pts.len(),
{
    let y = numbered_from(pts, k);
    let d = dec_digits(k);
    let p = pts[0];
    assert(wf_point(p));
    lemma_dec_digits_are_digits(k);
    assert forall|i: int| 0 <= i < d.len() implies !is_term_char(#[trigger] d[i])
        && !is_space_char(d[i]) && is_strip_char(d[i]) by {
        assert('0' <= d[i] && d[i] <= '9');
    }
    // The decimal index is its own fragment and strips to nothing.
    assert(trim_start_spec(d) == d);
    assert(trim_end_spec(d) == d);
    assert(frag_of(d) =~~= seq![d]);
    lemma_strip_all_strip(d);
    assert(point_of(d) =~~= Seq::<Seq<char>>::empty());
    // After the ". " separator, the point is recovered unchanged.
    let tail0 = seq![' '] + p;
    assert(tail0.drop_first() =~= p);
    assert(trim_start_spec(tail0) == trim_start_spec(p));
    assert(trim_start_spec(p) == p);
    assert(trim_end_spec(p) == p);
    assert(trim_spec(tail0) == p);
    assert(frag_of(tail0) =~~= seq![p]);
    assert(point_of(p) =~~= seq![p]);
    assert forall|i: int| 0 <= i < tail0.len() implies !is_term_char(#[trigger] tail0[i]) by {
        if i > 0 {
            assert(tail0[i] == p[i - 1]);
        }
    }
    if pts.len() == 1 {
        assert(y =~= d + seq!['.'] + tail0);
        lemma_fragments_step(d, '.', tail0);
        lemma_fragments_no_term(tail0);
        let fr = fragments(y);
        assert(fr =~~= seq![d] + seq![p]);
        lemma_list_points_concat(seq![d], seq![p]);
        lemma_list_points_single(d);
        lemma_list_points_single(p);
        assert(list_points(fr) =~~= pts);
        assert(fr[0] == d);
    } else {
        let resty = numbered_from(pts.drop_first(), k + 1);
        assert forall|i: int| 0 <= i < pts.drop_first().len() implies wf_point(
            #[trigger] pts.drop_first()[i],
        ) by {
            assert(pts.drop_first()[i] == pts[i + 1]);
        }
        lemma_numbered_roundtrip(pts.drop_first(), k + 1);
        assert(y =~= d + seq!['.'] + (tail0 + seq!['\n'] + resty));
        lemma_fragments_step(d, '.', tail0 + seq!['\n'] + resty);
        lemma_fragments_step(tail0, '\n', resty);
        let fr = fragments(y);
        assert(fr =~~= seq![d] + (seq![p] + fragments(resty)));
        lemma_list_points_concat(seq![d], seq![p] + fragments(resty));
        lemma_list_points_concat(seq![p], fragments(resty));
        lemma_list_points_single(d);
        lemma_list_points_single(p);
        assert(list_points(fr) =~~= seq![p] + pts.drop_first());
        assert(seq![p] + pts.drop_first() =~= pts);
        assert(fr[0] == d);
    }
}

/// Applying the formatter to its own output returns that output unchanged:
/// the second pass strips exactly the numbering the first pass added and
/// finds the points already sorted. Excluded, because they genuinely break
/// the property, are list inputs whose points all strip away (the output is
/// then empty, which the next pass turns into `"."`) and points that open
/// with whitespace other than a space, which a second trim alters.
pub proof fn lemma_format_reapply_stable(s: Seq<char>)
    requires
        looks_like_list(fragments(s)) ==> list_points(fragments(s)).len() > 0,
        forall|i: int|
            0 <= i < list_points(fragments(s)).len() ==> !is_space_char(
                #[trigger] list_points(fragments(s))[i][0],
            ),
    ensures
        format_spec(format_spec(s)) == format_spec(s),
{
    broadcast use vstd::seq_lib::to_multiset_contains;
    broadcast use vstd::seq_lib::to_multiset_len;

    let frs = fragments(s);
    lemma_fragments_wf(s);
    if looks_like_list(frs) {
        let pts0 = list_points(frs);
        let pts = sort_frags(pts0);
        lemma_sort_frags_ensures(pts0);
        lemma_list_points_props(frs);
        assert(pts.to_multiset().len() == pts0.to_multiset().len());
        assert(pts.len() == pts0.len());
        assert forall|i: int| 0 <= i < pts.len() implies wf_point(#[trigger] pts[i]) by {
            let e = pts[i];
            assert(pts.contains(e));
            assert(pts.to_multiset().count(e) > 0);
            assert(pts0.to_multiset().count(e) > 0);
            assert(pts0.contains(e));
            let j = choose|j: int| 0 <= j < pts0.len() && pts0[j] == e;
            assert(pts0[j].len() > 0);
            assert(!is_space_char(pts0[j][0]));
            assert(!is_space_char(pts0[j].last()));
        }
        let y = numbered_from(pts, 1);
        lemma_numbered_roundtrip(pts, 1);
        lemma_dec_digits_are_digits(1);
        let fy = fragments(y);
        assert(fy[0] == dec_digits(1));
        assert(fy[0].len() > 0 && is_marker_char(fy[0][0]));
        assert(looks_like_list(fy));
        lemma_sort_frags_of_sorted(pts);
        assert(format_spec(y) == numbered_from(sort_frags(list_points(fy)), 1));
        assert(format_spec(y) == y);
    } else {
        if frs.len() == 0 {
            let y = joined_fragments(frs) + seq!['.'];
            assert(y =~= Seq::<char>::empty() + seq!['.'] + Seq::<char>::empty());
            lemma_fragments_step(Seq::<char>::empty(), '.', Seq::<char>::empty());
            lemma_fragments_empty();
            assert(trim_spec(Seq::<char>::empty()).len() == 0);
            assert(fragments(y) =~~= Seq::<Seq<char>>::empty());
            assert(!looks_like_list(fragments(y)));
            assert(format_spec(y) =~= y);
        } else {
            assert(frs.len() == 1);
            let f = frs[0];
            assert(wf_fragment(f));
            let y = joined_fragments(frs) + seq!['.'];
            assert(joined_fragments(frs) == f);
            assert(y =~= f + seq!['.'] + Seq::<char>::empty());
            lemma_fragments_step(f, '.', Seq::<char>::empty());
            lemma_fragments_empty();
            assert(frag_of(f) =~~= seq![f]);
            assert(fragments(y) =~~= seq![f]);
            assert(!(frs[0].len() > 0 && is_marker_char(frs[0][0])));
            assert forall|i: int|
                0 <= i < fragments(y).len() implies !(fragments(y)[i].len() > 0 && is_marker_char(
                #[trigger] fragments(y)[i][0],
            )) by {
                assert(fragments(y)[i] == f);
            }
            assert(!looks_like_list(fragments(y)));
            assert(joined_fragments(seq![f]) == f);
            assert(format_spec(y) =~= y);
        }
    }
}

} // verus!
