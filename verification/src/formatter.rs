//! The response formatter: free text from the model is either reflowed into
//! a numbered list (when it already carries list markers, or has several
//! fragments) or tidied into a single sentence with a closing period.

use vstd::prelude::*;
use crate::chars::{is_term_char, is_marker_char, is_strip_char, marker_char, strip_char};
use crate::fragments::{
    seq_views, trim_spec, fragments, split_fragments, lemma_fragments_no_term,
};
use crate::sorting::{sort_frags, sorted_lex, sort_fragments, lemma_sort_frags_ensures};
use crate::numbers::{dec_digits, render_dec};

verus! {

/// Leading digits, periods, hyphens, asterisks and spaces removed: whatever
/// pre-existing numbering or bullet a fragment carries.
pub open spec fn strip_markers(s: Seq<char>) -> Seq<char>
    decreases s.len(),
{
    if s.len() > 0 && is_strip_char(s[0]) {
        strip_markers(s.drop_first())
    } else {
        s
    }
}

/// What one fragment contributes to the list points: its stripped text if
/// non-empty, nothing otherwise.
pub open spec fn point_of(f: Seq<char>) -> Seq<Seq<char>> {
    if strip_markers(f).len() > 0 {
        seq![strip_markers(f)]
    } else {
        Seq::<Seq<char>>::empty()
    }
}

/// The list points of a fragment sequence: each fragment stripped of
/// markers, empty results discarded.
pub open spec fn list_points(frs: Seq<Seq<char>>) -> Seq<Seq<char>>
    decreases frs.len(),
{
    if frs.len() == 0 {
        Seq::<Seq<char>>::empty()
    } else {
        point_of(frs[0]) + list_points(frs.drop_first())
    }
}

/// A fragment sequence is treated as a list when some fragment opens with a
/// digit, hyphen or asterisk, or when there is more than one fragment.
pub open spec fn looks_like_list(frs: Seq<Seq<char>>) -> bool {
    (exists|i: int|
        0 <= i < frs.len() && frs[i].len() > 0 && is_marker_char(frs[i][0])) || frs.len() > 1
}

/// One rendered list line: the index in decimal, a period and a space, then
/// the point.
pub open spec fn line_of(k: nat, p: Seq<char>) -> Seq<char> {
    dec_digits(k) + seq!['.', ' '] + p
}

/// The numbered lines for `pts`, counting from `k`, joined with newlines.
pub open spec fn numbered_from(pts: Seq<Seq<char>>, k: nat) -> Seq<char>
    decreases pts.len(),
{
    if pts.len() == 0 {
        Seq::<char>::empty()
    } else if pts.len() == 1 {
        line_of(k, pts[0])
    } else {
        line_of(k, pts[0]) + seq!['\n'] + numbered_from(pts.drop_first(), k + 1)
    }
}

/// The fragments joined back into one sentence, separated by `". "`.
pub open spec fn joined_fragments(frs: Seq<Seq<char>>) -> Seq<char>
    decreases frs.len(),
{
    if frs.len() == 0 {
        Seq::<char>::empty()
    } else if frs.len() == 1 {
        frs[0]
    } else {
        frs[0] + seq!['.', ' '] + joined_fragments(frs.drop_first())
    }
}

/// The complete model of the formatter. List-like input becomes its points,
/// sorted ascending and numbered from 1; anything else becomes its fragments
/// joined with `". "` and closed by a period.
pub open spec fn format_spec(s: Seq<char>) -> Seq<char> {
    let frs = fragments(s);
    if looks_like_list(frs) {
        numbered_from(sort_frags(list_points(frs)), 1)
    } else {
        joined_fragments(frs) + seq!['.']
    }
}

proof fn lemma_strip_at(s: Seq<char>, i: int)
    requires
        0 <= i <= s.len(),
        forall|k: int| 0 <= k < i ==> is_strip_char(s[k]),
        i < s.len() ==> !is_strip_char(s[i]),
    ensures
        strip_markers(s) == s.skip(i),
    decreases i,
{
    if i == 0 {
        if s.len() == 0 || !is_strip_char(s[0]) {
            assert(s.skip(0) =~= s);
        }
    } else {
        assert(is_strip_char(s[0]));
        lemma_strip_at(s.drop_first(), i - 1);
        assert(s.drop_first().skip(i - 1) =~= s.skip(i));
    }
}

/// Removes a leading run of digits, periods, hyphens, asterisks and spaces,
/// verified against [`strip_markers`].
fn strip_point(f: &str) -> (r: String)
    ensures
        r@ == strip_markers(f@),
{
    let len = f.unicode_len();
    let mut i: usize = 0;
    while i < len && strip_char(f.get_char(i))
        invariant
            i <= len,
            len == f@.len(),
            forall|k: int| 0 <= k < i ==> is_strip_char(f@[k]),
        decreases len - i,
    {
        i += 1;
    }
    proof {
        lemma_strip_at(f@, i as int);
    }
    let r = f.substring_char(i, len);
    String::from_str(r)
}

/// The list points of the fragments, verified against [`list_points`].
fn collect_points(frs: &Vec<String>) -> (pts: Vec<String>)
    ensures
        seq_views(pts@) == list_points(seq_views(frs@)),
{
    let ghost all = seq_views(frs@);
    let mut out: Vec<String> = Vec::new();
    let mut i: usize = 0;
    proof {
        assert(all.skip(0) =~~= all);
        assert(seq_views(out@) =~~= Seq::<Seq<char>>::empty());
    }
    while i < frs.len()
        invariant
            i <= frs@.len(),
            all == seq_views(frs@),
            list_points(all) =~~= seq_views(out@) + list_points(all.skip(i as int)),
        decreases frs@.len() - i,
    {
        let p = strip_point(frs[i].as_str());
        let ghost old_views = seq_views(out@);
        let ghost old_out = out@;
        let ghost pv = p@;
        let keep = p.unicode_len() > 0;
        if keep {
            out.push(p);
        }
        proof {
            assert(all.skip(i as int)[0] == all[i as int]);
            assert(all[i as int] == frs@[i as int]@);
            assert(all.skip(i as int).drop_first() =~= all.skip(i as int + 1));
            assert(list_points(all.skip(i as int)) == point_of(all[i as int]) + list_points(
                all.skip(i as int + 1),
            ));
            if keep {
                assert(out@ =~= old_out.push(out@.last()));
                crate::fragments::lemma_seq_views_push(old_out, out@.last());
                assert(point_of(all[i as int]) =~~= seq![pv]);
            } else {
                assert(point_of(all[i as int]) =~~= Seq::<Seq<char>>::empty());
            }
            assert(seq_views(out@) =~~= old_views + point_of(all[i as int]));
            assert(list_points(all) =~~= seq_views(out@) + list_points(all.skip(i as int + 1)));
        }
        i += 1;
    }
    proof {
        assert(all.skip(i as int) =~~= Seq::<Seq<char>>::empty());
        assert(seq_views(out@) =~~= list_points(all));
    }
    out
}

/// Whether the fragments are treated as a list, verified against
/// [`looks_like_list`].
fn looks_like_list_exec(frs: &Vec<String>) -> (r: bool)
    ensures
        r == looks_like_list(seq_views(frs@)),
{
    if frs.len() > 1 {
        return true;
    }
    let mut i: usize = 0;
    while i < frs.len()
        invariant
            i <= frs@.len(),
            forall|k: int|
                0 <= k < i ==> !(seq_views(frs@)[k].len() > 0 && is_marker_char(
                    #[trigger] seq_views(frs@)[k][0],
                )),
        decreases frs@.len() - i,
    {
        let f = frs[i].as_str();
        if f.unicode_len() > 0 && marker_char(f.get_char(0)) {
            proof {
                assert(seq_views(frs@)[i as int].len() > 0 && is_marker_char(
                    seq_views(frs@)[i as int][0],
                ));
            }
            return true;
        }
        proof {
            assert(seq_views(frs@)[i as int] == frs@[i as int]@);
        }
        i += 1;
    }
    false
}

/// Renders `pts[i..]` as numbered lines counting from `i + 1`, verified
/// against [`numbered_from`].
fn render_numbered(pts: &Vec<String>, i: usize) -> (r: String)
    requires
        i <= pts@.len(),
    ensures
        r@ == numbered_from(seq_views(pts@).skip(i as int), i as nat + 1),
    decreases pts@.len() - i,
{
    let ghost tail = seq_views(pts@).skip(i as int);
    if i == pts.len() {
        proof {
            assert(tail =~~= Seq::<Seq<char>>::empty());
        }
        String::new()
    } else {
        let num = render_dec((i as u64) + 1);
        let line = num.concat(". ").concat(pts[i].as_str());
        proof {
            reveal_strlit(". ");
            assert(". "@ =~= seq!['.', ' ']);
            assert(tail[0] == seq_views(pts@)[i as int]);
            assert(line@ == line_of(i as nat + 1, tail[0]));
        }
        if i + 1 == pts.len() {
            proof {
                assert(tail.len() == 1);
            }
            line
        } else {
            let rest = render_numbered(pts, i + 1);
            let r = line.concat("\n").concat(rest.as_str());
            proof {
                reveal_strlit("\n");
                assert("\n"@ =~= seq!['\n']);
                assert(tail.drop_first() =~= seq_views(pts@).skip(i as int + 1));
                assert(r@ == numbered_from(tail, i as nat + 1));
            }
            r
        }
    }
}

/// Joins `frs[i..]` with `". "`, verified against [`joined_fragments`].
fn join_fragments(frs: &Vec<String>, i: usize) -> (r: String)
    requires
        i <= frs@.len(),
    ensures
        r@ == joined_fragments(seq_views(frs@).skip(i as int)),
    decreases frs@.len() - i,
{
    let ghost tail = seq_views(frs@).skip(i as int);
    if i == frs.len() {
        proof {
            assert(tail =~~= Seq::<Seq<char>>::empty());
        }
        String::new()
    } else if i + 1 == frs.len() {
        proof {
            assert(tail.len() == 1);
            assert(tail[0] == frs@[i as int]@);
        }
        frs[i].clone()
    } else {
        let rest = join_fragments(frs, i + 1);
        let r = frs[i].clone().concat(". ").concat(rest.as_str());
        proof {
            reveal_strlit(". ");
            assert(". "@ =~= seq!['.', ' ']);
            assert(tail[0] == frs@[i as int]@);
            assert(tail.drop_first() =~= seq_views(frs@).skip(i as int + 1));
            assert(r@ == joined_fragments(tail));
        }
        r
    }
}

/// Reflows raw model output, verified against [`format_spec`]: list-like
/// text becomes a sorted, numbered list; other text a single sentence closed
/// by a period.
pub fn format_ai_response(raw: &str) -> (r: String)
    ensures
        r@ == format_spec(raw@),
{
    let frs = split_fragments(raw);
    if looks_like_list_exec(&frs) {
        let pts = collect_points(&frs);
        let sorted = sort_fragments(pts);
        let out = render_numbered(&sorted, 0);
        proof {
            assert(seq_views(sorted@).skip(0) =~~= seq_views(sorted@));
        }
        out
    } else {
        let joined = join_fragments(&frs, 0);
        let out = joined.concat(".");
        proof {
            reveal_strlit(".");
            assert("."@ =~= seq!['.']);
            assert(seq_views(frs@).skip(0) =~~= seq_views(frs@));
        }
        out
    }
}

/// Input with no terminator characters and no leading list marker is
/// returned trimmed, with a closing period: the single-fragment path.
pub proof fn lemma_single_fragment_reflow(s: Seq<char>)
    requires
        forall|i: int| 0 <= i < s.len() ==> !is_term_char(s[i]),
        trim_spec(s).len() > 0 ==> !is_marker_char(trim_spec(s)[0]),
    ensures
        format_spec(s) == trim_spec(s) + seq!['.'],
{
    lemma_fragments_no_term(s);
    let frs = fragments(s);
    if trim_spec(s).len() > 0 {
        assert(frs =~~= seq![trim_spec(s)]);
        assert(!looks_like_list(frs));
        assert(joined_fragments(frs) == trim_spec(s));
    } else {
        assert(frs =~~= Seq::<Seq<char>>::empty());
        assert(!looks_like_list(frs));
        assert(joined_fragments(frs) + seq!['.'] =~= trim_spec(s) + seq!['.']);
    }
}

/// No list point is empty: a fragment that strips to nothing is dropped,
/// never numbered.
pub proof fn lemma_list_points_nonempty(frs: Seq<Seq<char>>)
    ensures
        forall|i: int|
            0 <= i < list_points(frs).len() ==> #[trigger] list_points(frs)[i].len() > 0,
    decreases frs.len(),
{
    if frs.len() > 0 {
        lemma_list_points_nonempty(frs.drop_first());
        let head = point_of(frs[0]);
        let rest = list_points(frs.drop_first());
        assert forall|i: int|
            0 <= i < list_points(frs).len() implies #[trigger] list_points(frs)[i].len() > 0 by {
            if i < head.len() {
                assert(list_points(frs)[i] == strip_markers(frs[0]));
            } else {
                assert(list_points(frs)[i] == rest[i - head.len()]);
            }
        }
    }
}

/// Input with at least two fragments is rendered as a numbered list whose
/// points are exactly the stripped fragments — same multiset, so nothing is
/// lost or invented — re-ordered ascending under [`lex_le`] and numbered
/// from 1.
pub proof fn lemma_multi_fragment_list(s: Seq<char>)
    requires
        fragments(s).len() >= 2,
    ensures
        ({
            let pts = sort_frags(list_points(fragments(s)));
            &&& format_spec(s) == numbered_from(pts, 1)
            &&& pts.to_multiset() == list_points(fragments(s)).to_multiset()
            &&& sorted_lex(pts)
            &&& forall|i: int| 0 <= i < pts.len() ==> #[trigger] pts[i].len() > 0
        }),
{
    broadcast use vstd::seq_lib::to_multiset_contains;

    let pts0 = list_points(fragments(s));
    let pts = sort_frags(pts0);
    lemma_sort_frags_ensures(pts0);
    lemma_list_points_nonempty(fragments(s));
    assert forall|i: int| 0 <= i < pts.len() implies #[trigger] pts[i].len() > 0 by {
        let e = pts[i];
        assert(pts.contains(e));
        assert(pts.to_multiset().count(e) > 0);
        assert(pts0.to_multiset().count(e) > 0);
        assert(pts0.contains(e));
        let j = choose|j: int| 0 <= j < pts0.len() && pts0[j] == e;
        assert(pts0[j].len() > 0);
    }
}

} // verus!
