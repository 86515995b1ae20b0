//! Lines of text, numbered and put in order.

use crate::unique::{is_first, lemma_unique_by_first, unique};
use vstd::prelude::*;
use vstd::set_lib::{lemma_int_range, lemma_subset_equality, set_int_range};

verus! {

/// The texts of a list of strings, element by element.
pub open spec fn line_views(lines: Seq<String>) -> Seq<Seq<char>> {
    lines.map_values(|line: String| line@)
}

/// Numbered lines as plain values: each line's number and its text.
pub open spec fn numbered_view(pairs: Seq<(usize, String)>) -> Seq<(int, Seq<char>)> {
    pairs.map_values(|pair: (usize, String)| (pair.0 as int, pair.1@))
}

/// The texts of numbered lines, without the numbers.
pub open spec fn texts_of(pairs: Seq<(int, Seq<char>)>) -> Seq<Seq<char>> {
    Seq::new(pairs.len(), |k: int| pairs[k].1)
}

/// The order of strings: character by character by code point, a proper
/// prefix before what it is a prefix of.
pub open spec fn text_le(a: Seq<char>, b: Seq<char>) -> bool
    decreases a.len(),
{
    if a.len() == 0 {
        true
    } else if b.len() == 0 {
        false
    } else if a[0] == b[0] {
        text_le(a.drop_first(), b.drop_first())
    } else {
        (a[0] as u32) < (b[0] as u32)
    }
}

/// Every text is in order with itself.
pub proof fn lemma_text_le_reflexive(a: Seq<char>)
    ensures
        text_le(a, a),
    decreases a.len(),
{
    if a.len() > 0 {
        lemma_text_le_reflexive(a.drop_first());
    }
}

/// Two texts that are in order both ways are the same text.
pub proof fn lemma_text_le_antisymmetric(a: Seq<char>, b: Seq<char>)
    requires
        text_le(a, b),
        text_le(b, a),
    ensures
        a == b,
    decreases a.len(),
{
    if a.len() == 0 || b.len() == 0 {
        assert(a =~= b);
    } else {
        lemma_text_le_antisymmetric(a.drop_first(), b.drop_first());
        assert(a =~= seq![a[0]] + a.drop_first());
        assert(b =~= seq![b[0]] + b.drop_first());
    }
}

/// `after` holds the elements of `before` in another order: place `k` of
/// `after` holds what stood at place `from[k]` of `before`, and no place of
/// `before` is used twice.
pub open spec fn rearranged<A>(before: Seq<A>, after: Seq<A>, from: Seq<int>) -> bool {
    &&& after.len() == before.len()
    &&& from.len() == before.len()
    &&& forall|k: int|
        0 <= k < from.len() ==> 0 <= #[trigger] from[k] < before.len() && after[k]
            == before[from[k]]
    &&& forall|j: int, k: int| 0 <= j < k < from.len() ==> #[trigger] from[j] != #[trigger] from[k]
}

/// `after` rises by text, and lines of one text stand as they stood before.
pub open spec fn in_text_order(after: Seq<(int, Seq<char>)>, from: Seq<int>) -> bool {
    forall|j: int, k: int|
        0 <= j < k < after.len() ==> {
            &&& text_le((#[trigger] after[j]).1, (#[trigger] after[k]).1)
            &&& text_le(after[k].1, after[j].1) ==> from[j] < from[k]
        }
}

/// `after` rises by number, and lines of one number stand as they stood before.
pub open spec fn in_number_order(after: Seq<(int, Seq<char>)>, from: Seq<int>) -> bool {
    forall|j: int, k: int|
        0 <= j < k < after.len() ==> {
            &&& (#[trigger] after[j]).0 <= (#[trigger] after[k]).0
            &&& after[k].0 <= after[j].0 ==> from[j] < from[k]
        }
}

/// `after` is `before` sorted by text, equal texts keeping their order.
pub open spec fn stably_sorted_by_text(
    before: Seq<(int, Seq<char>)>,
    after: Seq<(int, Seq<char>)>,
) -> bool {
    exists|from: Seq<int>| #[trigger] rearranged(before, after, from) && in_text_order(after, from)
}

/// `after` is `before` sorted by number, equal numbers keeping their order.
pub open spec fn stably_sorted_by_number(
    before: Seq<(int, Seq<char>)>,
    after: Seq<(int, Seq<char>)>,
) -> bool {
    exists|from: Seq<int>|
        #[trigger] rearranged(before, after, from) && in_number_order(after, from)
}

/// Sorts numbered lines by their text with `slice::sort_by_key`, the key being
/// a copy of the line. The standard library documents the sort as stable and
/// orders strings by code point: afterwards the vector holds the same pairs,
/// rising by text, and pairs of one text stand in the order they had.
#[verifier::external_body]
pub(crate) fn sort_by_text(pairs: &mut Vec<(usize, String)>)
    ensures
        stably_sorted_by_text(numbered_view(old(pairs)@), numbered_view(final(pairs)@)),
{
    pairs.sort_by_key(|(_, line)| line.clone());
}

/// Sorts numbered lines by their number with `slice::sort_by_key`, the key
/// being the number. The standard library documents the sort as stable:
/// afterwards the vector holds the same pairs, rising by number, and pairs of
/// one number stand in the order they had.
#[verifier::external_body]
pub(crate) fn sort_by_number(pairs: &mut Vec<(usize, String)>)
    ensures
        stably_sorted_by_number(numbered_view(old(pairs)@), numbered_view(final(pairs)@)),
{
    pairs.sort_by_key(|(number, _)| *number);
}

/// A rearrangement uses every place: each place of the old order is named.
pub proof fn lemma_rearranged_onto(from: Seq<int>, i: int)
    requires
        forall|k: int| 0 <= k < from.len() ==> 0 <= #[trigger] from[k] < from.len(),
        forall|j: int, k: int| 0 <= j < k < from.len() ==> #[trigger] from[j] != #[trigger] from[k],
        0 <= i < from.len(),
    ensures
        exists|k: int| 0 <= k < from.len() && #[trigger] from[k] == i,
{
    assert(from.no_duplicates()) by {
        assert forall|j: int, k: int|
            0 <= j < from.len() && 0 <= k < from.len() && j != k implies from[j] != from[k] by {
            if j < k {
                assert(from[j] != from[k]);
            } else {
                assert(from[k] != from[j]);
            }
        }
    }
    from.unique_seq_to_set();
    let places = set_int_range(0, from.len() as int);
    lemma_int_range(0, from.len() as int);
    assert(from.to_set().subset_of(places)) by {
        assert forall|a: int| from.to_set().contains(a) implies places.contains(a) by {
            let k = choose|k: int| 0 <= k < from.len() && from[k] == a;
            assert(0 <= from[k] < from.len());
        }
    }
    vstd::set_lib::lemma_set_subset_finite(places, from.to_set());
    lemma_subset_equality(from.to_set(), places);
    assert(places.contains(i));
    assert(from.to_set().contains(i));
    assert(from.contains(i));
}

/// Whether some pair of `sorted` carries the number `i`.
pub open spec fn holds_number(sorted: Seq<(int, Seq<char>)>, i: int) -> bool {
    exists|k: int| 0 <= k < sorted.len() && (#[trigger] sorted[k]).0 == i
}

/// `sorted` lists every line of `lines` once, with its place as its number,
/// so that equal texts stand side by side and in the order of their numbers.
pub open spec fn ordered_by_text(lines: Seq<Seq<char>>, sorted: Seq<(int, Seq<char>)>) -> bool {
    &&& sorted.len() == lines.len()
    &&& forall|k: int|
        0 <= k < sorted.len() ==> 0 <= (#[trigger] sorted[k]).0 < lines.len() && sorted[k].1
            == lines[sorted[k].0]
    &&& forall|j: int, k: int|
        0 <= j < k < sorted.len() ==> (#[trigger] sorted[j]).0 != (#[trigger] sorted[k]).0
    &&& forall|i: int| 0 <= i < lines.len() ==> #[trigger] holds_number(sorted, i)
    &&& forall|j: int, k: int|
        0 <= j < k < sorted.len() && (#[trigger] sorted[j]).1 == (#[trigger] sorted[k]).1
            ==> sorted[j].0 < sorted[k].0
    &&& forall|j: int, m: int, k: int|
        0 <= j <= m <= k < sorted.len() && (#[trigger] sorted[j]).1 == (#[trigger] sorted[k]).1
            ==> (#[trigger] sorted[m]).1 == sorted[k].1
}

/// Whether place `p` of `sorted` starts a run of equal texts.
pub open spec fn is_head(sorted: Seq<(int, Seq<char>)>, p: int) -> bool {
    &&& 0 <= p < sorted.len()
    &&& p == 0 || sorted[p - 1].1 != sorted[p].1
}

/// Sorting the numbered lines by text puts them in the order that
/// [`ordered_by_text`] describes.
pub proof fn lemma_ordered_by_text(
    lines: Seq<Seq<char>>,
    numbered: Seq<(int, Seq<char>)>,
    sorted: Seq<(int, Seq<char>)>,
)
    requires
        numbered.len() == lines.len(),
        forall|i: int| 0 <= i < lines.len() ==> #[trigger] numbered[i] == (i, lines[i]),
        stably_sorted_by_text(numbered, sorted),
    ensures
        ordered_by_text(lines, sorted),
{
    let from = choose|from: Seq<int>|
        #[trigger] rearranged(numbered, sorted, from) && in_text_order(sorted, from);
    assert forall|k: int| 0 <= k < sorted.len() implies (#[trigger] sorted[k]).0 == from[k]
        && sorted[k].1 == lines[from[k]] by {
        assert(0 <= from[k] < numbered.len());
        assert(sorted[k] == numbered[from[k]]);
    }
    assert forall|j: int, k: int| 0 <= j < k < sorted.len() implies (#[trigger] sorted[j]).0 != (
    #[trigger] sorted[k]).0 by {
        assert(from[j] != from[k]);
    }
    assert forall|i: int| 0 <= i < lines.len() implies #[trigger] holds_number(sorted, i) by {
        lemma_rearranged_onto(from, i);
        let k = choose|k: int| 0 <= k < from.len() && #[trigger] from[k] == i;
        assert(sorted[k].0 == i);
    }
    assert forall|j: int, k: int|
        0 <= j < k < sorted.len() && (#[trigger] sorted[j]).1 == (#[trigger] sorted[k]).1
        implies sorted[j].0 < sorted[k].0 by {
        lemma_text_le_reflexive(sorted[k].1);
    }
    assert forall|j: int, m: int, k: int|
        0 <= j <= m <= k < sorted.len() && (#[trigger] sorted[j]).1 == (#[trigger] sorted[k]).1
        implies (#[trigger] sorted[m]).1 == sorted[k].1 by {
        if j < m && m < k {
            assert(text_le(sorted[j].1, sorted[m].1));
            assert(text_le(sorted[m].1, sorted[k].1));
            lemma_text_le_antisymmetric(sorted[m].1, sorted[k].1);
        }
    }
}

/// The line that starts a run of equal texts is the first of its text.
pub proof fn lemma_head_is_first(lines: Seq<Seq<char>>, sorted: Seq<(int, Seq<char>)>, p: int)
    requires
        ordered_by_text(lines, sorted),
        is_head(sorted, p),
    ensures
        is_first(lines, sorted[p].0),
{
    let i = sorted[p].0;
    assert forall|j: int| 0 <= j < i implies lines[j] != lines[i] by {
        if lines[j] == lines[i] {
            assert(holds_number(sorted, j));
            let m = choose|m: int| 0 <= m < sorted.len() && (#[trigger] sorted[m]).0 == j;
            assert(sorted[m].1 == sorted[p].1);
            if m < p {
                assert(sorted[p - 1].1 == sorted[p].1);
            } else if p < m {
                assert(sorted[p].0 < sorted[m].0);
            }
        }
    }
}

/// The first line of its text starts the run of that text.
pub proof fn lemma_first_is_head(lines: Seq<Seq<char>>, sorted: Seq<(int, Seq<char>)>, p: int)
    requires
        ordered_by_text(lines, sorted),
        0 <= p < sorted.len(),
        is_first(lines, sorted[p].0),
    ensures
        is_head(sorted, p),
{
    if p > 0 && sorted[p - 1].1 == sorted[p].1 {
        assert(sorted[p - 1].0 < sorted[p].0);
        assert(lines[sorted[p - 1].0] == lines[sorted[p].0]);
    }
}

/// The heads of the runs, put back in the order of their numbers, spell the
/// lines without their repetitions.
pub proof fn lemma_heads_by_number(
    lines: Seq<Seq<char>>,
    sorted: Seq<(int, Seq<char>)>,
    heads: Seq<int>,
    picked: Seq<(int, Seq<char>)>,
    ordered: Seq<(int, Seq<char>)>,
)
    requires
        ordered_by_text(lines, sorted),
        heads.len() == picked.len(),
        forall|m: int|
            0 <= m < heads.len() ==> is_head(sorted, #[trigger] heads[m]) && picked[m]
                == sorted[heads[m]],
        forall|a: int, b: int| 0 <= a < b < heads.len() ==> #[trigger] heads[a] < #[trigger] heads[b],
        forall|p: int| #[trigger] is_head(sorted, p) ==> heads.contains(p),
        stably_sorted_by_number(picked, ordered),
    ensures
        texts_of(ordered) == unique(lines),
{
    let from = choose|from: Seq<int>|
        #[trigger] rearranged(picked, ordered, from) && in_number_order(ordered, from);
    let at = Seq::new(ordered.len(), |k: int| ordered[k].0);
    let kept = texts_of(ordered);
    assert forall|m: int| 0 <= m < picked.len() implies is_first(lines, (#[trigger] picked[m]).0)
        && picked[m].1 == lines[picked[m].0] by {
        lemma_head_is_first(lines, sorted, heads[m]);
    }
    assert forall|a: int, b: int| 0 <= a < picked.len() && 0 <= b < picked.len() && a != b implies (
    #[trigger] picked[a]).0 != (#[trigger] picked[b]).0 by {
        if a < b {
            assert(heads[a] < heads[b]);
        } else {
            assert(heads[b] < heads[a]);
        }
        assert(sorted[heads[a]].0 != sorted[heads[b]].0);
    }
    assert forall|k: int| 0 <= k < at.len() implies is_first(lines, #[trigger] at[k]) && kept[k]
        == lines[at[k]] by {
        assert(0 <= from[k] < picked.len());
        assert(ordered[k] == picked[from[k]]);
    }
    assert forall|j: int, k: int| 0 <= j < k < at.len() implies #[trigger] at[j] < #[trigger] at[k] by {
        assert(ordered[j].0 <= ordered[k].0);
        assert(from[j] != from[k]);
        assert(ordered[j] == picked[from[j]]);
        assert(ordered[k] == picked[from[k]]);
    }
    assert forall|i: int| #[trigger] is_first(lines, i) implies at.contains(i) by {
        assert(holds_number(sorted, i));
        let p = choose|p: int| 0 <= p < sorted.len() && (#[trigger] sorted[p]).0 == i;
        lemma_first_is_head(lines, sorted, p);
        let m = choose|m: int| 0 <= m < heads.len() && heads[m] == p;
        assert(picked[m].0 == i);
        lemma_rearranged_onto(from, m);
        let k = choose|k: int| 0 <= k < from.len() && #[trigger] from[k] == m;
        assert(ordered[k] == picked[from[k]]);
        assert(at[k] == i);
    }
    lemma_unique_by_first(lines, at, kept);
}

} // verus!
