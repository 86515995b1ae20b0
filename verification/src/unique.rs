//! Dropping repeated elements from a sequence while keeping its order.

use vstd::prelude::*;

verus! {

/// `lines` without its repetitions: of each distinct element the first
/// occurrence stays, and what stays keeps its order.
pub open spec fn unique<A>(lines: Seq<A>) -> Seq<A>
    decreases lines.len(),
{
    if lines.len() == 0 {
        Seq::empty()
    } else {
        let before = unique(lines.drop_last());
        if lines.drop_last().contains(lines.last()) {
            before
        } else {
            before.push(lines.last())
        }
    }
}

/// The elements of `lines` that do not occur in `known`, in their order.
pub open spec fn without<A>(lines: Seq<A>, known: Seq<A>) -> Seq<A>
    decreases lines.len(),
{
    if lines.len() == 0 {
        Seq::empty()
    } else {
        let before = without(lines.drop_last(), known);
        if known.contains(lines.last()) {
            before
        } else {
            before.push(lines.last())
        }
    }
}

/// Whether place `i` of `lines` holds an element that no earlier place holds.
pub open spec fn is_first<A>(lines: Seq<A>, i: int) -> bool {
    &&& 0 <= i < lines.len()
    &&& forall|j: int| 0 <= j < i ==> lines[j] != lines[i]
}

/// What a sequence holds once one more element is pushed.
pub proof fn lemma_push_contains<A>(lines: Seq<A>, last: A, a: A)
    ensures
        lines.push(last).contains(a) <==> lines.contains(a) || a == last,
{
    let longer = lines.push(last);
    if lines.contains(a) {
        let i = choose|i: int| 0 <= i < lines.len() && lines[i] == a;
        assert(longer[i] == a);
    }
    if a == last {
        assert(longer[lines.len() as int] == a);
    }
    if longer.contains(a) {
        let i = choose|i: int| 0 <= i < longer.len() && longer[i] == a;
        if i < lines.len() {
            assert(lines[i] == a);
        }
    }
}

/// A non-empty sequence holds what its front holds, and its last element.
pub proof fn lemma_contains_split<A>(lines: Seq<A>, a: A)
    requires
        lines.len() > 0,
    ensures
        lines.contains(a) <==> lines.drop_last().contains(a) || a == lines.last(),
{
    assert(lines == lines.drop_last().push(lines.last()));
    lemma_push_contains(lines.drop_last(), lines.last(), a);
}

/// Dropping repetitions neither adds nor loses an element.
pub proof fn lemma_unique_contains<A>(lines: Seq<A>, a: A)
    ensures
        unique(lines).contains(a) <==> lines.contains(a),
    decreases lines.len(),
{
    if lines.len() > 0 {
        let front = lines.drop_last();
        lemma_unique_contains(front, a);
        lemma_contains_split(lines, a);
        lemma_push_contains(unique(front), lines.last(), a);
    }
}

/// What is left after dropping repetitions holds nothing twice.
pub proof fn lemma_unique_no_duplicates<A>(lines: Seq<A>)
    ensures
        unique(lines).no_duplicates(),
    decreases lines.len(),
{
    if lines.len() > 0 {
        let front = lines.drop_last();
        lemma_unique_no_duplicates(front);
        lemma_unique_contains(front, lines.last());
        if !front.contains(lines.last()) {
            let kept = unique(front);
            let longer = kept.push(lines.last());
            assert forall|i: int, j: int|
                0 <= i < longer.len() && 0 <= j < longer.len() && i != j implies longer[i]
                != longer[j] by {
                if i < kept.len() && j < kept.len() {
                    assert(kept[i] != kept[j]);
                } else if i < kept.len() {
                    assert(kept[i] == longer[i]);
                } else {
                    assert(kept[j] == longer[j]);
                }
            }
        }
    }
}

/// A sequence that holds nothing twice is left as it is.
pub proof fn law_unique_keeps_distinct<A>(lines: Seq<A>)
    requires
        lines.no_duplicates(),
    ensures
        unique(lines) == lines,
    decreases lines.len(),
{
    if lines.len() > 0 {
        let front = lines.drop_last();
        assert forall|i: int, j: int|
            0 <= i < front.len() && 0 <= j < front.len() && i != j implies front[i]
            != front[j] by {
            assert(lines[i] != lines[j]);
        }
        law_unique_keeps_distinct(front);
        if front.contains(lines.last()) {
            let i = choose|i: int| 0 <= i < front.len() && front[i] == lines.last();
            assert(lines[i] != lines[lines.len() - 1]);
        }
        assert(lines == front.push(lines.last()));
    }
}

/// Dropping repetitions a second time changes nothing.
pub proof fn law_unique_idempotent<A>(lines: Seq<A>)
    ensures
        unique(unique(lines)) == unique(lines),
{
    lemma_unique_no_duplicates(lines);
    law_unique_keeps_distinct(unique(lines));
}

/// Dropping the repetitions of two sequences laid end to end keeps the first
/// without its repetitions, then what the second adds to it.
pub proof fn lemma_unique_concat<A>(first: Seq<A>, second: Seq<A>)
    ensures
        unique(first + second) == unique(first) + without(unique(second), first),
    decreases second.len(),
{
    if second.len() == 0 {
        assert(first + second == first);
        assert(unique(first) + Seq::<A>::empty() == unique(first));
    } else {
        let front = second.drop_last();
        let last = second.last();
        let added = without(unique(front), first);
        lemma_unique_concat(first, front);
        assert((first + second).drop_last() == first + front);
        assert((first + second).last() == last);
        assert((first + front).contains(last) <==> first.contains(last) || front.contains(last))
            by {
            if first.contains(last) {
                let i = choose|i: int| 0 <= i < first.len() && first[i] == last;
                assert((first + front)[i] == last);
            }
            if front.contains(last) {
                let i = choose|i: int| 0 <= i < front.len() && front[i] == last;
                assert((first + front)[first.len() + i] == last);
            }
            if (first + front).contains(last) {
                let i = choose|i: int| 0 <= i < (first + front).len() && (first + front)[i] == last;
                if i < first.len() {
                    assert(first[i] == last);
                } else {
                    assert(front[i - first.len()] == last);
                }
            }
        }
        if !front.contains(last) {
            let longer = unique(front).push(last);
            assert(longer.drop_last() == unique(front));
            assert(longer.last() == last);
            if !first.contains(last) {
                assert((unique(first) + added).push(last) == unique(first) + added.push(last));
            }
        }
    }
}

/// Which elements are left out depends only on which elements are known.
pub proof fn lemma_without_same_elements<A>(lines: Seq<A>, known: Seq<A>, other: Seq<A>)
    requires
        forall|a: A| known.contains(a) <==> other.contains(a),
    ensures
        without(lines, known) == without(lines, other),
    decreases lines.len(),
{
    if lines.len() > 0 {
        lemma_without_same_elements(lines.drop_last(), known, other);
    }
}

/// Merging two lists that hold nothing twice, by laying them end to end and
/// dropping repetitions, keeps every element of the first in its order,
/// followed by the elements of the second that the first does not hold, in
/// their order. No element of either is lost, and the outcome is that of
/// dropping the repetitions of the two lists as they were, laid end to end.
pub proof fn law_unique_merge<A>(first: Seq<A>, second: Seq<A>)
    ensures
        unique(unique(first) + unique(second)) == unique(first) + without(unique(second), first),
        unique(unique(first) + unique(second)) == unique(first + second),
{
    let one = unique(first);
    let two = unique(second);
    lemma_unique_concat(one, two);
    law_unique_idempotent(first);
    law_unique_idempotent(second);
    assert forall|a: A| one.contains(a) <==> first.contains(a) by {
        lemma_unique_contains(first, a);
    }
    lemma_without_same_elements(two, one, first);
    lemma_unique_concat(first, second);
}

/// The first occurrences of a sequence, read off in rising order of their
/// places, are the sequence without its repetitions.
pub proof fn lemma_unique_by_first<A>(lines: Seq<A>, at: Seq<int>, kept: Seq<A>)
    requires
        at.len() == kept.len(),
        forall|k: int|
            0 <= k < at.len() ==> is_first(lines, #[trigger] at[k]) && kept[k] == lines[at[k]],
        forall|j: int, k: int| 0 <= j < k < at.len() ==> #[trigger] at[j] < #[trigger] at[k],
        forall|i: int| #[trigger] is_first(lines, i) ==> at.contains(i),
    ensures
        kept == unique(lines),
    decreases lines.len(),
{
    if lines.len() == 0 {
        if at.len() > 0 {
            assert(is_first(lines, at[0]));
        }
        assert(kept == Seq::<A>::empty());
    } else {
        let n = lines.len() as int;
        let front = lines.drop_last();
        let last = lines.last();
        assert forall|i: int| is_first(front, i) <==> (i < n - 1 && is_first(lines, i)) by {
            if 0 <= i < n - 1 {
                assert(front[i] == lines[i]);
                if is_first(lines, i) {
                    assert forall|j: int| 0 <= j < i implies front[j] != front[i] by {
                        assert(lines[j] != lines[i]);
                    }
                }
                if is_first(front, i) {
                    assert forall|j: int| 0 <= j < i implies lines[j] != lines[i] by {
                        assert(front[j] != front[i]);
                    }
                }
            }
        }
        if is_first(lines, n - 1) {
            let k = choose|k: int| 0 <= k < at.len() && at[k] == n - 1;
            if k < at.len() - 1 {
                assert(at[k] < at[at.len() - 1]);
                assert(is_first(lines, at[at.len() - 1]));
            }
            let at_front = at.drop_last();
            let kept_front = kept.drop_last();
            assert forall|m: int| 0 <= m < at_front.len() implies is_first(
                front,
                #[trigger] at_front[m],
            ) && kept_front[m] == front[at_front[m]] by {
                assert(at[m] < at[at.len() - 1]);
                assert(is_first(lines, at[m]));
            }
            assert forall|i: int| #[trigger] is_first(front, i) implies at_front.contains(i) by {
                assert(is_first(lines, i));
                let m = choose|m: int| 0 <= m < at.len() && at[m] == i;
                assert(at_front[m] == i);
            }
            lemma_unique_by_first(front, at_front, kept_front);
            if front.contains(last) {
                let j = choose|j: int| 0 <= j < front.len() && front[j] == last;
                assert(lines[j] != lines[n - 1]);
            }
            assert(kept == kept_front.push(kept.last()));
        } else {
            assert forall|m: int| 0 <= m < at.len() implies is_first(front, #[trigger] at[m])
                && kept[m] == front[at[m]] by {
                assert(is_first(lines, at[m]));
            }
            assert forall|i: int| #[trigger] is_first(front, i) implies at.contains(i) by {
                assert(is_first(lines, i));
            }
            lemma_unique_by_first(front, at, kept);
            let j = choose|j: int| 0 <= j < n - 1 && #[trigger] lines[j] == last;
            assert(front[j] == last);
        }
    }
}

} // verus!
