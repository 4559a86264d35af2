//! The order of a batch: by result, smallest first, and among equal results
//! by place in the batch. What has no number for a result comes last.

use crate::expression::{Expression, ExpressionView};
use vstd::prelude::*;

verus! {

/// No expression stands before one of a smaller key.
pub open spec fn ordered(s: Seq<ExpressionView>) -> bool {
    forall|i: int, j: int| 0 <= i < j < s.len() ==> s[i].rank() <= s[j].rank()
}

/// The expressions of one key.
pub open spec fn ranked(key: int) -> spec_fn(ExpressionView) -> bool {
    |e: ExpressionView| e.rank() == key
}

/// For every key, the expressions of that key are the same in `a` and in
/// `b`, and stand in the same order. Then `a` holds exactly the expressions
/// of `b`, each as often, and expressions of equal key have kept their
/// places relative to each other.
pub open spec fn same_groups(a: Seq<ExpressionView>, b: Seq<ExpressionView>) -> bool {
    forall|key: int| #[trigger] a.filter(ranked(key)) == b.filter(ranked(key))
}

/// `s`, which is ordered, with `e` put behind every expression whose key is
/// not greater.
pub open spec fn inserted(s: Seq<ExpressionView>, e: ExpressionView) -> Seq<ExpressionView>
    decreases s.len(),
{
    if s.len() == 0 || s.last().rank() <= e.rank() {
        s.push(e)
    } else {
        inserted(s.drop_last(), e).push(s.last())
    }
}

/// The expressions of `s` in order of their keys, those of equal key in the
/// order they have in `s`.
pub open spec fn stable_sort(s: Seq<ExpressionView>) -> Seq<ExpressionView>
    decreases s.len(),
{
    if s.len() == 0 {
        s
    } else {
        inserted(stable_sort(s.drop_last()), s.last())
    }
}

/// No two expressions have the same key.
pub open spec fn distinct_keys(s: Seq<ExpressionView>) -> bool {
    forall|i: int, j: int| 0 <= i < j < s.len() ==> s[i].rank() != s[j].rank()
}

/// Every expression has a smaller key than those behind it.
pub open spec fn ascending(s: Seq<ExpressionView>) -> bool {
    forall|i: int, j: int| 0 <= i < j < s.len() ==> s[i].rank() < s[j].rank()
}

/// What a filter keeps of a sequence is what it keeps of all but the last
/// element, and the last element where it passes.
proof fn lemma_filter_last(s: Seq<ExpressionView>, keep: spec_fn(ExpressionView) -> bool)
    requires
        s.len() > 0,
    ensures
        s.filter(keep) == if keep(s.last()) {
            s.drop_last().filter(keep).push(s.last())
        } else {
            s.drop_last().filter(keep)
        },
{
    reveal(Seq::filter);
}

/// A key has expressions in `s` exactly when some expression of `s` has it.
proof fn lemma_group_members(s: Seq<ExpressionView>, key: int)
    ensures
        s.filter(ranked(key)).len() > 0 <==> exists|i: int|
            0 <= i < s.len() && (#[trigger] s[i]).rank() == key,
{
    let group = s.filter(ranked(key));
    if group.len() > 0 {
        s.lemma_filter_pred(ranked(key), 0);
        assert(group.contains(group[0]));
        s.lemma_filter_contains_rev(ranked(key), group[0]);
        let i = choose|i: int| 0 <= i < s.len() && s[i] == group[0];
        assert(s[i].rank() == key);
    }
    if exists|i: int| 0 <= i < s.len() && (#[trigger] s[i]).rank() == key {
        let i = choose|i: int| 0 <= i < s.len() && (#[trigger] s[i]).rank() == key;
        s.lemma_filter_contains(ranked(key), i);
    }
}

/// Two ordered sequences with the same groups are the same sequence: the
/// order by key, stable among equal keys, is unique.
pub proof fn lemma_ordering_is_unique(a: Seq<ExpressionView>, b: Seq<ExpressionView>)
    requires
        ordered(a),
        ordered(b),
        same_groups(a, b),
    ensures
        a == b,
    decreases a.len(),
{
    if a.len() == 0 {
        if b.len() > 0 {
            let key = b[0].rank();
            lemma_group_members(b, key);
            lemma_group_members(a, key);
            assert(a.filter(ranked(key)) == b.filter(ranked(key)));
        }
        assert(a =~= b);
    } else {
        let x = a.last();
        let m = x.rank();
        lemma_filter_last(a, ranked(m));
        assert(a.filter(ranked(m)) == b.filter(ranked(m)));
        lemma_group_members(b, m);
        let y = b.last();
        let n = y.rank();
        lemma_filter_last(b, ranked(n));
        assert(a.filter(ranked(n)) == b.filter(ranked(n)));
        lemma_group_members(a, n);
        assert(m == n);
        assert(a.filter(ranked(m)).last() == x);
        assert(b.filter(ranked(m)).last() == y);
        let a1 = a.drop_last();
        let b1 = b.drop_last();
        assert forall|key: int| #[trigger] a1.filter(ranked(key)) == b1.filter(ranked(key)) by {
            lemma_filter_last(a, ranked(key));
            lemma_filter_last(b, ranked(key));
            assert(a.filter(ranked(key)) == b.filter(ranked(key)));
            if key == m {
                assert(a1.filter(ranked(key)) == a.filter(ranked(key)).drop_last());
                assert(b1.filter(ranked(key)) == b.filter(ranked(key)).drop_last());
            }
        }
        lemma_ordering_is_unique(a1, b1);
        assert(a =~= a1.push(x));
        assert(b =~= b1.push(y));
    }
}

/// Putting an expression into an ordered sequence keeps it ordered, and
/// adds that expression and nothing else.
pub proof fn lemma_inserted(s: Seq<ExpressionView>, e: ExpressionView)
    ensures
        inserted(s, e).len() == s.len() + 1,
        ordered(s) ==> ordered(inserted(s, e)),
        forall|i: int|
            0 <= i < inserted(s, e).len() ==> (#[trigger] inserted(s, e)[i]) == e || s.contains(
                inserted(s, e)[i],
            ),
        forall|key: int| #[trigger]
            inserted(s, e).filter(ranked(key)) == s.push(e).filter(ranked(key)),
    decreases s.len(),
{
    let out = inserted(s, e);
    if s.len() == 0 || s.last().rank() <= e.rank() {
        assert forall|i: int| 0 <= i < out.len() implies (#[trigger] out[i]) == e || s.contains(
            out[i],
        ) by {
            if i < s.len() {
                assert(out[i] == s[i]);
            }
        }
    } else {
        let rest = s.drop_last();
        let y = s.last();
        let inner = inserted(rest, e);
        lemma_inserted(rest, e);
        assert(out == inner.push(y));
        assert forall|i: int| 0 <= i < out.len() implies (#[trigger] out[i]) == e || s.contains(
            out[i],
        ) by {
            if i < inner.len() {
                assert(out[i] == inner[i]);
                if inner[i] != e {
                    let j = choose|j: int| 0 <= j < rest.len() && rest[j] == inner[i];
                    assert(s[j] == inner[i]);
                }
            } else {
                assert(out[i] == s[s.len() - 1]);
            }
        }
        if ordered(s) {
            assert(ordered(rest));
            assert forall|i: int, j: int| 0 <= i < j < out.len() implies out[i].rank()
                <= out[j].rank() by {
                if j < inner.len() {
                    assert(out[i] == inner[i] && out[j] == inner[j]);
                } else {
                    assert(out[i] == inner[i]);
                    if inner[i] != e {
                        let k = choose|k: int| 0 <= k < rest.len() && rest[k] == inner[i];
                        assert(s[k] == inner[i]);
                    }
                }
            }
        }
        assert forall|key: int| #[trigger]
            out.filter(ranked(key)) == s.push(e).filter(ranked(key)) by {
            lemma_filter_last(out, ranked(key));
            assert(out.drop_last() == inner);
            lemma_filter_last(rest.push(e), ranked(key));
            assert(rest.push(e).drop_last() == rest);
            lemma_filter_last(s.push(e), ranked(key));
            assert(s.push(e).drop_last() == s);
            lemma_filter_last(s, ranked(key));
        }
    }
}

/// The stable sort of a sequence is ordered and has the groups of the
/// sequence.
pub proof fn lemma_stable_sort(s: Seq<ExpressionView>)
    ensures
        ordered(stable_sort(s)),
        same_groups(stable_sort(s), s),
        stable_sort(s).len() == s.len(),
    decreases s.len(),
{
    if s.len() > 0 {
        let rest = s.drop_last();
        lemma_stable_sort(rest);
        lemma_inserted(stable_sort(rest), s.last());
        assert forall|key: int| #[trigger]
            stable_sort(s).filter(ranked(key)) == s.filter(ranked(key)) by {
            lemma_filter_last(stable_sort(rest).push(s.last()), ranked(key));
            assert(stable_sort(rest).push(s.last()).drop_last() == stable_sort(rest));
            assert(stable_sort(rest).filter(ranked(key)) == rest.filter(ranked(key)));
            lemma_filter_last(s, ranked(key));
        }
    }
}

/// An ordered sequence with the groups of `s` is the stable sort of `s`.
pub proof fn lemma_stable_sort_is(sorted: Seq<ExpressionView>, s: Seq<ExpressionView>)
    requires
        ordered(sorted),
        same_groups(sorted, s),
    ensures
        sorted == stable_sort(s),
{
    lemma_stable_sort(s);
    assert forall|key: int| #[trigger]
        sorted.filter(ranked(key)) == stable_sort(s).filter(ranked(key)) by {
        assert(sorted.filter(ranked(key)) == s.filter(ranked(key)));
        assert(stable_sort(s).filter(ranked(key)) == s.filter(ranked(key)));
    }
    lemma_ordering_is_unique(sorted, stable_sort(s));
}

/// Filtering by one condition and then by another keeps what filtering
/// the other way round keeps.
proof fn lemma_filter_twice(
    s: Seq<ExpressionView>,
    first: spec_fn(ExpressionView) -> bool,
    second: spec_fn(ExpressionView) -> bool,
)
    ensures
        s.filter(first).filter(second) == s.filter(second).filter(first),
    decreases s.len(),
{
    if s.len() == 0 {
        reveal(Seq::filter);
    } else {
        let rest = s.drop_last();
        let x = s.last();
        lemma_filter_twice(rest, first, second);
        lemma_filter_last(s, first);
        lemma_filter_last(s, second);
        rest.filter(first).lemma_filter_push(x, second);
        rest.filter(second).lemma_filter_push(x, first);
    }
}

/// What a filter keeps of an ordered sequence is ordered.
pub proof fn lemma_filter_keeps_order(s: Seq<ExpressionView>, keep: spec_fn(ExpressionView) -> bool)
    requires
        ordered(s),
    ensures
        ordered(s.filter(keep)),
    decreases s.len(),
{
    if s.len() == 0 {
        reveal(Seq::filter);
    } else {
        let rest = s.drop_last();
        let x = s.last();
        lemma_filter_keeps_order(rest, keep);
        lemma_filter_last(s, keep);
        let kept = rest.filter(keep);
        let out = s.filter(keep);
        assert forall|i: int, j: int| 0 <= i < j < out.len() implies out[i].rank()
            <= out[j].rank() by {
            if j < kept.len() {
                assert(out[i] == kept[i] && out[j] == kept[j]);
            } else {
                assert(out[i] == kept[i]);
                assert(kept.contains(kept[i]));
                rest.lemma_filter_contains_rev(keep, kept[i]);
                let k = choose|k: int| 0 <= k < rest.len() && rest[k] == kept[i];
                assert(s[k] == rest[k]);
            }
        }
    }
}

/// Ordering and leaving out can be done in either order: what a filter
/// keeps of the ordered batch is the ordered batch of what it keeps.
pub proof fn lemma_sort_filter_commute(
    s: Seq<ExpressionView>,
    keep: spec_fn(ExpressionView) -> bool,
)
    ensures
        stable_sort(s).filter(keep) == stable_sort(s.filter(keep)),
{
    let a = stable_sort(s).filter(keep);
    let b = stable_sort(s.filter(keep));
    lemma_stable_sort(s);
    lemma_stable_sort(s.filter(keep));
    lemma_filter_keeps_order(stable_sort(s), keep);
    assert forall|key: int| #[trigger] a.filter(ranked(key)) == b.filter(ranked(key)) by {
        lemma_filter_twice(stable_sort(s), keep, ranked(key));
        lemma_filter_twice(s, keep, ranked(key));
        assert(stable_sort(s).filter(ranked(key)) == s.filter(ranked(key)));
        assert(b.filter(ranked(key)) == s.filter(keep).filter(ranked(key)));
    }
    lemma_ordering_is_unique(a, b);
}

/// Ordering leaves an ordered batch as it is. So ordering twice is
/// ordering once.
pub proof fn lemma_stable_sort_fixes_ordered(s: Seq<ExpressionView>)
    requires
        ordered(s),
    ensures
        stable_sort(s) == s,
        stable_sort(stable_sort(s)) == stable_sort(s),
{
    lemma_stable_sort_is(s, s);
}

/// Ordering twice is ordering once.
pub proof fn lemma_stable_sort_idempotent(s: Seq<ExpressionView>)
    ensures
        stable_sort(stable_sort(s)) == stable_sort(s),
{
    lemma_stable_sort(s);
    lemma_stable_sort_fixes_ordered(stable_sort(s));
}

/// Putting an expression into a sequence adds it to what the sequence holds.
proof fn lemma_inserted_holds(s: Seq<ExpressionView>, e: ExpressionView)
    ensures
        inserted(s, e).to_multiset() == s.to_multiset().insert(e),
    decreases s.len(),
{
    broadcast use vstd::seq_lib::to_multiset_build;

    if s.len() == 0 || s.last().rank() <= e.rank() {
    } else {
        let rest = s.drop_last();
        let y = s.last();
        lemma_inserted_holds(rest, e);
        assert(s =~= rest.push(y));
        assert(inserted(s, e).to_multiset() =~= s.to_multiset().insert(e));
    }
}

/// The ordered batch holds exactly the expressions of the batch, each as
/// often as the batch holds it.
pub proof fn lemma_stable_sort_permutes(s: Seq<ExpressionView>)
    ensures
        stable_sort(s).to_multiset() == s.to_multiset(),
    decreases s.len(),
{
    broadcast use vstd::seq_lib::to_multiset_build;

    if s.len() > 0 {
        let rest = s.drop_last();
        lemma_stable_sort_permutes(rest);
        lemma_inserted_holds(stable_sort(rest), s.last());
        assert(s =~= rest.push(s.last()));
    }
}

/// Sequences with the same groups hold the same expressions, each as
/// often.
pub proof fn lemma_same_groups_permute(a: Seq<ExpressionView>, b: Seq<ExpressionView>)
    requires
        same_groups(a, b),
    ensures
        a.to_multiset() == b.to_multiset(),
{
    lemma_stable_sort(a);
    lemma_stable_sort(b);
    assert forall|key: int| #[trigger]
        stable_sort(a).filter(ranked(key)) == stable_sort(b).filter(ranked(key)) by {
        assert(stable_sort(a).filter(ranked(key)) == a.filter(ranked(key)));
        assert(a.filter(ranked(key)) == b.filter(ranked(key)));
        assert(stable_sort(b).filter(ranked(key)) == b.filter(ranked(key)));
    }
    lemma_ordering_is_unique(stable_sort(a), stable_sort(b));
    lemma_stable_sort_permutes(a);
    lemma_stable_sort_permutes(b);
}

/// Every expression of the ordered batch is one of the batch, and every
/// expression of the batch is in the ordered batch.
pub proof fn lemma_stable_sort_members(s: Seq<ExpressionView>, e: ExpressionView)
    ensures
        stable_sort(s).contains(e) <==> s.contains(e),
{
    lemma_stable_sort(s);
    let key = e.rank();
    assert(stable_sort(s).filter(ranked(key)) == s.filter(ranked(key)));
    if s.contains(e) {
        let i = choose|i: int| 0 <= i < s.len() && s[i] == e;
        s.lemma_filter_contains(ranked(key), i);
        stable_sort(s).lemma_filter_contains_rev(ranked(key), e);
    }
    if stable_sort(s).contains(e) {
        let i = choose|i: int| 0 <= i < stable_sort(s).len() && stable_sort(s)[i] == e;
        stable_sort(s).lemma_filter_contains(ranked(key), i);
        s.lemma_filter_contains_rev(ranked(key), e);
    }
}

/// Where no two results have the same key, the ordered batch is strictly
/// ascending.
pub proof fn lemma_distinct_keys_ascend(s: Seq<ExpressionView>)
    requires
        distinct_keys(s),
    ensures
        ascending(stable_sort(s)),
{
    lemma_stable_sort(s);
    let sorted = stable_sort(s);
    assert forall|i: int, j: int| 0 <= i < j < sorted.len() implies sorted[i].rank()
        < sorted[j].rank() by {
        let key = sorted[i].rank();
        if sorted[j].rank() == key {
            // Two expressions of one key in the ordered batch are two in the batch.
            let group = sorted.filter(ranked(key));
            lemma_two_in_group(sorted, key, i, j);
            assert(group == s.filter(ranked(key)));
            lemma_group_of_two(s, key);
        }
    }
}

/// Two expressions of a key make a group of two or more.
proof fn lemma_two_in_group(s: Seq<ExpressionView>, key: int, i: int, j: int)
    requires
        0 <= i < j < s.len(),
        s[i].rank() == key,
        s[j].rank() == key,
    ensures
        s.filter(ranked(key)).len() >= 2,
    decreases s.len(),
{
    lemma_filter_last(s, ranked(key));
    let rest = s.drop_last();
    if j == s.len() - 1 {
        assert(rest[i] == s[i]);
        lemma_group_members(rest, key);
    } else {
        assert(rest[i] == s[i] && rest[j] == s[j]);
        lemma_two_in_group(rest, key, i, j);
    }
}

/// A group of two or more comes from two expressions of its key.
proof fn lemma_group_of_two(s: Seq<ExpressionView>, key: int)
    requires
        s.filter(ranked(key)).len() >= 2,
    ensures
        exists|i: int, j: int|
            0 <= i < j < s.len() && (#[trigger] s[i]).rank() == key && (#[trigger] s[j]).rank()
                == key,
    decreases s.len(),
{
    if s.len() == 0 {
        reveal(Seq::filter);
    } else {
        lemma_filter_last(s, ranked(key));
        let rest = s.drop_last();
        if s.last().rank() == key {
            lemma_group_members(rest, key);
            let i = choose|i: int| 0 <= i < rest.len() && (#[trigger] rest[i]).rank() == key;
            assert(s[i] == rest[i]);
            assert(s[i].rank() == key && s[s.len() - 1].rank() == key);
        } else {
            lemma_group_of_two(rest, key);
            let (i, j) = choose|i: int, j: int|
                0 <= i < j < rest.len() && (#[trigger] rest[i]).rank() == key && (
                #[trigger] rest[j]).rank() == key;
            assert(s[i] == rest[i] && s[j] == rest[j]);
            assert(s[i].rank() == key && s[j].rank() == key);
        }
    }
}

/// A merge under way. Of `left` the first `l` expressions are still to be
/// merged, of `right` the first `r`; `tail` is the merged end of the result.
#[verifier::opaque]
spec fn merging(
    left: Seq<ExpressionView>,
    right: Seq<ExpressionView>,
    l: int,
    r: int,
    tail: Seq<ExpressionView>,
) -> bool {
    &&& 0 <= l <= left.len()
    &&& 0 <= r <= right.len()
    &&& ordered(left)
    &&& ordered(right)
    &&& ordered(tail)
    &&& tail.len() > 0 ==> forall|i: int|
        0 <= i < l ==> (#[trigger] left[i]).rank() <= tail[0].rank()
    &&& tail.len() > 0 ==> forall|j: int|
        0 <= j < r ==> (#[trigger] right[j]).rank() <= tail[0].rank()
    &&& forall|i: int, j: int|
        l <= i < left.len() && 0 <= j < r ==> (#[trigger] left[i]).rank() > (
        #[trigger] right[j]).rank()
    &&& forall|key: int| #[trigger]
        tail.filter(ranked(key)) == left.skip(l).filter(ranked(key)) + right.skip(r).filter(
            ranked(key),
        )
}

proof fn lemma_merging_start(left: Seq<ExpressionView>, right: Seq<ExpressionView>)
    requires
        ordered(left),
        ordered(right),
    ensures
        merging(left, right, left.len() as int, right.len() as int, Seq::empty()),
{
    reveal(merging);
    reveal(Seq::filter);
    let tail = Seq::<ExpressionView>::empty();
    assert(left.skip(left.len() as int) =~= tail);
    assert(right.skip(right.len() as int) =~= tail);
    assert forall|key: int| #[trigger]
        tail.filter(ranked(key)) == left.skip(left.len() as int).filter(ranked(key)) + right.skip(
            right.len() as int,
        ).filter(ranked(key)) by {
        assert(tail.filter(ranked(key)) =~= tail + tail);
    }
}

proof fn lemma_merging_end(
    left: Seq<ExpressionView>,
    right: Seq<ExpressionView>,
    tail: Seq<ExpressionView>,
)
    requires
        merging(left, right, 0, 0, tail),
    ensures
        ordered(tail),
        forall|key: int| #[trigger]
            tail.filter(ranked(key)) == left.filter(ranked(key)) + right.filter(ranked(key)),
{
    reveal(merging);
    assert(left.skip(0) =~= left);
    assert(right.skip(0) =~= right);
}

/// The last expression of `left` that is still to be merged goes before
/// the merged end where nothing is left of `right`, or its key is greater
/// than that of the last of `right`.
proof fn lemma_merging_takes_left(
    left: Seq<ExpressionView>,
    right: Seq<ExpressionView>,
    l: int,
    r: int,
    tail: Seq<ExpressionView>,
)
    requires
        merging(left, right, l, r, tail),
        l > 0,
        r > 0 ==> 0 < r <= right.len() && left[l - 1].rank() > right[r - 1].rank(),
    ensures
        merging(left, right, l - 1, r, seq![left[l - 1]] + tail),
{
    reveal(merging);
    let e = left[l - 1];
    let next = seq![e] + tail;
    assert(left.skip(l - 1) =~= seq![e] + left.skip(l));
    assert forall|key: int| #[trigger]
        next.filter(ranked(key)) == left.skip(l - 1).filter(ranked(key)) + right.skip(r).filter(
            ranked(key),
        ) by {
        tail.lemma_filter_prepend(e, ranked(key));
        left.skip(l).lemma_filter_prepend(e, ranked(key));
        assert(tail.filter(ranked(key)) == left.skip(l).filter(ranked(key)) + right.skip(r).filter(
            ranked(key),
        ));
        assert(next.filter(ranked(key)) =~= left.skip(l - 1).filter(ranked(key)) + right.skip(
            r,
        ).filter(ranked(key)));
    }
    assert forall|i: int, j: int| 0 <= i < j < next.len() implies next[i].rank()
        <= next[j].rank() by {
        if i > 0 {
            assert(next[i] == tail[i - 1] && next[j] == tail[j - 1]);
        } else {
            assert(next[j] == tail[j - 1]);
            assert(tail[0].rank() <= tail[j - 1].rank());
        }
    }
    assert(next[0] == e);
    assert forall|j: int| 0 <= j < r implies (#[trigger] right[j]).rank() <= next[0].rank() by {
        assert(right[j].rank() <= right[r - 1].rank());
    }
    assert forall|i: int, j: int| l - 1 <= i < left.len() && 0 <= j < r implies (
    #[trigger] left[i]).rank() > (#[trigger] right[j]).rank() by {
        if i == l - 1 {
            assert(right[j].rank() <= right[r - 1].rank());
        }
    }
}

/// The last expression of `right` that is still to be merged goes before
/// the merged end where nothing is left of `left`, or its key is not
/// smaller than that of the last of `left`.
proof fn lemma_merging_takes_right(
    left: Seq<ExpressionView>,
    right: Seq<ExpressionView>,
    l: int,
    r: int,
    tail: Seq<ExpressionView>,
)
    requires
        merging(left, right, l, r, tail),
        r > 0,
        l > 0 ==> 0 < l <= left.len() && left[l - 1].rank() <= right[r - 1].rank(),
    ensures
        merging(left, right, l, r - 1, seq![right[r - 1]] + tail),
{
    reveal(merging);
    let e = right[r - 1];
    let next = seq![e] + tail;
    assert(right.skip(r - 1) =~= seq![e] + right.skip(r));
    assert forall|key: int| #[trigger]
        next.filter(ranked(key)) == left.skip(l).filter(ranked(key)) + right.skip(r - 1).filter(
            ranked(key),
        ) by {
        tail.lemma_filter_prepend(e, ranked(key));
        right.skip(r).lemma_filter_prepend(e, ranked(key));
        assert(tail.filter(ranked(key)) == left.skip(l).filter(ranked(key)) + right.skip(r).filter(
            ranked(key),
        ));
        if e.rank() == key {
            // What was taken from the left has a greater key than `e`.
            lemma_group_members(left.skip(l), key);
            if left.skip(l).filter(ranked(key)).len() > 0 {
                let i = choose|i: int|
                    0 <= i < left.skip(l).len() && (#[trigger] left.skip(l)[i]).rank() == key;
                assert(left.skip(l)[i] == left[l + i]);
                assert(left[l + i].rank() > right[r - 1].rank());
            }
            assert(left.skip(l).filter(ranked(key)) =~= Seq::<ExpressionView>::empty());
        }
        assert(next.filter(ranked(key)) =~= left.skip(l).filter(ranked(key)) + right.skip(
            r - 1,
        ).filter(ranked(key)));
    }
    assert forall|i: int, j: int| 0 <= i < j < next.len() implies next[i].rank()
        <= next[j].rank() by {
        if i > 0 {
            assert(next[i] == tail[i - 1] && next[j] == tail[j - 1]);
        } else {
            assert(next[j] == tail[j - 1]);
            assert(tail[0].rank() <= tail[j - 1].rank());
        }
    }
    assert(next[0] == e);
    assert forall|i: int| 0 <= i < l implies (#[trigger] left[i]).rank() <= next[0].rank() by {
        assert(left[i].rank() <= left[l - 1].rank());
    }
}

/// Merges two ordered batches into one. Where an expression of `left` and
/// one of `right` have the same key, that of `left` comes first.
fn merge(left: Vec<Expression>, right: Vec<Expression>) -> (out: Vec<Expression>)
    requires
        ordered(left.deep_view()),
        ordered(right.deep_view()),
    ensures
        ordered(out.deep_view()),
        forall|key: int| #[trigger]
            out.deep_view().filter(ranked(key)) == left.deep_view().filter(ranked(key))
                + right.deep_view().filter(ranked(key)),
{
    let mut left = left;
    let mut right = right;
    let ghost l0 = left.deep_view();
    let ghost r0 = right.deep_view();
    // The merged batch is built from its end: the greatest comes first, and
    // `tail` is what `reversed` holds, read from its end to its start.
    let mut reversed: Vec<Expression> = Vec::new();
    let ghost mut tail: Seq<ExpressionView> = Seq::empty();
    proof {
        lemma_merging_start(l0, r0);
        assert(l0.take(l0.len() as int) =~= l0);
        assert(r0.take(r0.len() as int) =~= r0);
    }
    while left.len() > 0 || right.len() > 0
        invariant
            left.len() <= l0.len(),
            right.len() <= r0.len(),
            left.deep_view() == l0.take(left.len() as int),
            right.deep_view() == r0.take(right.len() as int),
            reversed.len() == tail.len(),
            forall|i: int|
                0 <= i < tail.len() ==> #[trigger] reversed.deep_view()[i] == tail[tail.len() - 1
                    - i],
            merging(l0, r0, left.len() as int, right.len() as int, tail),
        decreases left.len() + right.len(),
    {
        let ghost l = left.len() as int;
        let ghost r = right.len() as int;
        let ghost before = reversed.deep_view();
        let ghost old_tail = tail;
        let from_left = if right.len() == 0 {
            true
        } else if left.len() == 0 {
            false
        } else {
            assert(left.deep_view()[l - 1] == l0[l - 1]);
            assert(right.deep_view()[r - 1] == r0[r - 1]);
            left[left.len() - 1].rank() > right[right.len() - 1].rank()
        };
        if from_left {
            let ghost held = left.deep_view();
            let x = left.pop().unwrap();
            proof {
                assert(x@ == held[l - 1]);
                assert(left.deep_view() =~= l0.take(l - 1));
                lemma_merging_takes_left(l0, r0, l, r, old_tail);
                tail = seq![x@] + old_tail;
            }
            reversed.push(x);
            assert(reversed.deep_view() =~= before.push(x@));
        } else {
            let ghost held = right.deep_view();
            let x = right.pop().unwrap();
            proof {
                assert(x@ == held[r - 1]);
                assert(right.deep_view() =~= r0.take(r - 1));
                lemma_merging_takes_right(l0, r0, l, r, old_tail);
                tail = seq![x@] + old_tail;
            }
            reversed.push(x);
            assert(reversed.deep_view() =~= before.push(x@));
        }
    }
    let mut out: Vec<Expression> = Vec::new();
    proof {
        lemma_merging_end(l0, r0, tail);
        assert(out.deep_view() =~= tail.take(0));
    }
    while reversed.len() > 0
        invariant
            reversed.len() + out.len() == tail.len(),
            out.deep_view() == tail.take(out.len() as int),
            forall|i: int|
                0 <= i < reversed.len() ==> #[trigger] reversed.deep_view()[i] == tail[tail.len()
                    - 1 - i],
        decreases reversed.len(),
    {
        let ghost held = reversed.deep_view();
        let ghost done = out.deep_view();
        let x = reversed.pop().unwrap();
        proof {
            assert(x@ == held[held.len() - 1]);
            assert forall|i: int| 0 <= i < reversed.len() implies #[trigger] reversed.deep_view()[i]
                == tail[tail.len() - 1 - i] by {
                assert(reversed.deep_view()[i] == held[i]);
            }
        }
        out.push(x);
        assert(out.deep_view() =~= done.push(x@));
        assert(out.deep_view() =~= tail.take(out.len() as int));
    }
    assert(tail.take(tail.len() as int) =~= tail);
    out
}

/// Orders a batch by merging its ordered halves.
fn merge_sort(list: Vec<Expression>) -> (out: Vec<Expression>)
    ensures
        ordered(out.deep_view()),
        same_groups(out.deep_view(), list.deep_view()),
    decreases list.len(),
{
    if list.len() <= 1 {
        return list;
    }
    let ghost all = list.deep_view();
    let mut left = list;
    let half = left.len() / 2;
    let right = left.split_off(half);
    let ghost l0 = left.deep_view();
    let ghost r0 = right.deep_view();
    assert(all =~= l0 + r0);
    let left = merge_sort(left);
    let right = merge_sort(right);
    let out = merge(left, right);
    proof {
        assert forall|key: int| #[trigger]
            out.deep_view().filter(ranked(key)) == all.filter(ranked(key)) by {
            assert(left.deep_view().filter(ranked(key)) == l0.filter(ranked(key)));
            assert(right.deep_view().filter(ranked(key)) == r0.filter(ranked(key)));
            Seq::filter_distributes_over_add(l0, r0, ranked(key));
        }
    }
    out
}

/// Orders a batch by result, smallest first. Expressions of equal key keep
/// the order they came in; those without a usable result come last.
pub fn sort_list(exp_list: &mut Vec<Expression>)
    ensures
        ordered(final(exp_list).deep_view()),
        same_groups(final(exp_list).deep_view(), old(exp_list).deep_view()),
        final(exp_list).deep_view().to_multiset() == old(exp_list).deep_view().to_multiset(),
        final(exp_list).deep_view() == stable_sort(old(exp_list).deep_view()),
{
    let mut taken: Vec<Expression> = Vec::new();
    taken.append(exp_list);
    assert(taken.deep_view() =~= old(exp_list).deep_view());
    let mut sorted = merge_sort(taken);
    let ghost result = sorted.deep_view();
    exp_list.append(&mut sorted);
    assert(exp_list.deep_view() =~= result);
    proof {
        lemma_stable_sort_is(result, old(exp_list).deep_view());
        lemma_same_groups_permute(result, old(exp_list).deep_view());
    }
}

} // verus!
