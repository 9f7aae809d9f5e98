//! Choosing elements of a sequence by their positions.

use vstd::prelude::*;

verus! {

/// The elements at the positions that `keep` holds of, in their order.
pub open spec fn selected<A>(items: Seq<A>, keep: spec_fn(int) -> bool) -> Seq<A> {
    Seq::new(items.len(), |i: int| i).filter(keep).map_values(|i: int| items[i])
}

/// Filtering by two predicates that agree on the elements gives the same, and nothing but
/// elements.
proof fn lemma_filter_agrees(s: Seq<int>, p: spec_fn(int) -> bool, q: spec_fn(int) -> bool)
    requires
        forall|i: int| 0 <= i < s.len() ==> p(#[trigger] s[i]) == q(s[i]),
    ensures
        s.filter(p) == s.filter(q),
        forall|i: int| 0 <= i < s.filter(p).len() ==> s.contains(#[trigger] s.filter(p)[i]),
    decreases s.len(),
{
    reveal(Seq::filter);
    if s.len() > 0 {
        let shorter = s.drop_last();
        lemma_filter_agrees(shorter, p, q);
        assert forall|i: int| 0 <= i < s.filter(p).len() implies s.contains(
            #[trigger] s.filter(p)[i],
        ) by {
            if i < shorter.filter(p).len() {
                assert(shorter.contains(shorter.filter(p)[i]));
                let j = choose|j: int| 0 <= j < shorter.len() && shorter[j] == shorter.filter(p)[i];
                assert(s[j] == s.filter(p)[i]);
            } else {
                assert(s[s.len() - 1] == s.filter(p)[i]);
            }
        }
    }
}

/// One more element is selected exactly if `keep` holds of its position.
pub proof fn lemma_selected_grows<A>(
    items: Seq<A>,
    keep: spec_fn(int) -> bool,
    keep_before: spec_fn(int) -> bool,
)
    requires
        items.len() > 0,
        forall|i: int| 0 <= i < items.len() - 1 ==> #[trigger] keep(i) == keep_before(i),
    ensures
        selected(items, keep) == (if keep(items.len() - 1) {
            selected(items.drop_last(), keep_before).push(items.last())
        } else {
            selected(items.drop_last(), keep_before)
        }),
{
    let before = items.drop_last();
    let all = Seq::new(items.len(), |i: int| i);
    let fewer = Seq::new(before.len(), |i: int| i);
    assert(all.drop_last() =~= fewer);
    lemma_filter_agrees(fewer, keep, keep_before);
    reveal(Seq::filter);
    let kept = fewer.filter(keep);
    assert(forall|i: int| 0 <= i < kept.len() ==> fewer.contains(#[trigger] kept[i]));
    assert(kept.map_values(|i: int| items[i]) =~= selected(before, keep_before));
    if keep(items.len() - 1) {
        assert(selected(items, keep) =~= selected(before, keep_before).push(items.last()));
    }
}

} // verus!
