//! Sequences that are had from another by leaving items out.

use vstd::prelude::*;

verus! {

/// `part` can be had from `whole` by leaving items out: it holds items of
/// `whole` in the order in which they stand there, each place of `whole`
/// used at most once.
pub open spec fn is_subsequence_of<T>(part: Seq<T>, whole: Seq<T>) -> bool
    decreases whole.len(),
{
    if part.len() == 0 {
        true
    } else if whole.len() == 0 {
        false
    } else {
        ||| (part.last() == whole.last() && is_subsequence_of(
            part.drop_last(),
            whole.drop_last(),
        ))
        ||| is_subsequence_of(part, whole.drop_last())
    }
}

/// Where every item that passes `narrow` also passes `wide`, what `narrow`
/// keeps of a sequence is a subsequence of what `wide` keeps of it.
pub proof fn lemma_narrower_filter_keeps_less<T>(
    items: Seq<T>,
    narrow: spec_fn(T) -> bool,
    wide: spec_fn(T) -> bool,
)
    requires
        forall|i: int| 0 <= i < items.len() && narrow(items[i]) ==> wide(items[i]),
    ensures
        is_subsequence_of(items.filter(narrow), items.filter(wide)),
    decreases items.len(),
{
    reveal(Seq::filter);
    if items.len() != 0 {
        let front = items.drop_last();
        let last = items.last();
        assert forall|i: int| 0 <= i < front.len() && narrow(front[i]) implies wide(front[i]) by {
            assert(front[i] == items[i]);
        }
        lemma_narrower_filter_keeps_less(front, narrow, wide);
        let few = front.filter(narrow);
        let many = front.filter(wide);
        if narrow(last) {
            assert(wide(last));
            assert(few.push(last).drop_last() =~= few);
            assert(many.push(last).drop_last() =~= many);
        } else if wide(last) {
            assert(many.push(last).drop_last() =~= many);
        }
    }
}

/// What a filter keeps of a sequence is a subsequence of it.
pub proof fn lemma_filter_keeps_order<T>(items: Seq<T>, keep: spec_fn(T) -> bool)
    ensures
        is_subsequence_of(items.filter(keep), items),
    decreases items.len(),
{
    reveal(Seq::filter);
    if items.len() != 0 {
        let front = items.drop_last();
        lemma_filter_keeps_order(front, keep);
        if keep(items.last()) {
            assert(front.filter(keep).push(items.last()).drop_last() =~= front.filter(keep));
        }
    }
}

} // verus!
