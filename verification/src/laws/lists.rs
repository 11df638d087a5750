//! Facts about lists that the laws share.
use vstd::prelude::*;

verus! {

/// What a filter keeps of a list from a position on: the element there if it is wanted, and what
/// it keeps of the rest.
pub proof fn lemma_filter_front<A>(s: Seq<A>, i: int, wanted: spec_fn(A) -> bool)
    requires
        0 <= i <= s.len(),
    ensures
        i == s.len() ==> s.skip(i).filter(wanted) == Seq::<A>::empty(),
        i < s.len() && wanted(s[i]) ==> s.skip(i).filter(wanted) == seq![s[i]] + s.skip(
            i + 1,
        ).filter(wanted),
        i < s.len() && !wanted(s[i]) ==> s.skip(i).filter(wanted) == s.skip(i + 1).filter(wanted),
{
    reveal(Seq::filter);
    if i == s.len() {
        assert(s.skip(i) =~= Seq::empty());
    } else {
        let one = seq![s[i]];
        assert(s.skip(i) =~= one + s.skip(i + 1));
        Seq::filter_distributes_over_add(one, s.skip(i + 1), wanted);
        assert(one.drop_last() =~= Seq::empty());
        assert(one.drop_last().filter(wanted) =~= Seq::empty());
        assert(one.last() == s[i]);
        if wanted(s[i]) {
            assert(one.filter(wanted) =~= one);
        } else {
            assert(one.filter(wanted) =~= Seq::empty());
            assert(Seq::<A>::empty() + s.skip(i + 1).filter(wanted) =~= s.skip(i + 1).filter(
                wanted,
            ));
        }
    }
}

/// A list that is built from the front by keeping what is wanted is the filtered list.
pub proof fn lemma_filter_contains<A>(s: Seq<A>, wanted: spec_fn(A) -> bool, x: A)
    ensures
        s.filter(wanted).contains(x) <==> s.contains(x) && wanted(x),
    decreases s.len(),
{
    reveal(Seq::filter);
    if s.len() > 0 {
        let front = s.drop_last();
        lemma_filter_contains(front, wanted, x);
        let kept = front.filter(wanted);
        let all = s.filter(wanted);
        assert(s[s.len() - 1] == s.last());
        if kept.contains(x) {
            let i = choose|i: int| 0 <= i < kept.len() && kept[i] == x;
            assert(all[i] == x);
        }
        if front.contains(x) {
            let i = choose|i: int| 0 <= i < front.len() && front[i] == x;
            assert(s[i] == x);
        }
        if s.contains(x) && !front.contains(x) {
            let i = choose|i: int| 0 <= i < s.len() && s[i] == x;
            if i < front.len() {
                assert(front[i] == x);
            }
        }
        if wanted(s.last()) {
            assert(all[kept.len() as int] == s.last());
        }
        if all.contains(x) {
            let i = choose|i: int| 0 <= i < all.len() && all[i] == x;
            if i < kept.len() {
                assert(kept[i] == x);
            }
        }
    }
}

} // verus!
