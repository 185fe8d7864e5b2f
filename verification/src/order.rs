//! Seconds in ascending order.

use vstd::prelude::*;

verus! {

/// `list` holds the members of the set in ascending order, each once.
pub open spec fn lists(list: Seq<u32>, set: Set<u32>) -> bool {
    &&& forall|i: int, j: int| 0 <= i < j < list.len() ==> list[i] < list[j]
    &&& forall|x: u32| #[trigger] set.contains(x) <==> list.contains(x)
}

/// The members of a finite set in ascending order, each once.
pub open spec fn ascending(set: Set<u32>) -> Seq<u32> {
    choose|list: Seq<u32>| lists(list, set)
}

/// There is only one ascending list of the members of a set.
pub proof fn law_ascending_is_unique(list: Seq<u32>, set: Set<u32>)
    requires
        lists(list, set),
    ensures
        ascending(set) == list,
        lists(ascending(set), set),
{
    lemma_same_list(ascending(set), list, set);
}

/// Two ascending lists of the members of a set are the same.
proof fn lemma_same_list(a: Seq<u32>, b: Seq<u32>, set: Set<u32>)
    requires
        lists(a, set),
        lists(b, set),
    ensures
        a == b,
    decreases a.len(),
{
    if a.len() == 0 {
        if b.len() > 0 {
            assert(b.contains(b[0]));
            assert(set.contains(b[0]));
            assert(a.contains(b[0]));
        }
    } else {
        let last = a.last();
        assert(a.contains(last));
        assert(set.contains(last));
        let k = b.index_of(last);
        assert(b[k] == last);
        let top = b.last();
        assert(b.contains(top));
        assert(set.contains(top));
        let m = a.index_of(top);
        assert(a[m] == top);
        assert(last == top);
        lemma_drop_last(a, set);
        lemma_drop_last(b, set);
        lemma_same_list(a.drop_last(), b.drop_last(), set.remove(last));
        assert(a =~= a.drop_last().push(last));
        assert(b =~= b.drop_last().push(last));
    }
}

/// Without its last member an ascending list lists the set without that member.
proof fn lemma_drop_last(list: Seq<u32>, set: Set<u32>)
    requires
        lists(list, set),
        list.len() > 0,
    ensures
        lists(list.drop_last(), set.remove(list.last())),
{
    let rest = list.drop_last();
    let less = set.remove(list.last());
    assert forall|x: u32| #[trigger] less.contains(x) <==> rest.contains(x) by {
        if less.contains(x) {
            let i = list.index_of(x);
            assert(list[i] == x);
            assert(rest[i] == x);
        }
        if rest.contains(x) {
            let i = rest.index_of(x);
            assert(list[i] == x);
            assert(list.contains(x));
        }
    }
}

/// A finite set has an ascending list.
pub proof fn law_ascending_exists(set: Set<u32>)
    requires
        set.finite(),
    ensures
        lists(ascending(set), set),
    decreases set.len(),
{
    if set.len() == 0 {
        let list = Seq::<u32>::empty();
        assert forall|x: u32| #[trigger] set.contains(x) <==> list.contains(x) by {
            if set.contains(x) {
                assert(set.remove(x).len() < set.len());
            }
        }
        law_ascending_is_unique(list, set);
    } else {
        let top = lemma_maximum(set);
        let rest = set.remove(top);
        law_ascending_exists(rest);
        let list = ascending(rest).push(top);
        assert forall|i: int, j: int| 0 <= i < j < list.len() implies list[i] < list[j] by {
            assert(ascending(rest).contains(list[i]));
            assert(rest.contains(list[i]));
        }
        assert forall|x: u32| #[trigger] set.contains(x) <==> list.contains(x) by {
            if set.contains(x) && x != top {
                assert(rest.contains(x));
                let i = ascending(rest).index_of(x);
                assert(list[i] == x);
            }
            if list.contains(x) && x != top {
                let i = list.index_of(x);
                assert(ascending(rest)[i] == x);
                assert(rest.contains(x));
            }
            assert(list[ascending(rest).len() as int] == top);
        }
        law_ascending_is_unique(list, set);
    }
}

/// A finite set with a member has a greatest one.
proof fn lemma_maximum(set: Set<u32>) -> (top: u32)
    requires
        set.finite(),
        set.len() > 0,
    ensures
        set.contains(top),
        forall|x: u32| set.contains(x) ==> x <= top,
    decreases set.len(),
{
    let one = set.choose();
    let rest = set.remove(one);
    if rest.len() == 0 {
        assert forall|x: u32| set.contains(x) implies x <= one by {
            if x != one {
                assert(rest.contains(x));
                assert(rest.remove(x).len() < rest.len());
            }
        }
        one
    } else {
        let other = lemma_maximum(rest);
        if one < other {
            other
        } else {
            one
        }
    }
}

} // verus!
