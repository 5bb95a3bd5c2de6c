//! Group keys in order.

use crate::keyed::KeyedMap;
use crate::model::{self, GroupKey, GroupView};
use vstd::prelude::*;

verus! {

/// Whether a group list holds `g`.
pub open spec fn lists(groups: Seq<GroupKey>, g: GroupView) -> bool {
    exists|i: int| 0 <= i < groups.len() && #[trigger] groups[i]@ == g
}

/// Listing one group more adds that group and no other.
pub proof fn lemma_lists_step(groups: Seq<GroupKey>, i: int)
    requires
        0 <= i < groups.len(),
    ensures
        lists(groups, groups[i]@),
        forall|g: GroupView| #[trigger]
            lists(groups.take(i + 1), g) == (lists(groups.take(i), g) || g == groups[i]@),
{
    assert forall|g: GroupView| #[trigger]
        lists(groups.take(i + 1), g) == (lists(groups.take(i), g) || g == groups[i]@) by {
        if lists(groups.take(i + 1), g) {
            let k = choose|k: int|
                0 <= k < groups.take(i + 1).len() && #[trigger] groups.take(i + 1)[k]@ == g;
            if k < i {
                assert(groups.take(i)[k]@ == g);
            }
        }
        if lists(groups.take(i), g) {
            let k = choose|k: int|
                0 <= k < groups.take(i).len() && #[trigger] groups.take(i)[k]@ == g;
            assert(groups.take(i + 1)[k]@ == g);
        }
        if g == groups[i]@ {
            assert(groups.take(i + 1)[i]@ == g);
        }
    }
}

/// Group keys as mathematical values.
pub open spec fn views(groups: Seq<GroupKey>) -> Seq<GroupView> {
    Seq::new(groups.len(), |i: int| groups[i]@)
}

/// Whether `list` is the groups of `all` in order.
pub open spec fn is_listing(list: Seq<GroupView>, all: Set<GroupView>) -> bool {
    &&& forall|i: int, j: int|
        0 <= i < j < list.len() ==> model::group_before(#[trigger] list[i], #[trigger] list[j])
    &&& forall|g: GroupView|
        #![trigger list.contains(g)]
        #![trigger all.contains(g)]
        list.contains(g) == all.contains(g)
}

/// The groups of `all` in order.
pub open spec fn listing(all: Set<GroupView>) -> Seq<GroupView> {
    choose|list: Seq<GroupView>| is_listing(list, all)
}

/// The `k`-th groups of two listings are the same.
proof fn lemma_listings_agree(
    list: Seq<GroupView>,
    other: Seq<GroupView>,
    all: Set<GroupView>,
    k: int,
)
    requires
        is_listing(list, all),
        is_listing(other, all),
        0 <= k < list.len(),
    ensures
        k < other.len(),
        list[k] == other[k],
    decreases k,
{
    let x = list[k];
    assert forall|j: int| 0 <= j < k implies j < other.len() && #[trigger] list[j]
        == other[j] by {
        lemma_listings_agree(list, other, all, j);
    }
    assert(list.contains(x));
    assert(all.contains(x));
    let m = choose|m: int| 0 <= m < other.len() && other[m] == x;
    if m < k {
        assert(list[m] == other[m]);
        assert(model::group_before(list[m], list[k]));
        model::law_group_order(x, x, x);
    }
    if m > k {
        let y = other[k];
        assert(model::group_before(other[k], other[m]));
        assert(other.contains(y));
        assert(all.contains(y));
        let p = choose|p: int| 0 <= p < list.len() && list[p] == y;
        model::law_group_order(y, x, y);
        model::law_group_order(y, y, y);
        if p < k {
            assert(list[p] == other[p]);
            assert(model::group_before(other[p], other[k]));
        } else if p > k {
            assert(model::group_before(list[k], list[p]));
        }
    }
}

/// There is one listing of a set of groups.
pub proof fn lemma_listing_is_unique(
    list: Seq<GroupView>,
    other: Seq<GroupView>,
    all: Set<GroupView>,
)
    requires
        is_listing(list, all),
        is_listing(other, all),
    ensures
        list == other,
{
    assert forall|k: int| 0 <= k < list.len() implies k < other.len() && list[k] == other[k] by {
        lemma_listings_agree(list, other, all, k);
    }
    if other.len() > list.len() {
        lemma_listings_agree(other, list, all, list.len() as int);
    }
    if list.len() > other.len() {
        lemma_listings_agree(list, other, all, other.len() as int);
    }
    assert(list =~= other);
}

/// Groups in strict order that are those of `all` are the listing of `all`.
pub proof fn lemma_is_listing(groups: Seq<GroupKey>, all: Set<GroupView>)
    requires
        ascending(groups),
        forall|g: GroupView| #[trigger] lists(groups, g) == all.contains(g),
    ensures
        is_listing(views(groups), all),
        views(groups) == listing(all),
{
    let list = views(groups);
    assert forall|g: GroupView| list.contains(g) == all.contains(g) by {
        if list.contains(g) {
            let i = choose|i: int| 0 <= i < list.len() && list[i] == g;
            assert(groups[i]@ == g);
            assert(lists(groups, g));
        }
        if all.contains(g) {
            assert(lists(groups, g));
            let i = choose|i: int| 0 <= i < groups.len() && #[trigger] groups[i]@ == g;
            assert(list[i] == g);
        }
    }
    assert forall|i: int, j: int| 0 <= i < j < list.len() implies model::group_before(
        #[trigger] list[i],
        #[trigger] list[j],
    ) by {
        assert(model::group_before(groups[i]@, groups[j]@));
    }
    assert(is_listing(list, all));
    lemma_listing_is_unique(list, listing(all), all);
}

/// `list` with `a` put in its place.
spec fn placed(list: Seq<GroupView>, a: GroupView) -> Seq<GroupView>
    decreases list.len(),
{
    if list.len() == 0 || model::group_before(list.last(), a) {
        list.push(a)
    } else {
        placed(list.drop_last(), a).push(list.last())
    }
}

proof fn lemma_placed(list: Seq<GroupView>, all: Set<GroupView>, a: GroupView)
    requires
        is_listing(list, all),
        !all.contains(a),
    ensures
        is_listing(placed(list, a), all.insert(a)),
    decreases list.len(),
{
    let after = placed(list, a);
    if list.len() == 0 || model::group_before(list.last(), a) {
        assert forall|i: int, j: int| 0 <= i < j < after.len() implies model::group_before(
            #[trigger] after[i],
            #[trigger] after[j],
        ) by {
            if j == list.len() && i < list.len() - 1 {
                model::law_group_order(list[i], list.last(), a);
            }
        }
        assert forall|g: GroupView| after.contains(g) == all.insert(a).contains(g) by {
            if list.contains(g) {
                let i = choose|i: int| 0 <= i < list.len() && list[i] == g;
                assert(after[i] == g);
            }
            assert(after[list.len() as int] == a);
            if after.contains(g) {
                let i = choose|i: int| 0 <= i < after.len() && after[i] == g;
                if i < list.len() {
                    assert(list[i] == g);
                }
            }
        }
    } else {
        let last = list.last();
        let init = list.drop_last();
        let fewer = all.remove(last);
        assert(list.contains(last));
        assert forall|g: GroupView| init.contains(g) == fewer.contains(g) by {
            if init.contains(g) {
                let i = choose|i: int| 0 <= i < init.len() && init[i] == g;
                assert(list[i] == g && list.contains(g));
                assert(model::group_before(list[i], last));
                model::law_group_order(g, g, g);
            }
            if fewer.contains(g) {
                assert(list.contains(g));
                let i = choose|i: int| 0 <= i < list.len() && list[i] == g;
                assert(init[i] == g);
            }
        }
        assert(is_listing(init, fewer));
        lemma_placed(init, fewer, a);
        let head = placed(init, a);
        assert(a != last);
        model::law_group_order(last, a, last);
        assert forall|i: int, j: int| 0 <= i < j < after.len() implies model::group_before(
            #[trigger] after[i],
            #[trigger] after[j],
        ) by {
            if j == head.len() {
                let x = head[i];
                assert(head.contains(x));
                assert(fewer.insert(a).contains(x));
                if x != a {
                    assert(fewer.contains(x));
                    assert(init.contains(x));
                    let k = choose|k: int| 0 <= k < init.len() && init[k] == x;
                    assert(list[k] == x);
                    assert(model::group_before(list[k], list[list.len() - 1]));
                }
            } else {
                assert(after[i] == head[i] && after[j] == head[j]);
            }
        }
        assert forall|g: GroupView| after.contains(g) == all.insert(a).contains(g) by {
            assert(head.contains(g) == fewer.insert(a).contains(g));
            if head.contains(g) {
                let i = choose|i: int| 0 <= i < head.len() && head[i] == g;
                assert(after[i] == g);
            }
            assert(after[head.len() as int] == last);
            if after.contains(g) {
                let i = choose|i: int| 0 <= i < after.len() && after[i] == g;
                if i < head.len() {
                    assert(head[i] == g);
                }
            }
        }
    }
}

/// Every finite set of groups has a listing.
pub proof fn lemma_listing(all: Set<GroupView>)
    requires
        all.finite(),
    ensures
        is_listing(listing(all), all),
    decreases all.len(),
{
    if all.len() == 0 {
        let none = Seq::<GroupView>::empty();
        assert forall|g: GroupView| none.contains(g) == all.contains(g) by {}
        assert(is_listing(none, all));
    } else {
        let a = all.choose();
        let fewer = all.remove(a);
        lemma_listing(fewer);
        lemma_placed(listing(fewer), fewer, a);
        assert(fewer.insert(a) =~= all);
        assert(is_listing(placed(listing(fewer), a), all));
    }
}

/// Whether the list holds `group`.
pub fn contains_group(groups: &Vec<GroupKey>, group: &GroupKey) -> (r: bool)
    ensures
        r == lists(groups@, group@),
{
    let mut i: usize = 0;
    while i < groups.len()
        invariant
            i <= groups@.len(),
            forall|k: int| 0 <= k < i ==> #[trigger] groups@[k]@ != group@,
        decreases groups@.len() - i,
    {
        if model::same_group(&groups[i], group) {
            return true;
        }
        i += 1;
    }
    false
}

/// Whether groups stand in strict order.
pub open spec fn ascending(groups: Seq<GroupKey>) -> bool {
    forall|i: int, j: int|
        0 <= i < j < groups.len() ==> model::group_before(
            (#[trigger] groups[i])@,
            (#[trigger] groups[j])@,
        )
}

/// Put `group` in its place.
pub fn insert_group(groups: &mut Vec<GroupKey>, group: GroupKey)
    requires
        ascending(old(groups)@),
        !lists(old(groups)@, group@),
    ensures
        ascending(final(groups)@),
        final(groups)@.len() == old(groups)@.len() + 1,
        forall|g: GroupView| #[trigger]
            lists(final(groups)@, g) == (lists(old(groups)@, g) || g == group@),
{
    let ghost before = groups@;
    let mut p: usize = 0;
    while p < groups.len() && model::is_group_before(&groups[p], &group)
        invariant
            p <= groups@.len(),
            groups@ == before,
            forall|k: int| 0 <= k < p ==> model::group_before((#[trigger] groups@[k])@, group@),
        decreases groups@.len() - p,
    {
        p += 1;
    }
    groups.insert(p, group);
    proof {
        let after = groups@;
        assert(after =~= before.insert(p as int, group));
        assert forall|i: int, j: int| 0 <= i < j < after.len() implies model::group_before(
            (#[trigger] after[i])@,
            (#[trigger] after[j])@,
        ) by {
            if i < p && j > p {
                assert(after[i] == before[i] && after[j] == before[j - 1]);
            } else if i < p && j < p {
                assert(after[i] == before[i] && after[j] == before[j]);
            } else if i > p {
                assert(after[i] == before[i - 1] && after[j] == before[j - 1]);
            } else if i == p {
                assert(after[j] == before[j - 1]);
                assert(lists(before, before[p as int]@));
                model::law_group_order(before[p as int]@, group@, before[j - 1]@);
                if j - 1 > p {
                    assert(model::group_before(before[p as int]@, before[j - 1]@));
                    model::law_group_order(group@, before[p as int]@, before[j - 1]@);
                }
            }
        }
        assert forall|g: GroupView| #[trigger]
            lists(after, g) == (lists(before, g) || g == group@) by {
            if lists(before, g) {
                let k = choose|k: int| 0 <= k < before.len() && #[trigger] before[k]@ == g;
                assert(after[if k < p {
                    k
                } else {
                    k + 1
                }]@ == g);
            }
            if g == group@ {
                assert(after[p as int]@ == g);
            }
            if lists(after, g) {
                let k = choose|k: int| 0 <= k < after.len() && #[trigger] after[k]@ == g;
                if k < p {
                    assert(before[k]@ == g);
                } else if k > p {
                    assert(before[k - 1]@ == g);
                }
            }
        }
    }
}

/// The groups of a fleet, in order.
pub fn sorted_groups<V>(fleet: &KeyedMap<GroupKey, V>) -> (r: Vec<GroupKey>)
    requires
        fleet.wf(),
    ensures
        ascending(r@),
        r@.len() == fleet.items().len(),
        forall|g: GroupView| #[trigger] lists(r@, g) == fleet@.contains_key(g),
        views(r@) == listing(fleet@.dom()),
{
    let mut groups: Vec<GroupKey> = Vec::new();
    let mut i: usize = 0;
    proof {
        fleet.lemma_items();
    }
    while i < fleet.len()
        invariant
            i <= fleet.items().len(),
            fleet.wf(),
            forall|a: int, b: int|
                0 <= a < b < fleet.items().len() ==> (#[trigger] fleet.items()[a]).0@ != (
                #[trigger] fleet.items()[b]).0@,
            ascending(groups@),
            groups@.len() == i,
            forall|g: GroupView| #[trigger]
                lists(groups@, g) == exists|k: int|
                    0 <= k < i && (#[trigger] fleet.items()[k]).0@ == g,
        decreases fleet.items().len() - i,
    {
        let ghost before = groups@;
        let group = model::clone_group(&fleet.entry(i).0);
        insert_group(&mut groups, group);
        proof {
            assert forall|g: GroupView| #[trigger]
                lists(groups@, g) == exists|k: int|
                    0 <= k < i + 1 && (#[trigger] fleet.items()[k]).0@ == g by {
                assert(lists(before, g) == exists|k: int|
                    0 <= k < i && (#[trigger] fleet.items()[k]).0@ == g);
                if g == group@ {
                    assert(fleet.items()[i as int].0@ == g);
                }
            }
        }
        i += 1;
    }
    proof {
        assert forall|g: GroupView| #[trigger]
            lists(groups@, g) == fleet@.contains_key(g) by {
            if lists(groups@, g) {
                let k = choose|k: int|
                    0 <= k < fleet.items().len() && (#[trigger] fleet.items()[k]).0@ == g;
                assert(fleet@.contains_key(fleet.items()[k].0@));
            }
        }
        lemma_is_listing(groups@, fleet@.dom());
    }
    groups
}

} // verus!
