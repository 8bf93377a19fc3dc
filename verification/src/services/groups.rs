//! Group handling: the group and group-set records, and the pure ordering
//! logic of manually ordered group lists — position insertion, move-to-front
//! recents, and contiguous renumbering.
use vstd::prelude::*;

use crate::ids::Id;

verus! {

/// A stored group.
#[derive(Debug, Clone, PartialEq, Eq)]
pub struct Group {
    pub id: Id,
    pub creator_id: Id,
    pub name: String,
    pub removed: bool,
}

/// A group to be inserted: the storage layer assigns the row its id.
#[derive(Debug, Clone, PartialEq, Eq)]
pub struct InsertGroup {
    pub creator_id: Id,
    pub name: String,
    pub removed: bool,
}

/// An entry of a user's named group set, as stored.
#[derive(Debug, Clone, PartialEq, Eq)]
pub struct GroupSetItem {
    pub id: Id,
    pub user_id: Id,
    pub group_id: Id,
    pub group_name: String,
    pub set_name: String,
    pub order: i32,
}

/// An entry of a user's named group set, as inserted.
#[derive(Debug, Clone, PartialEq, Eq)]
pub struct InsertGroupSetItem {
    pub user_id: Id,
    pub group_id: Id,
    pub group_name: String,
    pub set_name: String,
    pub order: i32,
}

/// An entry of a user's default group set, as stored.
#[derive(Debug, Clone, PartialEq, Eq)]
pub struct DefaultGroupSetItem {
    pub id: Id,
    pub user_id: Id,
    pub group_id: Id,
    pub group_name: String,
    pub order: i32,
}

/// An entry of a user's default group set, as inserted.
#[derive(Debug, Clone, PartialEq, Eq)]
pub struct InsertDefaultGroupSetItem {
    pub user_id: Id,
    pub group_id: Id,
    pub group_name: String,
    pub order: i32,
}

/// A group ordering row: one group's position in a user's manual order.
#[derive(Debug, Clone, PartialEq, Eq)]
pub struct GroupOrder {
    pub id: Id,
    pub user_id: Id,
    pub group_id: Id,
    pub order: i32,
}

/// A group ordering row to be inserted.
#[derive(Debug, Clone, PartialEq, Eq)]
pub struct InsertGroupOrder {
    pub user_id: Id,
    pub group_id: Id,
    pub order: i32,
}

/// A recently used set of a user.
#[derive(Debug, Clone, PartialEq, Eq)]
pub struct RecentSet {
    pub id: Id,
    pub user_id: Id,
    pub set_id: Id,
}

/// A recently used set row to be inserted.
#[derive(Debug, Clone, PartialEq, Eq)]
pub struct InsertRecentSet {
    pub user_id: Id,
    pub set_id: Id,
}

/// A set as shown to its user.
#[derive(Debug, Clone, PartialEq, Eq)]
pub struct UserSet {
    pub id: Id,
    pub name: String,
}

/// A group as shown to its user, with its position in the listed set.
#[derive(Debug, Clone, PartialEq, Eq)]
pub struct UserGroup {
    pub id: Id,
    pub id_in_set: Id,
    pub name: String,
    pub order: i32,
}

/// The answer to a group removal: the removed group's identity.
#[derive(Debug, Clone, PartialEq, Eq)]
pub struct RemovedGroup {
    pub id: Id,
    pub name: String,
}

/// The position of the first entry whose group is `id`, or `-1`.
pub open spec fn spec_group_position(items: Seq<InsertGroupSetItem>, id: Seq<char>) -> int
    decreases items.len(),
{
    if items.len() == 0 {
        -1
    } else if items[0].group_id@ == id {
        0
    } else {
        let r = spec_group_position(items.drop_first(), id);
        if r == -1 {
            -1
        } else {
            r + 1
        }
    }
}

/// The position at which a new group lands in a manually ordered group set:
/// right after `after_group`'s entry when that group is present, else at the
/// front.
pub open spec fn spec_insert_position(
    items: Seq<InsertGroupSetItem>,
    after_group: Option<Seq<char>>,
) -> int {
    match after_group {
        None => 0,
        Some(id) => {
            if spec_group_position(items, id) == -1 {
                0
            } else {
                spec_group_position(items, id) + 1
            }
        },
    }
}

proof fn lemma_group_position(items: Seq<InsertGroupSetItem>, id: Seq<char>)
    ensures
        spec_group_position(items, id) == -1 ==> forall|i: int|
            0 <= i < items.len() ==> (#[trigger] items[i]).group_id@ != id,
        spec_group_position(items, id) != -1 ==> {
            let r = spec_group_position(items, id);
            &&& 0 <= r < items.len()
            &&& items[r].group_id@ == id
            &&& forall|i: int| 0 <= i < r ==> (#[trigger] items[i]).group_id@ != id
        },
    decreases items.len(),
{
    if items.len() > 0 && items[0].group_id@ != id {
        let rest = items.drop_first();
        lemma_group_position(rest, id);
        assert forall|i: int| 1 <= i < items.len() implies items[i] == rest[i - 1] by {
            assert(rest[i - 1] == items[i]);
        }
        if spec_group_position(rest, id) == -1 {
            assert forall|i: int|
                0 <= i < items.len() implies (#[trigger] items[i]).group_id@ != id by {
                if i >= 1 {
                    assert(items[i] == rest[i - 1]);
                }
            }
        } else {
            let rr = spec_group_position(rest, id);
            assert(items[rr + 1] == rest[rr]);
            assert forall|i: int| 0 <= i < rr + 1 implies (#[trigger] items[i]).group_id@
                != id by {
                if i >= 1 {
                    assert(items[i] == rest[i - 1]);
                }
            }
        }
    }
}

/// The position at which a new group lands among the given set entries:
/// right after the entry for `after_group` when there is one, else at the
/// front.
pub fn new_group_position(group_set: &Vec<InsertGroupSetItem>, after_group: &Option<Id>) -> (r:
    usize)
    ensures
        r <= group_set.len(),
        r == spec_insert_position(group_set@, after_group.deep_view()),
{
    proof {
        if after_group.deep_view() is Some {
            lemma_group_position(group_set@, after_group.deep_view()->0);
        }
    }
    match after_group {
        None => 0,
        Some(id) => {
            let mut i: usize = 0;
            while i < group_set.len()
                invariant
                    i <= group_set.len(),
                    forall|j: int| 0 <= j < i ==> (#[trigger] group_set@[j]).group_id@ != id@,
                decreases group_set.len() - i,
            {
                if group_set[i].group_id == *id {
                    assert(group_set@[i as int].group_id@ == id@);
                    assert(spec_group_position(group_set@, id@) == i as int);
                    return i + 1;
                }
                assert(group_set@[i as int].group_id@ != id@);
                i = i + 1;
            }
            assert(spec_group_position(group_set@, id@) == -1);
            0
        },
    }
}

/// The recents list after a set was just used: the set's entry, if any, is
/// taken out, and a fresh entry for it lands at the front; every other entry
/// keeps its relative position.
pub fn update_recents(recents: Vec<InsertRecentSet>, user_id: &Id, set_id: &Id) -> (r: Vec<
    InsertRecentSet,
>)
    ensures
        r@.len() >= 1,
        r@[0].user_id@ == user_id@ && r@[0].set_id@ == set_id@,
        r@.skip(1) == recents@.filter(|e: InsertRecentSet| e.set_id@ != set_id@),
{
    let ghost pre = recents@;
    let ghost pred = |e: InsertRecentSet| e.set_id@ != set_id@;
    let mut r: Vec<InsertRecentSet> = Vec::new();
    r.push(InsertRecentSet { user_id: user_id.dup(), set_id: set_id.dup() });
    let ghost head = r@;
    let mut i: usize = 0;
    while i < recents.len()
        invariant
            i <= recents.len(),
            recents@ == pre,
            r@.len() >= 1,
            r@[0] == head[0],
            r@.skip(1) == pre.take(i as int).filter(pred),
        decreases recents.len() - i,
    {
        let e = &recents[i];
        let keep = !(e.set_id == *set_id);
        let ghost before = r@;
        if keep {
            r.push(
                InsertRecentSet { user_id: e.user_id.dup(), set_id: e.set_id.dup() },
            );
            proof {
                assert(r@ =~= before.push(pre[i as int]));
                assert(r@.skip(1) =~= before.skip(1).push(pre[i as int]));
            }
        }
        proof {
            assert(pred(pre[i as int]) == keep);
            assert(pre.take(i as int + 1).drop_last() =~= pre.take(i as int));
            assert(pre.take(i as int + 1).last() == pre[i as int]);
            reveal_with_fuel(Seq::filter, 2);
            assert(pre.take(i as int + 1).filter(pred) == if pred(pre[i as int]) {
                pre.take(i as int).filter(pred).push(pre[i as int])
            } else {
                pre.take(i as int).filter(pred)
            });
        }
        i = i + 1;
    }
    proof {
        assert(pre.take(recents.len() as int) =~= pre);
    }
    r
}

/// Renumber the entries of a named group set so their `order` values are the
/// contiguous sequence `0, 1, …, n-1`; nothing else about any entry changes.
pub fn recount_ordering(group_set: &mut Vec<InsertGroupSetItem>)
    requires
        old(group_set).len() <= i32::MAX,
    ensures
        final(group_set).len() == old(group_set).len(),
        forall|i: int|
            0 <= i < final(group_set).len() ==> (#[trigger] final(group_set)@[i]) == (
            InsertGroupSetItem { order: i as i32, ..old(group_set)@[i] }),
{
    let n = group_set.len();
    let mut i: usize = 0;
    while i < n
        invariant
            i <= n,
            n == group_set.len(),
            forall|j: int|
                i <= j < n ==> (#[trigger] group_set@[j]) == old(group_set)@[j],
            forall|j: int|
                0 <= j < i ==> (#[trigger] group_set@[j]) == (InsertGroupSetItem {
                    order: j as i32,
                    ..old(group_set)@[j]
                }),
        decreases n - i,
    {
        group_set[i].order = i as i32;
        i = i + 1;
    }
}

/// Renumber the entries of a default group set so their `order` values are the
/// contiguous sequence `0, 1, …, n-1`; nothing else about any entry changes.
pub fn recount_default_ordering(group_set: &mut Vec<InsertDefaultGroupSetItem>)
    requires
        old(group_set).len() <= i32::MAX,
    ensures
        final(group_set).len() == old(group_set).len(),
        forall|i: int|
            0 <= i < final(group_set).len() ==> (#[trigger] final(group_set)@[i]) == (
            InsertDefaultGroupSetItem { order: i as i32, ..old(group_set)@[i] }),
{
    let n = group_set.len();
    let mut i: usize = 0;
    while i < n
        invariant
            i <= n,
            n == group_set.len(),
            forall|j: int|
                i <= j < n ==> (#[trigger] group_set@[j]) == old(group_set)@[j],
            forall|j: int|
                0 <= j < i ==> (#[trigger] group_set@[j]) == (InsertDefaultGroupSetItem {
                    order: j as i32,
                    ..old(group_set)@[j]
                }),
        decreases n - i,
    {
        group_set[i].order = i as i32;
        i = i + 1;
    }
}

} // verus!
